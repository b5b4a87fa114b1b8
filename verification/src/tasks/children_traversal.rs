//! Walking down from a task to its subtasks, level by level.

use crate::lists::views;
use crate::nostr::EventId;
use crate::task::Task;
use crate::tasks::task_map::{
    child_ids, children, children_for, children_ids_for, find_task, has_task, ids_unique,
    lemma_children, places, task_at, task_of, TasksView,
};
use vstd::prelude::*;

verus! {

/// What a traversal takes of a task.
#[derive(Clone, Copy, Debug, PartialEq, Eq, Structural)]
pub enum TraversalFilter {
    Reject,
    TakeSelf,
    TakeChildren,
    Take,
}

impl TraversalFilter {
    pub open spec fn children(self) -> bool {
        self == TraversalFilter::Take || self == TraversalFilter::TakeChildren
    }

    pub open spec fn itself(self) -> bool {
        self == TraversalFilter::Take || self == TraversalFilter::TakeSelf
    }

    pub fn takes_children(&self) -> (r: bool)
        ensures
            r == self.children(),
    {
        *self == TraversalFilter::Take || *self == TraversalFilter::TakeChildren
    }

    pub fn takes_self(&self) -> (r: bool)
        ensures
            r == self.itself(),
    {
        *self == TraversalFilter::Take || *self == TraversalFilter::TakeSelf
    }
}

/// Breadth-First traversal over tasks with recursive children
#[derive(Debug)]
pub struct ChildrenTraversal<'a> {
    tasks: &'a Vec<Task>,
    /// Found Events
    queue: Vec<EventId>,
    /// Index of the next element in the queue
    index: usize,
    /// Depth of the next element
    depth: usize,
    /// Element with the next depth boundary
    next_depth_at: usize,
}

/// How far a traversal has come.
#[verifier::ext_equal]
pub struct TraversalView {
    pub queue: Seq<EventId>,
    pub index: int,
    pub depth: int,
    pub next_depth_at: int,
}

impl<'a> View for ChildrenTraversal<'a> {
    type V = TraversalView;

    closed spec fn view(&self) -> TraversalView {
        TraversalView {
            queue: self.queue@,
            index: self.index as int,
            depth: self.depth as int,
            next_depth_at: self.next_depth_at as int,
        }
    }
}

impl TraversalView {
    /// The start at a single task.
    pub open spec fn from(id: EventId) -> TraversalView {
        TraversalView { queue: seq![id], index: 0, depth: 0, next_depth_at: 1 }
    }

    pub open spec fn finished(self) -> bool {
        self.index >= self.queue.len()
    }

    /// The start at the first level of several tasks.
    pub open spec fn with_queue(queue: Seq<EventId>) -> TraversalView {
        TraversalView { queue, index: 0, depth: 1, next_depth_at: queue.len() as int }
    }

    /// The next element is passed.
    pub open spec fn passed(self) -> TraversalView {
        TraversalView { index: self.index + 1, ..self }
    }

    /// More elements join the queue.
    pub open spec fn joined(self, ids: Seq<EventId>) -> TraversalView {
        TraversalView { queue: self.queue + ids, ..self }
    }

    /// At the boundary the next level begins.
    pub open spec fn checked(self) -> TraversalView {
        if self.next_depth_at == self.index {
            TraversalView {
                depth: if self.depth < usize::MAX {
                    self.depth + 1
                } else {
                    self.depth
                },
                next_depth_at: self.queue.len() as int,
                ..self
            }
        } else {
            self
        }
    }

    /// The next element is passed, its children join the queue, and at the boundary the next
    /// level begins.
    pub open spec fn step(self, tasks: TasksView) -> TraversalView {
        self.passed().joined(child_ids(tasks, Some(self.queue[self.index]))).checked()
    }

    /// The next element is passed, and its children join the queue where they are taken.
    pub open spec fn filtered_step(self, tasks: TasksView, take: TraversalFilter) -> TraversalView {
        if take.children() {
            self.step(tasks)
        } else {
            self.passed().checked()
        }
    }

    /// One element after the other is passed, with what is taken of each.
    pub open spec fn sifted(self, tasks: TasksView, takes: Seq<TraversalFilter>) -> TraversalView
        decreases takes.len(),
    {
        if takes.len() == 0 {
            self
        } else {
            self.sifted(tasks, takes.drop_last()).filtered_step(tasks, takes.last())
        }
    }

    /// Up to `fuel` steps, until the end or the given depth.
    pub open spec fn run(self, tasks: TasksView, depth: int, fuel: nat) -> TraversalView
        decreases fuel,
    {
        if fuel == 0 || self.finished() || self.depth >= depth {
            self
        } else {
            self.step(tasks).run(tasks, depth, (fuel - 1) as nat)
        }
    }

    /// Up to `fuel` steps, until the end.
    pub open spec fn run_all(self, tasks: TasksView, fuel: nat) -> TraversalView
        decreases fuel,
    {
        if fuel == 0 || self.finished() {
            self
        } else {
            self.step(tasks).run_all(tasks, (fuel - 1) as nat)
        }
    }
}

/// A task and all tasks below it, level by level. Each task has one parent, so these are no more
/// than all tasks and the one at the top, which need not be known.
pub open spec fn subtree(tasks: TasksView, id: EventId) -> Seq<EventId> {
    TraversalView::from(id).run_all(tasks, tasks.len() + 1).queue
}

impl<'a> ChildrenTraversal<'a> {
    pub closed spec fn all(&self) -> TasksView {
        views(self.tasks@)
    }

    pub fn from(tasks: &'a Vec<Task>, id: EventId) -> (r: ChildrenTraversal<'a>)
        ensures
            r@ == TraversalView::from(id),
            r.all() == views(tasks@),
    {
        let mut queue: Vec<EventId> = Vec::new();
        queue.push(id);
        let r: ChildrenTraversal<'a> = ChildrenTraversal {
            tasks,
            queue,
            index: 0,
            depth: 0,
            next_depth_at: 1,
        };
        assert(r@ =~= TraversalView::from(id));
        r
    }

    /// Start with the given tasks as the first level.
    fn with_queue(tasks: &'a Vec<Task>, queue: Vec<EventId>) -> (r: ChildrenTraversal<'a>)
        ensures
            r@ == TraversalView::with_queue(queue@),
            r.all() == views(tasks@),
    {
        let len: usize = queue.len();
        let r: ChildrenTraversal<'a> = ChildrenTraversal {
            tasks,
            next_depth_at: len,
            index: 0,
            depth: 1,
            queue,
        };
        assert(r@ =~= TraversalView::with_queue(queue@));
        r
    }

    /// Start with the tasks that have the given parent as the first level.
    pub fn rooted(tasks: &'a Vec<Task>, id: Option<EventId>) -> (r: ChildrenTraversal<'a>)
        ensures
            r@ == TraversalView::with_queue(child_ids(views(tasks@), id)),
            r.all() == views(tasks@),
    {
        let at: Vec<usize> = children_for(tasks, id);
        let ghost all = child_ids(views(tasks@), id);
        let mut queue: Vec<EventId> = Vec::new();
        let mut i: usize = 0;
        assert(all.take(0) =~= Seq::<EventId>::empty());
        while i < at.len()
            invariant
                0 <= i <= at.len(),
                all == child_ids(views(tasks@), id),
                places(at@) == children(views(tasks@), id),
                forall|k: int| 0 <= k < at@.len() ==> #[trigger] at@[k] < tasks.len(),
                queue@ == all.take(i as int),
            decreases at.len() - i,
        {
            assert(places(at@)[i as int] == at@[i as int]);
            queue.push(tasks[at[i]].get_id());
            assert(all.take(i as int).push(all[i as int]) =~= all.take(i + 1));
            i += 1;
        }
        assert(places(at@).len() == at@.len());
        assert(all.take(at@.len() as int) =~= all);
        Self::with_queue(tasks, queue)
    }

    fn check_depth(&mut self)
        ensures
            final(self).all() == old(self).all(),
            final(self).tasks == old(self).tasks,
            final(self)@ == old(self)@.checked(),
    {
        if self.next_depth_at == self.index {
            self.depth = self.depth.saturating_add(1);
            self.next_depth_at = self.queue.len();
        }
        assert(self@ =~= old(self)@.checked());
    }

    /// Get next id and advance, without adding children
    pub fn next_task(&mut self) -> (r: Option<EventId>)
        ensures
            final(self).all() == old(self).all(),
            final(self).known() == old(self).known(),
            match r {
                Some(id) => !old(self)@.finished() && id == old(self)@.queue[old(self)@.index]
                    && final(self)@ == old(self)@.passed(),
                None => old(self)@.finished() && final(self)@ == old(self)@,
            },
    {
        if self.index >= self.queue.len() {
            return None;
        }
        let id: EventId = self.queue[self.index];
        self.index += 1;
        assert(self@ =~= old(self)@.passed());
        Some(id)
    }

    fn queue_children_of(&mut self, id: EventId)
        ensures
            final(self).all() == old(self).all(),
            final(self).tasks == old(self).tasks,
            final(self)@ == old(self)@.joined(child_ids(old(self).all(), Some(id))),
    {
        let mut found: Vec<EventId> = children_ids_for(self.tasks, id);
        self.queue.append(&mut found);
        assert(self@ =~= old(self)@.joined(child_ids(old(self).all(), Some(id))));
    }

    /// Passes the next element, if there is one, and queues its children.
    pub fn next(&mut self) -> (r: Option<EventId>)
        ensures
            final(self).all() == old(self).all(),
            match r {
                Some(id) => !old(self)@.finished() && id == old(self)@.queue[old(self)@.index]
                    && final(self)@ == old(self)@.step(old(self).all()),
                None => old(self)@.finished() && final(self)@ == old(self)@,
            },
    {
        match self.next_task() {
            Some(id) => {
                self.queue_children_of(id);
                self.check_depth();
                Some(id)
            },
            None => None,
        }
    }

    /// The tasks themselves.
    pub closed spec fn known(&self) -> Seq<Task> {
        self.tasks@
    }

    /// What the filter may say of the element that comes after those given: of an unknown task
    /// nothing is taken.
    pub open spec fn may_take<F: Fn(&Task) -> TraversalFilter>(
        &self,
        filter: F,
        takes: Seq<TraversalFilter>,
        i: int,
    ) -> bool {
        let s = self@.sifted(self.all(), takes.take(i));
        &&& !s.finished()
        &&& if has_task(self.all(), s.queue[s.index]) {
            call_ensures(
                filter,
                (&self.known()[task_at(self.all(), s.queue[s.index])],),
                takes[i],
            )
        } else {
            takes[i] == TraversalFilter::Reject
        }
    }

    /// Get the next known task that the filter takes, and queue the children that it takes. No
    /// more elements are passed than there are tasks besides those in the queue: each task has one
    /// parent.
    pub fn next_filtered<F: Fn(&Task) -> TraversalFilter>(&mut self, filter: &F) -> (r: Option<
        &'a Task,
    >)
        requires
            forall|t: &Task| call_requires(filter, (t,)),
        ensures
            final(self).all() == old(self).all(),
            exists|takes: Seq<TraversalFilter>|
                {
                    &&& final(self)@ == #[trigger] old(self)@.sifted(old(self).all(), takes)
                    &&& forall|i: int|
                        0 <= i < takes.len() ==> #[trigger] old(self).may_take(*filter, takes, i)
                    &&& forall|i: int|
                        0 <= i < takes.len() - 1 ==> !(#[trigger] takes[i]).itself()
                    &&& match r {
                        Some(t) => takes.len() > 0 && takes.last().itself() && ({
                            let s = old(self)@.sifted(old(self).all(), takes.drop_last());
                            task_of(old(self).all(), s.queue[s.index]) == Some(t@)
                        }),
                        None => {
                            &&& takes.len() > 0 ==> !takes.last().itself()
                            &&& {
                                ||| final(self)@.finished()
                                ||| takes.len() == old(self)@.queue.len() + old(self).all().len()
                            }
                        },
                    }
                },
    {
        let ghost start = self@;
        let ghost all = self.all();
        let ghost mut takes: Seq<TraversalFilter> = Seq::empty();
        let mut left: usize = self.queue.len();
        let mut more: usize = self.tasks.len();
        while left > 0 || more > 0
            invariant
                start == old(self)@,
                all == old(self).all(),
                self.all() == all,
                self.known() == old(self).known(),
                views(self.known()) == all,
                forall|t: &Task| call_requires(filter, (t,)),
                self@ == start.sifted(all, takes),
                takes.len() + left + more == start.queue.len() + all.len(),
                forall|i: int|
                    0 <= i < takes.len() ==> #[trigger] old(self).may_take(*filter, takes, i),
                forall|i: int| 0 <= i < takes.len() ==> !(#[trigger] takes[i]).itself(),
            decreases left + more,
        {
            let ghost before = takes;
            match self.next_task() {
                None => {
                    assert(self@ == start.sifted(all, takes));
                    return None;
                },
                Some(id) => {
                    if left > 0 {
                        left -= 1;
                    } else {
                        more -= 1;
                    }
                    let at: usize = find_task(self.tasks, id);
                    if at < self.tasks.len() {
                        let task: &'a Task = &self.tasks[at];
                        let take: TraversalFilter = filter(task);
                        if take.takes_children() {
                            self.queue_children_of(id);
                        }
                        self.check_depth();
                        proof {
                            takes = takes.push(take);
                            lemma_take_added(old(self), *filter, before, take);
                            assert(takes.drop_last() =~= before);
                        }
                        if take.takes_self() {
                            assert(self@ == start.sifted(all, takes));
                            return Some(task);
                        }
                    } else {
                        self.check_depth();
                        proof {
                            takes = takes.push(TraversalFilter::Reject);
                            lemma_take_added(old(self), *filter, before, TraversalFilter::Reject);
                            assert(takes.drop_last() =~= before);
                        }
                    }
                },
            }
        }
        assert(self@ == start.sifted(all, takes));
        None
    }

    /// Process until the given depth
    /// Returns true if that depth was reached
    pub fn process_depth(&mut self, depth: usize) -> (r: bool)
        ensures
            final(self).all() == old(self).all(),
            final(self)@ == old(self)@.run(old(self).all(), depth as int, old(self).all().len() + 1),
            r == (final(self)@.depth >= depth),
    {
        let ghost all = self.all();
        let ghost goal = self@.run(all, depth as int, all.len() + 1);
        let mut left: usize = self.tasks.len();
        loop
            invariant
                self.all() == all,
                all == old(self).all(),
                left <= all.len(),
                goal == self@.run(all, depth as int, (left + 1) as nat),
                goal == old(self)@.run(all, depth as int, all.len() + 1),
            decreases left,
        {
            if self.depth >= depth {
                return true;
            }
            match self.next() {
                Some(_) => {},
                None => {
                    return false;
                },
            }
            if left == 0 {
                assert(goal == self@.run(all, depth as int, 0));
                return self.depth >= depth;
            }
            left -= 1;
        }
    }

    /// Get all children
    pub fn get_all(self) -> (r: Vec<EventId>)
        ensures
            r@ == self@.run_all(self.all(), self.all().len() + 1).queue,
    {
        let mut this: ChildrenTraversal<'a> = self;
        let ghost all = this.all();
        let ghost goal = this@.run_all(all, all.len() + 1);
        let mut left: usize = this.tasks.len();
        loop
            invariant
                this.all() == all,
                left <= all.len(),
                goal == this@.run_all(all, (left + 1) as nat),
                goal == self@.run_all(self.all(), self.all().len() + 1),
            decreases left,
        {
            match this.next() {
                Some(_) => {},
                None => {
                    return this.queue;
                },
            }
            if left == 0 {
                assert(goal == this@.run_all(all, 0));
                return this.queue;
            }
            left -= 1;
        }
    }

    /// Get all tasks until the specified depth
    pub fn get_depth(self, depth: usize) -> (r: Vec<EventId>)
        ensures
            r@ == self@.run(self.all(), depth as int, self.all().len() + 1).queue,
    {
        let mut this: ChildrenTraversal<'a> = self;
        this.process_depth(depth);
        this.queue
    }
}

/// What was taken before stays so when the next element is passed.
proof fn lemma_take_added<'a, F: Fn(&Task) -> TraversalFilter>(
    from: &ChildrenTraversal<'a>,
    filter: F,
    takes: Seq<TraversalFilter>,
    take: TraversalFilter,
)
    requires
        forall|i: int| 0 <= i < takes.len() ==> #[trigger] from.may_take(filter, takes, i),
        ({
            let s = from@.sifted(from.all(), takes);
            &&& !s.finished()
            &&& if has_task(from.all(), s.queue[s.index]) {
                call_ensures(
                    filter,
                    (&from.known()[task_at(from.all(), s.queue[s.index])],),
                    take,
                )
            } else {
                take == TraversalFilter::Reject
            }
        }),
    ensures
        forall|i: int|
            0 <= i <= takes.len() ==> #[trigger] from.may_take(filter, takes.push(take), i),
{
    let more = takes.push(take);
    assert forall|i: int| 0 <= i <= takes.len() implies #[trigger] from.may_take(
        filter,
        more,
        i,
    ) by {
        assert(more.take(i) =~= takes.take(i));
        if i < takes.len() {
            assert(from.may_take(filter, takes, i));
        } else {
            assert(takes.take(i) =~= takes);
        }
    }
}

// ---------------------------------------------------------------------------
// Laws

/// No task is above itself: along the parents a rank goes down.
pub open spec fn ranked(tasks: TasksView, rank: spec_fn(EventId) -> nat) -> bool {
    forall|i: int|
        0 <= i < tasks.len() ==> ((#[trigger] tasks[i]).parent() matches Some(p) ==> rank(p) < rank(
            tasks[i].event.id,
        ))
}

/// Whether element `j` of the queue is a task whose parent has been passed.
spec fn is_found(tasks: TasksView, s: TraversalView, j: int) -> bool {
    exists|t: int, p: int|
        0 <= t < tasks.len() && 0 <= p < s.index && (#[trigger] tasks[t]).event.id == s.queue[j]
            && tasks[t].parent() == Some(#[trigger] s.queue[p])
}

spec fn sound(tasks: TasksView, id: EventId, rank: spec_fn(EventId) -> nat, s: TraversalView) -> bool {
    &&& 0 <= s.index <= s.queue.len()
    &&& s.queue.len() > 0
    &&& s.queue[0] == id
    &&& s.queue.no_duplicates()
    &&& forall|j: int| 1 <= j < s.queue.len() ==> #[trigger] is_found(tasks, s, j)
    &&& forall|j: int| 1 <= j < s.queue.len() ==> rank(id) < rank(#[trigger] s.queue[j])
    &&& forall|t: int, p: int|
        0 <= t < tasks.len() && 0 <= p < s.index && (#[trigger] tasks[t]).parent() == Some(
            #[trigger] s.queue[p],
        ) ==> s.queue.contains(tasks[t].event.id)
}

proof fn lemma_sound_step(
    tasks: TasksView,
    id: EventId,
    rank: spec_fn(EventId) -> nat,
    s: TraversalView,
)
    requires
        ids_unique(tasks),
        ranked(tasks, rank),
        sound(tasks, id, rank, s),
        !s.finished(),
    ensures
        sound(tasks, id, rank, s.step(tasks)),
{
    let top = s.queue[s.index];
    let at = children(tasks, Some(top));
    let new = child_ids(tasks, Some(top));
    let r = s.step(tasks);
    lemma_children(tasks, Some(top));
    assert(r.queue == s.queue + new);
    assert forall|k: int| 0 <= k < new.len() implies 0 <= at[k] < tasks.len() && (
    #[trigger] new[k]) == tasks[at[k]].event.id && tasks[at[k]].parent() == Some(top) by {
        assert(0 <= at[k] < tasks.len());
    }
    assert(forall|j: int| 0 <= j < s.queue.len() ==> r.queue[j] == s.queue[j]);
    assert forall|j: int| 1 <= j < r.queue.len() implies rank(id) < rank(
        #[trigger] r.queue[j],
    ) by {
        if j >= s.queue.len() {
            let k = j - s.queue.len();
            assert(r.queue[j] == new[k]);
            let t = at[k];
            assert(tasks[t].parent() == Some(top));
            assert(rank(top) < rank(tasks[t].event.id));
            if s.index > 0 {
                assert(rank(id) < rank(s.queue[s.index]));
            }
        }
    }
    assert forall|i: int, j: int| 0 <= i < j < r.queue.len() implies r.queue[i] != r.queue[j] by {
        if j >= s.queue.len() {
            let k = j - s.queue.len();
            assert(r.queue[j] == new[k]);
            let t = at[k];
            if i >= s.queue.len() {
                let l = i - s.queue.len();
                assert(r.queue[i] == new[l]);
                assert(at[l] < at[k]);
                assert(tasks[at[l]].event.id != tasks[at[k]].event.id);
            } else if i == 0 {
                assert(rank(id) < rank(r.queue[j]));
            } else {
                assert(is_found(tasks, s, i));
                let (u, p) = choose|u: int, p: int|
                    0 <= u < tasks.len() && 0 <= p < s.index && (#[trigger] tasks[u]).event.id
                        == s.queue[i] && tasks[u].parent() == Some(#[trigger] s.queue[p]);
                if r.queue[i] == r.queue[j] {
                    assert(tasks[u].event.id == tasks[t].event.id);
                    assert(u == t);
                    assert(s.queue[p] == s.queue[s.index]);
                }
            }
        }
    }
    assert forall|j: int| 1 <= j < r.queue.len() implies #[trigger] is_found(tasks, r, j) by {
        if j < s.queue.len() {
            assert(is_found(tasks, s, j));
            let (t, p) = choose|t: int, p: int|
                0 <= t < tasks.len() && 0 <= p < s.index && (#[trigger] tasks[t]).event.id
                    == s.queue[j] && tasks[t].parent() == Some(#[trigger] s.queue[p]);
            assert(r.queue[p] == s.queue[p]);
            assert(tasks[t].event.id == r.queue[j]);
        } else {
            let k = j - s.queue.len();
            assert(r.queue[j] == new[k]);
            assert(tasks[at[k]].event.id == r.queue[j]);
            assert(r.queue[s.index] == top);
        }
    }
    assert forall|t: int, p: int|
        0 <= t < tasks.len() && 0 <= p < r.index && (#[trigger] tasks[t]).parent() == Some(
            #[trigger] r.queue[p],
        ) implies r.queue.contains(tasks[t].event.id) by {
        if p < s.index {
            assert(tasks[t].parent() == Some(s.queue[p]));
            let j = choose|j: int| 0 <= j < s.queue.len() && s.queue[j] == tasks[t].event.id;
            assert(r.queue[j] == tasks[t].event.id);
        } else {
            assert(at.contains(t));
            let k = choose|k: int| 0 <= k < at.len() && at[k] == t;
            assert(new[k] == tasks[t].event.id);
            assert(r.queue[s.queue.len() + k] == tasks[t].event.id);
        }
    }
}

proof fn lemma_sound_len(
    tasks: TasksView,
    id: EventId,
    rank: spec_fn(EventId) -> nat,
    s: TraversalView,
)
    requires
        sound(tasks, id, rank, s),
    ensures
        s.queue.len() <= tasks.len() + 1,
{
    let rest = s.queue.skip(1);
    let ids = Seq::new(tasks.len(), |i: int| tasks[i].event.id);
    assert(rest.no_duplicates()) by {
        assert forall|i: int, j: int| 0 <= i < j < rest.len() implies rest[i] != rest[j] by {
            assert(s.queue[i + 1] != s.queue[j + 1]);
        }
    }
    assert forall|x: EventId| rest.to_set().contains(x) implies ids.to_set().contains(x) by {
        let j = choose|j: int| 0 <= j < rest.len() && rest[j] == x;
        assert(is_found(tasks, s, j + 1));
        let (t, p) = choose|t: int, p: int|
            0 <= t < tasks.len() && 0 <= p < s.index && (#[trigger] tasks[t]).event.id == s.queue[j
                + 1] && tasks[t].parent() == Some(#[trigger] s.queue[p]);
        assert(ids[t] == x);
    }
    rest.unique_seq_to_set();
    ids.lemma_cardinality_of_set();
    vstd::seq_lib::seq_to_set_is_finite(ids);
    vstd::set_lib::lemma_len_subset(rest.to_set(), ids.to_set());
}

proof fn lemma_sound_run(
    tasks: TasksView,
    id: EventId,
    rank: spec_fn(EventId) -> nat,
    s: TraversalView,
    fuel: nat,
)
    requires
        ids_unique(tasks),
        ranked(tasks, rank),
        sound(tasks, id, rank, s),
        s.index + fuel == tasks.len() + 1,
    ensures
        sound(tasks, id, rank, s.run_all(tasks, fuel)),
        s.run_all(tasks, fuel).finished(),
    decreases fuel,
{
    lemma_sound_len(tasks, id, rank, s);
    if fuel > 0 && !s.finished() {
        lemma_sound_step(tasks, id, rank, s);
        lemma_sound_run(tasks, id, rank, s.step(tasks), (fuel - 1) as nat);
    }
}

proof fn lemma_run_keeps_the_start(tasks: TasksView, s: TraversalView, fuel: nat)
    requires
        s.queue.len() > 0,
    ensures
        s.run_all(tasks, fuel).queue.len() > 0,
        s.run_all(tasks, fuel).queue[0] == s.queue[0],
    decreases fuel,
{
    if fuel > 0 && !s.finished() {
        lemma_run_keeps_the_start(tasks, s.step(tasks), (fuel - 1) as nat);
    }
}

/// The subtree of a task starts with the task itself.
pub proof fn subtree_starts_with_the_task(tasks: TasksView, id: EventId)
    ensures
        subtree(tasks, id).contains(id),
        subtree(tasks, id)[0] == id,
{
    lemma_run_keeps_the_start(tasks, TraversalView::from(id), tasks.len() + 1);
    assert(subtree(tasks, id)[0] == id);
}

/// The subtree of a task is the task itself and all tasks whose parent is in it, each once.
pub proof fn subtree_is_complete(tasks: TasksView, id: EventId, rank: spec_fn(EventId) -> nat)
    requires
        ids_unique(tasks),
        ranked(tasks, rank),
    ensures
        subtree(tasks, id).contains(id),
        subtree(tasks, id).no_duplicates(),
        forall|t: int|
            0 <= t < tasks.len() && ((#[trigger] tasks[t]).parent() matches Some(p) && subtree(
                tasks,
                id,
            ).contains(p)) ==> subtree(tasks, id).contains(tasks[t].event.id),
        forall|x: EventId| #[trigger]
            subtree(tasks, id).contains(x) && x != id ==> exists|t: int|
                0 <= t < tasks.len() && (#[trigger] tasks[t]).event.id == x && (tasks[t].parent()
                    matches Some(p) && subtree(tasks, id).contains(p)),
{
    let s = TraversalView::from(id);
    lemma_sound_run(tasks, id, rank, s, tasks.len() + 1);
    let r = s.run_all(tasks, tasks.len() + 1);
    assert(r.queue[0] == id);
    assert forall|t: int|
        0 <= t < tasks.len() && ((#[trigger] tasks[t]).parent() matches Some(p) && subtree(
            tasks,
            id,
        ).contains(p)) implies subtree(tasks, id).contains(tasks[t].event.id) by {
        let p = tasks[t].parent()->0;
        let j = choose|j: int| 0 <= j < r.queue.len() && r.queue[j] == p;
        assert(tasks[t].parent() == Some(r.queue[j]));
    }
    assert forall|x: EventId| #[trigger] subtree(tasks, id).contains(x) && x != id implies exists|
        t: int,
    |
        0 <= t < tasks.len() && (#[trigger] tasks[t]).event.id == x && (tasks[t].parent() matches Some(
            p,
        ) && subtree(tasks, id).contains(p)) by {
        let j = choose|j: int| 0 <= j < r.queue.len() && r.queue[j] == x;
        assert(is_found(tasks, r, j));
        let (t, p) = choose|t: int, p: int|
            0 <= t < tasks.len() && 0 <= p < r.index && (#[trigger] tasks[t]).event.id
                == r.queue[j] && tasks[t].parent() == Some(#[trigger] r.queue[p]);
        assert(r.queue.contains(r.queue[p]));
        assert(tasks[t].event.id == x);
    }
}

} // verus!
