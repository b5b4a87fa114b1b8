//! Picking tasks: those in view, quick access and matching by name.

use crate::lists::{group_views, sort, sorted, views, Ordered};
use crate::nostr::{event_id_of, has_id, EventId};
use crate::task::{Task, TaskView};
use crate::tasks::filter::{sorted_places, table, within, KeysView};
use crate::tasks::task_map::{
    ancestors, find_task, has_task, ids_at, places, task_at, task_of, traverse_up_from, TasksView,
};
use crate::tasks::{now_at, now_of, RelayView, TasksRelay, QUICK_PRIO};
use crate::text::{begins_with, lower, same_text, starts_with, to_lower};
use crate::time::clock;
use vstd::prelude::*;

verus! {

// ---------------------------------------------------------------------------
// Sort keys

impl RelayView {
    /// Whether a table holds the sort keys of all tasks: the properties sorted by, as they are
    /// shown when the clock shows the given time.
    pub open spec fn are_keys(self, clock: u64, keys: KeysView) -> bool {
        &&& keys.len() == self.tasks.len()
        &&& forall|i: int|
            0 <= i < keys.len() ==> (#[trigger] keys[i]).len() == self.sorting.len() && forall|
                j: int,
            |
                0 <= j < self.sorting.len() ==> self.shows(
                    self.tasks[i],
                    self.sorting[j],
                    clock,
                    #[trigger] keys[i][j],
                )
    }
}

impl TasksRelay {
    fn sorting_key(&self, task: &Task, clock: u64) -> (r: Vec<String>)
        ensures
            r@.len() == self@.sorting.len(),
            forall|j: int|
                0 <= j < r@.len() ==> self@.shows(
                    task@,
                    self@.sorting[j],
                    clock,
                    #[trigger] views(r@)[j],
                ),
    {
        let mut r: Vec<String> = Vec::new();
        let mut i: usize = 0;
        while i < self.sorting.len()
            invariant
                0 <= i <= self.sorting.len(),
                r@.len() == i,
                forall|j: int|
                    0 <= j < i ==> self@.shows(
                        task@,
                        self@.sorting[j],
                        clock,
                        #[trigger] views(r@)[j],
                    ),
            decreases self.sorting.len() - i,
        {
            let ghost before = r@;
            let text: String = self.get_property_at(task, self.sorting[i].as_str(), clock);
            assert(self@.sorting[i as int] == self.sorting@[i as int]@);
            r.push(text);
            assert forall|j: int| 0 <= j < i + 1 implies self@.shows(
                task@,
                self@.sorting[j],
                clock,
                #[trigger] views(r@)[j],
            ) by {
                if j < i {
                    assert(views(before)[j] == views(r@)[j]);
                }
            }
            i += 1;
        }
        r
    }

    /// The sort keys of all tasks.
    pub fn sorting_keys(&self, clock: u64) -> (r: Vec<Vec<String>>)
        ensures
            r.len() == self.tasks.len(),
            self@.are_keys(clock, table(r@)),
    {
        let mut r: Vec<Vec<String>> = Vec::new();
        let mut i: usize = 0;
        while i < self.tasks.len()
            invariant
                0 <= i <= self.tasks.len(),
                r@.len() == i,
                forall|k: int|
                    0 <= k < i ==> (#[trigger] table(r@)[k]).len() == self@.sorting.len()
                        && forall|j: int|
                        0 <= j < self@.sorting.len() ==> self@.shows(
                            self@.tasks[k],
                            self@.sorting[j],
                            clock,
                            #[trigger] table(r@)[k][j],
                        ),
            decreases self.tasks.len() - i,
        {
            let ghost before = r@;
            let key: Vec<String> = self.sorting_key(&self.tasks[i], clock);
            assert(self@.tasks[i as int] == self.tasks@[i as int]@);
            r.push(key);
            assert(table(r@)[i as int] == views(key@));
            assert forall|k: int| 0 <= k < i + 1 implies (#[trigger] table(r@)[k]).len()
                == self@.sorting.len() && forall|j: int|
                0 <= j < self@.sorting.len() ==> self@.shows(
                    self@.tasks[k],
                    self@.sorting[j],
                    clock,
                    #[trigger] table(r@)[k][j],
                ) by {
                if k < i {
                    assert(table(before)[k] == table(r@)[k]);
                }
            }
            i += 1;
        }
        r
    }
}

// ---------------------------------------------------------------------------
// Quick access

/// The place of a task, with what the latest tasks are found by.
#[derive(Clone, Copy, Debug)]
pub struct Rank {
    pub created_at: u64,
    pub id: EventId,
    pub at: usize,
}

impl View for Rank {
    type V = (u64, EventId, int);

    open spec fn view(&self) -> (u64, EventId, int) {
        (self.created_at, self.id, self.at as int)
    }
}

/// Newest first, then by id.
impl Ordered for Rank {
    open spec fn leq(a: (u64, EventId, int), b: (u64, EventId, int)) -> bool {
        a.0 > b.0 || (a.0 == b.0 && a.1.leq(b.1))
    }

    proof fn leq_total(a: (u64, EventId, int), b: (u64, EventId, int)) {
    }

    proof fn leq_transitive(
        a: (u64, EventId, int),
        b: (u64, EventId, int),
        c: (u64, EventId, int),
    ) {
    }

    fn at_most(&self, other: &Self) -> (r: bool) {
        self.created_at > other.created_at || (self.created_at == other.created_at
            && self.id.at_most(&other.id))
    }
}

/// A task with a priority.
#[derive(Clone, Copy, Debug)]
pub struct PrioRank {
    pub prio: u16,
    pub rank: Rank,
}

impl View for PrioRank {
    type V = (u16, (u64, EventId, int));

    open spec fn view(&self) -> (u16, (u64, EventId, int)) {
        (self.prio, self.rank@)
    }
}

/// Highest priority first, then oldest first.
impl Ordered for PrioRank {
    open spec fn leq(a: (u16, (u64, EventId, int)), b: (u16, (u64, EventId, int))) -> bool {
        a.0 > b.0 || (a.0 == b.0 && Rank::leq(b.1, a.1))
    }

    proof fn leq_total(a: (u16, (u64, EventId, int)), b: (u16, (u64, EventId, int))) {
    }

    proof fn leq_transitive(
        a: (u16, (u64, EventId, int)),
        b: (u16, (u64, EventId, int)),
        c: (u16, (u64, EventId, int)),
    ) {
    }

    fn at_most(&self, other: &Self) -> (r: bool) {
        self.prio > other.prio || (self.prio == other.prio && other.rank.at_most(&self.rank))
    }
}

pub open spec fn rank_of(tasks: TasksView, at: int) -> (u64, EventId, int) {
    (tasks[at].event.created_at, tasks[at].event.id, at)
}

pub open spec fn ranks(tasks: TasksView) -> Seq<(u64, EventId, int)> {
    Seq::new(tasks.len(), |i: int| rank_of(tasks, i))
}

/// The tasks of considerable priority among the first `n`.
pub open spec fn prio_ranks(tasks: TasksView, n: nat) -> Seq<(u16, (u64, EventId, int))>
    decreases n,
{
    if n == 0 {
        Seq::empty()
    } else {
        let before = prio_ranks(tasks, (n - 1) as nat);
        match tasks[n - 1].priority() {
            Some(p) => if p >= QUICK_PRIO {
                before.push((p, rank_of(tasks, n - 1)))
            } else {
                before
            },
            None => before,
        }
    }
}

pub open spec fn first_three(len: int) -> int {
    if len < 3 {
        len
    } else {
        3
    }
}

/// The ids of the three latest tasks.
pub open spec fn latest_ids(tasks: TasksView) -> Seq<EventId> {
    let s = sorted::<Rank>(ranks(tasks));
    Seq::new(first_three(s.len() as int) as nat, |i: int| s[i].1)
}

/// The ids of the three tasks of the highest priority.
pub open spec fn top_ids(tasks: TasksView) -> Seq<EventId> {
    let s = sorted::<PrioRank>(prio_ranks(tasks, tasks.len()));
    Seq::new(first_three(s.len() as int) as nat, |i: int| s[i].1.1)
}

/// The ids of all tasks at the given places and above them.
pub open spec fn tree_ids(tasks: TasksView, at: Seq<int>) -> Seq<EventId>
    decreases at.len(),
{
    if at.len() == 0 {
        Seq::empty()
    } else {
        tree_ids(tasks, at.drop_last()) + ids_at(
            tasks,
            ancestors(tasks, Some(tasks[at.last()].event.id)),
        )
    }
}

/// The places without immediate repetitions.
pub open spec fn deduped(at: Seq<int>) -> Seq<int>
    decreases at.len(),
{
    if at.len() == 0 {
        Seq::empty()
    } else {
        let before = deduped(at.drop_last());
        if before.len() > 0 && before.last() == at.last() {
            before
        } else {
            before.push(at.last())
        }
    }
}

impl RelayView {
    /// Bookmarked tasks, the latest tasks and those of the highest priority.
    pub open spec fn quick_access(self) -> Seq<EventId> {
        self.bookmarks + latest_ids(self.tasks) + top_ids(self.tasks)
    }

    /// Those of the tasks that pass the filters and are not listed.
    pub open spec fn offered(self, now: u64, ids: Seq<EventId>, listed: Seq<EventId>) -> Seq<int>
        decreases ids.len(),
    {
        if ids.len() == 0 {
            Seq::empty()
        } else {
            let before = self.offered(now, ids.drop_last(), listed);
            let id = ids.last();
            if !listed.contains(id) && has_task(self.tasks, id) && self.filter(
                self.tasks[task_at(self.tasks, id)],
                now,
            ) {
                before.push(task_at(self.tasks, id))
            } else {
                before
            }
        }
    }

    pub open spec fn shown_ids(self, clock: u64, visible: Seq<int>) -> Seq<EventId> {
        let ids = tree_ids(self.tasks, visible);
        match self.position(clock) {
            Some(id) => ids.push(id),
            None => ids,
        }
    }

    /// The tasks of quick access that are neither shown nor above what is shown.
    pub open spec fn quick_places(
        self,
        clock: u64,
        keys: KeysView,
        visible: Seq<int>,
    ) -> Seq<int> {
        deduped(
            sorted_places(
                self.offered(now_of(clock), self.quick_access(), self.shown_ids(clock, visible)),
                keys,
            ),
        )
    }

    /// The tasks in view, after those of quick access unless the view is a search result.
    pub open spec fn visible(self, clock: u64, keys: KeysView) -> Seq<int> {
        let tasks = self.viewed(clock, keys);
        if self.view.len() == 0 && tasks.len() > 0 {
            self.quick_places(clock, keys, tasks) + tasks
        } else {
            tasks
        }
    }
}

// ---------------------------------------------------------------------------
// Matching

/// Whether a pattern is found in a text; none if it is no pattern.
pub uninterp spec fn pattern_found(pattern: Seq<char>, text: Seq<char>) -> Option<bool>;

/// `regex::bytes::Regex::new` and `is_match`: whether the pattern can be read, and is found in the
/// text, depend on the two alone.
#[verifier::external_body]
fn find_pattern(pattern: &str, text: &str) -> (r: Option<bool>)
    ensures
        r == pattern_found(pattern@, text@),
{
    let regex = regex::bytes::Regex::new(pattern).ok()?;
    Some(regex.is_match(text.as_bytes()))
}

/// Whether the title is the given name, in any case.
pub open spec fn is_named(task: TaskView, arg: Seq<char>) -> bool {
    lower(task.filter_title()) == lower(arg)
}

pub open spec fn name_begins_with(task: TaskView, arg: Seq<char>) -> bool {
    begins_with(task.filter_title(), arg)
}

/// Whether a word of the title begins with the given text, in any case.
pub open spec fn word_begins_with(task: TaskView, arg: Seq<char>) -> bool {
    match pattern_found("\\b"@ + lower(arg), lower(task.filter_title())) {
        Some(found) => found,
        None => begins_with(lower(task.filter_title()), lower(arg)),
    }
}

/// The first of the tasks at the given places that has the name.
pub open spec fn first_named(tasks: TasksView, at: Seq<int>, arg: Seq<char>) -> Option<int>
    decreases at.len(),
{
    if at.len() == 0 {
        None
    } else if is_named(tasks[at[0]], arg) {
        Some(at[0])
    } else {
        first_named(tasks, at.drop_first(), arg)
    }
}

/// The ids of the tasks at the given places whose name begins with the text.
pub open spec fn begun(tasks: TasksView, at: Seq<int>, arg: Seq<char>) -> Seq<EventId>
    decreases at.len(),
{
    if at.len() == 0 {
        Seq::empty()
    } else {
        let before = begun(tasks, at.drop_last(), arg);
        let t = tasks[at.last()];
        if name_begins_with(t, arg) {
            before.push(t.event.id)
        } else {
            before
        }
    }
}

/// The ids of the other tasks at the given places in whose name a word begins with the text.
pub open spec fn fuzzy(tasks: TasksView, at: Seq<int>, arg: Seq<char>) -> Seq<EventId>
    decreases at.len(),
{
    if at.len() == 0 {
        Seq::empty()
    } else {
        let before = fuzzy(tasks, at.drop_last(), arg);
        let t = tasks[at.last()];
        if !name_begins_with(t, arg) && word_begins_with(t, arg) {
            before.push(t.event.id)
        } else {
            before
        }
    }
}

/// Whether all tasks at the given places are open.
pub open spec fn all_open(tasks: TasksView, at: Seq<int>, now: u64) -> bool {
    forall|i: int| 0 <= i < at.len() ==> tasks[#[trigger] at[i]].pure_state(now).open()
}

/// Whether a task has the name and is open with all its parents.
pub open spec fn is_open_named(tasks: TasksView, at: int, arg: Seq<char>, now: u64) -> bool {
    is_named(tasks[at], arg) && all_open(
        tasks,
        ancestors(tasks, Some(tasks[at].event.id)),
        now,
    )
}

/// The first task from the given place on that has the name and is open with all its parents.
pub open spec fn first_open_named(
    tasks: TasksView,
    from: int,
    arg: Seq<char>,
    now: u64,
) -> Option<int>
    decreases tasks.len() - from,
{
    if from < 0 || from >= tasks.len() {
        None
    } else if is_open_named(tasks, from, arg, now) {
        Some(from)
    } else {
        first_open_named(tasks, from + 1, arg, now)
    }
}

/// Those of the ids whose task has the given parent.
pub open spec fn direct(tasks: TasksView, ids: Seq<EventId>, parent: Option<EventId>) -> Seq<EventId>
    decreases ids.len(),
{
    if ids.len() == 0 {
        Seq::empty()
    } else {
        let before = direct(tasks, ids.drop_last(), parent);
        if task_of(tasks, ids.last()) matches Some(t) && t.parent() == parent {
            before.push(ids.last())
        } else {
            before
        }
    }
}

/// Those of the ids that are meant: where there is a single child of the position, it is.
pub open spec fn narrowed(tasks: TasksView, ids: Seq<EventId>, position: Option<EventId>) -> Seq<
    EventId,
> {
    let immediate = direct(tasks, ids, position);
    if immediate.len() == 1 {
        immediate
    } else {
        ids
    }
}

impl RelayView {
    /// The ids of the tasks that a text stands for, with `at` the places to look at first:
    /// - the id itself
    /// - the first of these that has exactly that name
    /// - the first of all tasks that has, unless it or a parent is not open
    /// - those of these whose name begins with the text
    /// - those of these in whose name a word begins with the text
    pub open spec fn matching_at(
        self,
        now: u64,
        at: Seq<int>,
        position: Option<EventId>,
        arg: Seq<char>,
    ) -> Seq<EventId> {
        match event_id_of(arg) {
            Some(id) => seq![id],
            None => match first_named(self.tasks, at, arg) {
                Some(i) => seq![self.tasks[i].event.id],
                None => match first_open_named(self.tasks, 0, arg, now) {
                    Some(i) => seq![self.tasks[i].event.id],
                    None => {
                        let filtered = begun(self.tasks, at, arg);
                        narrowed(
                            self.tasks,
                            if filtered.len() == 0 {
                                fuzzy(self.tasks, at, arg)
                            } else {
                                filtered
                            },
                            position,
                        )
                    },
                },
            },
        }
    }

    pub open spec fn matching(
        self,
        now: u64,
        keys: KeysView,
        position: Option<EventId>,
        arg: Seq<char>,
    ) -> Seq<EventId> {
        self.matching_at(now, self.filtered(now, keys, position, false), position, arg)
    }
}

// ---------------------------------------------------------------------------
// Picking tasks

pub open spec fn tasks_at(tasks: TasksView, at: Seq<int>) -> Seq<TaskView> {
    Seq::new(at.len(), |i: int| tasks[at[i]])
}

fn push_ids(ids: &mut Vec<EventId>, tasks: &Vec<Task>, at: &Vec<usize>)
    requires
        within(at@, tasks.len() as int),
    ensures
        final(ids)@ == old(ids)@ + ids_at(views(tasks@), places(at@)),
{
    let ghost start = ids@;
    let ghost all = ids_at(views(tasks@), places(at@));
    let mut i: usize = 0;
    assert(start + all.take(0) =~= start);
    while i < at.len()
        invariant
            0 <= i <= at.len(),
            within(at@, tasks.len() as int),
            start == old(ids)@,
            all == ids_at(views(tasks@), places(at@)),
            ids@ == start + all.take(i as int),
        decreases at.len() - i,
    {
        ids.push(tasks[at[i]].get_id());
        assert((start + all.take(i as int)).push(all[i as int]) =~= start + all.take(i + 1));
        i += 1;
    }
    assert(all.take(at@.len() as int) =~= all);
}

fn dedup_places(at: &Vec<usize>) -> (r: Vec<usize>)
    ensures
        places(r@) == deduped(places(at@)),
        forall|len: int| within(at@, len) ==> within(r@, len),
{
    let ghost all = places(at@);
    let mut r: Vec<usize> = Vec::new();
    let mut i: usize = 0;
    assert(all.take(0) =~= Seq::<int>::empty());
    assert(places(r@) =~= Seq::<int>::empty());
    while i < at.len()
        invariant
            0 <= i <= at.len(),
            all == places(at@),
            places(r@) == deduped(all.take(i as int)),
            forall|len: int| within(at@, len) ==> within(r@, len),
        decreases at.len() - i,
    {
        assert(all.take(i + 1).drop_last() =~= all.take(i as int));
        assert(all.take(i + 1).last() == at@[i as int]);
        assert(places(r@).len() == r@.len());
        if r.len() == 0 || r[r.len() - 1] != at[i] {
            let ghost before = r@;
            r.push(at[i]);
            assert(places(r@) =~= places(before).push(at@[i as int] as int));
        }
        i += 1;
    }
    assert(all.take(at@.len() as int) =~= all);
    r
}

impl TasksRelay {
    fn pick(&self, at: &Vec<usize>) -> (r: Vec<&Task>)
        requires
            within(at@, self.tasks.len() as int),
        ensures
            views(r@) == tasks_at(self@.tasks, places(at@)),
    {
        broadcast use group_views;

        let ghost all = tasks_at(self@.tasks, places(at@));
        let mut r: Vec<&Task> = Vec::new();
        let mut i: usize = 0;
        assert(all.take(0) =~= Seq::<TaskView>::empty());
        while i < at.len()
            invariant
                0 <= i <= at.len(),
                within(at@, self.tasks.len() as int),
                all == tasks_at(self@.tasks, places(at@)),
                views(r@) == all.take(i as int),
            decreases at.len() - i,
        {
            r.push(&self.tasks[at[i]]);
            assert(all.take(i as int).push(all[i as int]) =~= all.take(i + 1));
            i += 1;
        }
        assert(all.take(at@.len() as int) =~= all);
        r
    }

    fn latest(&self) -> (r: Vec<EventId>)
        ensures
            r@ == latest_ids(self@.tasks),
    {
        broadcast use group_views;

        let ghost all = ranks(self@.tasks);
        let mut v: Vec<Rank> = Vec::new();
        let mut i: usize = 0;
        assert(all.take(0) =~= Seq::<(u64, EventId, int)>::empty());
        while i < self.tasks.len()
            invariant
                0 <= i <= self.tasks.len(),
                all == ranks(self@.tasks),
                views(v@) == all.take(i as int),
            decreases self.tasks.len() - i,
        {
            let event: &crate::nostr::Event = self.tasks[i].event();
            assert(self@.tasks[i as int] == self.tasks@[i as int]@);
            v.push(Rank { created_at: event.created_at, id: event.id, at: i });
            assert(all.take(i as int).push(all[i as int]) =~= all.take(i + 1));
            i += 1;
        }
        assert(all.take(self.tasks@.len() as int) =~= all);
        let v: Vec<Rank> = sort(v);
        let mut r: Vec<EventId> = Vec::new();
        let mut i: usize = 0;
        while i < v.len() && i < 3
            invariant
                0 <= i <= v.len(),
                i <= 3,
                r@.len() == i,
                forall|k: int| 0 <= k < i ==> r@[k] == (#[trigger] views(v@)[k]).1,
            decreases v.len() - i,
        {
            assert(views(v@)[i as int] == v@[i as int]@);
            r.push(v[i].id);
            i += 1;
        }
        assert(r@ =~= latest_ids(self@.tasks));
        r
    }

    fn highest(&self) -> (r: Vec<EventId>)
        ensures
            r@ == top_ids(self@.tasks),
    {
        broadcast use group_views;

        let mut v: Vec<PrioRank> = Vec::new();
        let mut i: usize = 0;
        while i < self.tasks.len()
            invariant
                0 <= i <= self.tasks.len(),
                views(v@) == prio_ranks(self@.tasks, i as nat),
            decreases self.tasks.len() - i,
        {
            let event: &crate::nostr::Event = self.tasks[i].event();
            assert(self@.tasks[i as int] == self.tasks@[i as int]@);
            match self.tasks[i].priority() {
                Some(prio) => {
                    if prio >= QUICK_PRIO {
                        let rank: Rank = Rank {
                            created_at: event.created_at,
                            id: event.id,
                            at: i,
                        };
                        v.push(PrioRank { prio, rank });
                    }
                },
                None => {},
            }
            i += 1;
        }
        let v: Vec<PrioRank> = sort(v);
        let mut r: Vec<EventId> = Vec::new();
        let mut i: usize = 0;
        while i < v.len() && i < 3
            invariant
                0 <= i <= v.len(),
                i <= 3,
                r@.len() == i,
                forall|k: int| 0 <= k < i ==> r@[k] == (#[trigger] views(v@)[k]).1.1,
            decreases v.len() - i,
        {
            assert(views(v@)[i as int] == v@[i as int]@);
            r.push(v[i].rank.id);
            i += 1;
        }
        assert(r@ =~= top_ids(self@.tasks));
        r
    }

    /// Bookmarked tasks, the latest tasks and those of the highest priority.
    pub fn quick_access_raw(&self) -> (r: Vec<EventId>)
        ensures
            r@ == self@.quick_access(),
    {
        let mut r: Vec<EventId> = Vec::new();
        let mut i: usize = 0;
        while i < self.bookmarks.len()
            invariant
                0 <= i <= self.bookmarks.len(),
                r@ == self.bookmarks@.take(i as int),
            decreases self.bookmarks.len() - i,
        {
            r.push(self.bookmarks[i]);
            assert(self.bookmarks@.take(i as int).push(self.bookmarks@[i as int])
                =~= self.bookmarks@.take(i + 1));
            i += 1;
        }
        assert(self.bookmarks@.take(self.bookmarks@.len() as int) =~= self.bookmarks@);
        let mut latest: Vec<EventId> = self.latest();
        r.append(&mut latest);
        let mut highest: Vec<EventId> = self.highest();
        r.append(&mut highest);
        r
    }

    fn all_shown_ids(&self, clock: u64, visible: &Vec<usize>) -> (r: Vec<EventId>)
        requires
            within(visible@, self.tasks.len() as int),
        ensures
            r@ == self@.shown_ids(clock, places(visible@)),
    {
        let ghost all = places(visible@);
        let mut r: Vec<EventId> = Vec::new();
        let mut i: usize = 0;
        assert(all.take(0) =~= Seq::<int>::empty());
        while i < visible.len()
            invariant
                0 <= i <= visible.len(),
                within(visible@, self.tasks.len() as int),
                all == places(visible@),
                r@ == tree_ids(self@.tasks, all.take(i as int)),
            decreases visible.len() - i,
        {
            assert(all.take(i + 1).drop_last() =~= all.take(i as int));
            assert(all.take(i + 1).last() == visible@[i as int]);
            assert(self@.tasks[visible@[i as int] as int] == self.tasks@[visible@[i as int] as int]@);
            let walk: Vec<usize> = traverse_up_from(
                &self.tasks,
                Some(self.tasks[visible[i]].get_id()),
            );
            push_ids(&mut r, &self.tasks, &walk);
            i += 1;
        }
        assert(all.take(visible@.len() as int) =~= all);
        match self.position(clock) {
            Some(id) => {
                r.push(id);
            },
            None => {},
        }
        r
    }

    fn find_offered(&self, now: u64, ids: &Vec<EventId>, listed: &Vec<EventId>) -> (r: Vec<usize>)
        ensures
            places(r@) == self@.offered(now, ids@, listed@),
            within(r@, self.tasks.len() as int),
    {
        let mut r: Vec<usize> = Vec::new();
        let mut i: usize = 0;
        assert(ids@.take(0) =~= Seq::<EventId>::empty());
        assert(places(r@) =~= Seq::<int>::empty());
        while i < ids.len()
            invariant
                0 <= i <= ids.len(),
                within(r@, self.tasks.len() as int),
                places(r@) == self@.offered(now, ids@.take(i as int), listed@),
            decreases ids.len() - i,
        {
            assert(ids@.take(i + 1).drop_last() =~= ids@.take(i as int));
            let id: EventId = ids[i];
            let at: usize = find_task(&self.tasks, id);
            if !has_id(listed, id) && at < self.tasks.len() && self.filter(&self.tasks[at], now) {
                let ghost before = r@;
                r.push(at);
                assert(places(r@) =~= places(before).push(at as int));
            }
            i += 1;
        }
        assert(ids@.take(ids@.len() as int) =~= ids@);
        r
    }

    /// The tasks of quick access that are neither shown nor above what is shown, when sorted by
    /// the given keys.
    pub fn bookmarked_tasks_deduped(
        &self,
        clock: u64,
        keys: &Vec<Vec<String>>,
        visible: &Vec<usize>,
    ) -> (r: Vec<usize>)
        requires
            keys.len() == self.tasks.len(),
            within(visible@, self.tasks.len() as int),
        ensures
            places(r@) == self@.quick_places(clock, table(keys@), places(visible@)),
            within(r@, self.tasks.len() as int),
    {
        let listed: Vec<EventId> = self.all_shown_ids(clock, visible);
        let ids: Vec<EventId> = self.quick_access_raw();
        let found: Vec<usize> = self.find_offered(now_at(clock), &ids, &listed);
        let ordered: Vec<usize> = crate::tasks::filter::sort_places(&found, keys);
        dedup_places(&ordered)
    }

    /// The tasks that are visible, when sorted by the given keys.
    pub fn visible_places(&self, clock: u64, keys: &Vec<Vec<String>>) -> (r: Vec<usize>)
        requires
            keys.len() == self.tasks.len(),
        ensures
            places(r@) == self@.visible(clock, table(keys@)),
            within(r@, self.tasks.len() as int),
    {
        let tasks: Vec<usize> = self.viewed_places(clock, keys);
        assert(places(tasks@).len() == tasks@.len());
        if self.view.len() == 0 && tasks.len() > 0 {
            let mut r: Vec<usize> = self.bookmarked_tasks_deduped(clock, keys, &tasks);
            proof {
                crate::tasks::filter::lemma_within_add(r@, tasks@, self.tasks.len() as int);
            }
            crate::tasks::filter::append(&mut r, &tasks);
            return r;
        }
        tasks
    }

    pub fn visible_tasks(&self) -> (r: Vec<&Task>)
        ensures
            exists|clock: u64, keys: KeysView|
                self@.are_keys(clock, keys) && views(r@) == tasks_at(
                    self@.tasks,
                    #[trigger] self@.visible(clock, keys),
                ),
    {
        let now: u64 = clock();
        let keys: Vec<Vec<String>> = self.sorting_keys(now);
        let at: Vec<usize> = self.visible_places(now, &keys);
        assert(places(at@) == self@.visible(now, table(keys@)));
        self.pick(&at)
    }

    pub fn viewed_tasks(&self) -> (r: Vec<&Task>)
        ensures
            exists|clock: u64, keys: KeysView|
                self@.are_keys(clock, keys) && views(r@) == tasks_at(
                    self@.tasks,
                    #[trigger] self@.viewed(clock, keys),
                ),
    {
        let now: u64 = clock();
        let keys: Vec<Vec<String>> = self.sorting_keys(now);
        let at: Vec<usize> = self.viewed_places(now, &keys);
        assert(places(at@) == self@.viewed(now, table(keys@)));
        self.pick(&at)
    }

    /// The tasks below a position that pass the filters, and bookmarked ones behind them.
    pub fn filtered_tasks(&self, position: Option<EventId>, sparse: bool) -> (r: Vec<&Task>)
        ensures
            exists|clock: u64, keys: KeysView|
                self@.are_keys(clock, keys) && views(r@) == tasks_at(
                    self@.tasks,
                    #[trigger] self@.filtered(now_of(clock), keys, position, sparse),
                ),
    {
        let now: u64 = clock();
        let keys: Vec<Vec<String>> = self.sorting_keys(now);
        let at: Vec<usize> = self.filtered_places(now_at(now), &keys, position, sparse);
        assert(places(at@) == self@.filtered(now_of(now), table(keys@), position, sparse));
        self.pick(&at)
    }

    fn all_open(&self, at: &Vec<usize>, now: u64) -> (r: bool)
        requires
            within(at@, self.tasks.len() as int),
        ensures
            r == all_open(self@.tasks, places(at@), now),
    {
        let ghost all = places(at@);
        let mut i: usize = 0;
        while i < at.len()
            invariant
                0 <= i <= at.len(),
                within(at@, self.tasks.len() as int),
                all == places(at@),
                forall|k: int|
                    0 <= k < i ==> self@.tasks[#[trigger] all[k]].pure_state(now).open(),
            decreases at.len() - i,
        {
            assert(all[i as int] == at@[i as int]);
            if !self.tasks[at[i]].pure_state_at(now).is_open() {
                return false;
            }
            i += 1;
        }
        true
    }

    fn find_open_named(&self, arg: &str, now: u64) -> (r: Option<usize>)
        ensures
            match r {
                Some(i) => i < self.tasks.len() && first_open_named(self@.tasks, 0, arg@, now)
                    == Some(i as int),
                None => first_open_named(self@.tasks, 0, arg@, now) is None,
            },
    {
        let lowercase_arg: String = to_lower(arg);
        let mut i: usize = 0;
        while i < self.tasks.len()
            invariant
                0 <= i <= self.tasks.len(),
                lowercase_arg@ == lower(arg@),
                first_open_named(self@.tasks, 0, arg@, now) == first_open_named(
                    self@.tasks,
                    i as int,
                    arg@,
                    now,
                ),
            decreases self.tasks.len() - i,
        {
            assert(self@.tasks[i as int] == self.tasks@[i as int]@);
            let title: String = self.tasks[i].get_filter_title();
            let lowercase: String = to_lower(title.as_str());
            if same_text(lowercase.as_str(), lowercase_arg.as_str()) {
                // exclude closed tasks and their subtasks
                let walk: Vec<usize> = traverse_up_from(&self.tasks, Some(self.tasks[i].get_id()));
                if self.all_open(&walk, now) {
                    return Some(i);
                }
            }
            i += 1;
        }
        None
    }

    fn narrow(&self, ids: Vec<EventId>, position: Option<EventId>) -> (r: Vec<EventId>)
        ensures
            r@ == narrowed(self@.tasks, ids@, position),
    {
        let mut immediate: Vec<EventId> = Vec::new();
        let mut i: usize = 0;
        assert(ids@.take(0) =~= Seq::<EventId>::empty());
        while i < ids.len()
            invariant
                0 <= i <= ids.len(),
                immediate@ == direct(self@.tasks, ids@.take(i as int), position),
            decreases ids.len() - i,
        {
            assert(ids@.take(i + 1).drop_last() =~= ids@.take(i as int));
            match self.get_by_id(&ids[i]) {
                Some(t) => {
                    if t.parent_id() == position {
                        immediate.push(ids[i]);
                    }
                },
                None => {},
            }
            i += 1;
        }
        assert(ids@.take(ids@.len() as int) =~= ids@);
        if immediate.len() == 1 {
            immediate
        } else {
            ids
        }
    }

    /// The ids of the tasks that a text stands for, with the places to look at first.
    pub fn matching_at(
        &self,
        now: u64,
        at: &Vec<usize>,
        position: Option<EventId>,
        arg: &str,
    ) -> (r: Vec<EventId>)
        requires
            within(at@, self.tasks.len() as int),
        ensures
            r@ == self@.matching_at(now, places(at@), position, arg@),
    {
        let mut filtered: Vec<EventId> = Vec::new();
        match EventId::parse(arg) {
            Some(id) => {
                filtered.push(id);
                assert(filtered@ =~= seq![id]);
                return filtered;
            },
            None => {},
        }
        let lowercase_arg: String = to_lower(arg);
        let mut pattern: String = "\\b".to_string();
        pattern.append(lowercase_arg.as_str());
        let ghost all = places(at@);
        let mut filtered_fuzzy: Vec<EventId> = Vec::new();
        let mut i: usize = 0;
        assert(all.take(0) =~= Seq::<int>::empty());
        assert(all.skip(0) =~= all);
        while i < at.len()
            invariant
                0 <= i <= at.len(),
                within(at@, self.tasks.len() as int),
                all == places(at@),
                event_id_of(arg@) is None,
                lowercase_arg@ == lower(arg@),
                pattern@ == "\\b"@ + lower(arg@),
                first_named(self@.tasks, all, arg@) == first_named(
                    self@.tasks,
                    all.skip(i as int),
                    arg@,
                ),
                filtered@ == begun(self@.tasks, all.take(i as int), arg@),
                filtered_fuzzy@ == fuzzy(self@.tasks, all.take(i as int), arg@),
            decreases at.len() - i,
        {
            assert(all.take(i + 1).drop_last() =~= all.take(i as int));
            assert(all.take(i + 1).last() == at@[i as int]);
            assert(all.skip(i as int)[0] == at@[i as int]);
            assert(all.skip(i as int).drop_first() =~= all.skip(i + 1));
            let task: &Task = &self.tasks[at[i]];
            assert(self@.tasks[at@[i as int] as int] == task@);
            let content: String = task.get_filter_title();
            let lowercase: String = to_lower(content.as_str());
            if same_text(lowercase.as_str(), lowercase_arg.as_str()) {
                let mut exact: Vec<EventId> = Vec::new();
                exact.push(task.get_id());
                assert(exact@ =~= seq![task@.event.id]);
                return exact;
            } else if starts_with(content.as_str(), arg) {
                filtered.push(task.get_id());
            } else {
                let found: bool = match find_pattern(pattern.as_str(), lowercase.as_str()) {
                    Some(found) => found,
                    None => starts_with(lowercase.as_str(), lowercase_arg.as_str()),
                };
                if found {
                    filtered_fuzzy.push(task.get_id());
                }
            }
            i += 1;
        }
        assert(all.take(at@.len() as int) =~= all);
        assert(all.skip(at@.len() as int) =~= Seq::<int>::empty());
        // Find global exact match
        match self.find_open_named(arg, now) {
            Some(i) => {
                let mut exact: Vec<EventId> = Vec::new();
                exact.push(self.tasks[i].get_id());
                assert(exact@ =~= seq![self@.tasks[i as int].event.id]);
                return exact;
            },
            None => {},
        }
        if filtered.len() == 0 {
            filtered = filtered_fuzzy;
        }
        self.narrow(filtered, position)
    }

    /// Returns ids of tasks matching the given string, when sorted by the given keys.
    pub fn get_matching_at(
        &self,
        now: u64,
        keys: &Vec<Vec<String>>,
        position: Option<EventId>,
        arg: &str,
    ) -> (r: Vec<EventId>)
        requires
            keys.len() == self.tasks.len(),
        ensures
            r@ == self@.matching(now, table(keys@), position, arg@),
    {
        let at: Vec<usize> = self.filtered_places(now, keys, position, false);
        self.matching_at(now, &at, position, arg)
    }

    /// Returns ids of tasks matching the given string.
    ///
    /// Tries, in order:
    /// - single case-insensitive exact name match in visible tasks
    /// - single case-insensitive exact name match in all tasks
    /// - visible tasks starting with given arg case-sensitive
    /// - visible tasks where any word starts with given arg case-insensitive
    pub fn get_matching(&self, position: Option<EventId>, arg: &str) -> (r: Vec<EventId>)
        ensures
            exists|clock: u64, keys: KeysView|
                self@.are_keys(clock, keys) && r@ == #[trigger] self@.matching(
                    now_of(clock),
                    keys,
                    position,
                    arg@,
                ),
    {
        let now: u64 = clock();
        let keys: Vec<Vec<String>> = self.sorting_keys(now);
        let r: Vec<EventId> = self.get_matching_at(now_at(now), &keys, position, arg);
        assert(r@ == self@.matching(now_of(now), table(keys@), position, arg@));
        r
    }
}

} // verus!
