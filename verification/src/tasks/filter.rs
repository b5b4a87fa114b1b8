//! Which tasks are shown, and in which order.

use crate::hashtag::{same_hashtag, Hashtag};
use crate::lists::{group_views, sort, sorted, views, Ordered};
use crate::nostr::{clone_texts, EventId, PublicKey};
use crate::task::{Task, TaskView};
use crate::tasks::nostr_users::username;
use crate::tasks::task_map::{children, children_for, find_task, has_task, places, task_at};
use crate::tasks::{now_at, now_of, RelayView, TasksRelay, DEFAULT_PRIO};
use crate::text::{
    has_part, lemma_texts_leq_total, lemma_texts_leq_transitive, lower, texts_at_most, texts_leq,
};
use crate::time::clock;
use vstd::prelude::*;

verus! {

// ---------------------------------------------------------------------------
// Sorting by properties

/// The sort keys of tasks: for each of them the texts of the properties sorted by.
pub type KeysView = Seq<Seq<Seq<char>>>;

/// The place of a task, with its sort key.
#[derive(Debug)]
pub struct Keyed {
    pub key: Vec<String>,
    pub at: usize,
}

impl View for Keyed {
    type V = (Seq<Seq<char>>, int);

    open spec fn view(&self) -> (Seq<Seq<char>>, int) {
        (views(self.key@), self.at as int)
    }
}

impl Ordered for Keyed {
    open spec fn leq(a: (Seq<Seq<char>>, int), b: (Seq<Seq<char>>, int)) -> bool {
        texts_leq(a.0, b.0)
    }

    proof fn leq_total(a: (Seq<Seq<char>>, int), b: (Seq<Seq<char>>, int)) {
        lemma_texts_leq_total(a.0, b.0);
    }

    proof fn leq_transitive(
        a: (Seq<Seq<char>>, int),
        b: (Seq<Seq<char>>, int),
        c: (Seq<Seq<char>>, int),
    ) {
        lemma_texts_leq_transitive(a.0, b.0, c.0);
    }

    fn at_most(&self, other: &Self) -> (r: bool) {
        texts_at_most(&self.key, &other.key)
    }
}

pub open spec fn keyed(at: Seq<int>, keys: KeysView) -> Seq<(Seq<Seq<char>>, int)> {
    Seq::new(at.len(), |i: int| (keys[at[i]], at[i]))
}

pub open spec fn unkeyed(s: Seq<(Seq<Seq<char>>, int)>) -> Seq<int> {
    Seq::new(s.len(), |i: int| s[i].1)
}

/// The places in the order of the sort keys of their tasks; those with equal keys keep their order.
pub open spec fn sorted_places(at: Seq<int>, keys: KeysView) -> Seq<int> {
    unkeyed(sorted::<Keyed>(keyed(at, keys)))
}

/// The views of a table of texts.
pub open spec fn table(keys: Seq<Vec<String>>) -> KeysView {
    Seq::new(keys.len(), |i: int| views(keys[i]@))
}

proof fn lemma_sorted_members(s: Seq<(Seq<Seq<char>>, int)>, len: int)
    requires
        forall|i: int| 0 <= i < s.len() ==> 0 <= (#[trigger] s[i]).1 < len,
    ensures
        sorted::<Keyed>(s).len() == s.len(),
        forall|i: int| 0 <= i < s.len() ==> 0 <= (#[trigger] sorted::<Keyed>(s)[i]).1 < len,
{
    broadcast use vstd::seq_lib::group_to_multiset_ensures;

    crate::lists::sorting_orders_and_keeps::<Keyed>(s);
    let r = sorted::<Keyed>(s);
    assert(r.to_multiset().len() == s.to_multiset().len());
    assert forall|i: int| 0 <= i < r.len() implies 0 <= (#[trigger] r[i]).1 < len by {
        assert(r.contains(r[i]));
        assert(r.to_multiset().contains(r[i]));
        assert(s.to_multiset().contains(r[i]));
        assert(s.contains(r[i]));
        let k = choose|k: int| 0 <= k < s.len() && s[k] == r[i];
        assert(0 <= s[k].1 < len);
    }
}

pub(crate) fn sort_places(at: &Vec<usize>, keys: &Vec<Vec<String>>) -> (r: Vec<usize>)
    requires
        forall|k: int| 0 <= k < at@.len() ==> #[trigger] at@[k] < keys.len(),
    ensures
        places(r@) == sorted_places(places(at@), table(keys@)),
        r@.len() == at@.len(),
        forall|k: int| 0 <= k < r@.len() ==> #[trigger] r@[k] < keys.len(),
{
    broadcast use group_views;

    let ghost all = keyed(places(at@), table(keys@));
    let mut v: Vec<Keyed> = Vec::new();
    let mut i: usize = 0;
    assert(all.take(0) =~= Seq::<(Seq<Seq<char>>, int)>::empty());
    while i < at.len()
        invariant
            0 <= i <= at.len(),
            all == keyed(places(at@), table(keys@)),
            forall|k: int| 0 <= k < at@.len() ==> #[trigger] at@[k] < keys.len(),
            views(v@) == all.take(i as int),
        decreases at.len() - i,
    {
        let one: Keyed = Keyed { key: clone_texts(&keys[at[i]]), at: at[i] };
        assert(one@ == all[i as int]);
        v.push(one);
        assert(all.take(i as int).push(all[i as int]) =~= all.take(i + 1));
        i += 1;
    }
    assert(all.take(at@.len() as int) =~= all);
    let v: Vec<Keyed> = sort(v);
    let ghost done = sorted::<Keyed>(all);
    proof {
        assert forall|i: int| 0 <= i < all.len() implies 0 <= (#[trigger] all[i]).1
            < keys.len() by {
            assert(at@[i] < keys.len());
        }
        lemma_sorted_members(all, keys.len() as int);
    }
    let mut r: Vec<usize> = Vec::new();
    let mut i: usize = 0;
    assert(places(r@) =~= unkeyed(done).take(0));
    while i < v.len()
        invariant
            0 <= i <= v.len(),
            done == views(v@),
            forall|i: int| 0 <= i < done.len() ==> 0 <= (#[trigger] done[i]).1 < keys.len(),
            r@.len() == i,
            places(r@) == unkeyed(done).take(i as int),
            forall|k: int| 0 <= k < r@.len() ==> #[trigger] r@[k] < keys.len(),
        decreases v.len() - i,
    {
        let ghost before = r@;
        assert(done[i as int] == v@[i as int]@);
        r.push(v[i].at);
        assert(places(r@) =~= places(before).push(v@[i as int].at as int));
        assert(unkeyed(done).take(i as int).push(unkeyed(done)[i as int]) =~= unkeyed(done).take(
            i + 1,
        ));
        i += 1;
    }
    assert(unkeyed(done).take(v@.len() as int) =~= unkeyed(done));
    r
}

// ---------------------------------------------------------------------------
// Model

pub open spec fn any_hashtag_has(hashtags: Seq<Seq<char>>, part: Seq<char>) -> bool {
    exists|i: int| 0 <= i < hashtags.len() && has_part(#[trigger] hashtags[i], part)
}

pub open spec fn has_hashtag(hashtags: Seq<Seq<char>>, tag: Seq<char>) -> bool {
    exists|i: int| 0 <= i < hashtags.len() && same_hashtag(#[trigger] hashtags[i], tag)
}

impl RelayView {
    /// Whether a task concerns the holder of a key: it is theirs, or a hashtag of it names them.
    pub open spec fn concerns(self, task: TaskView, key: PublicKey) -> bool {
        key == task.owner() || any_hashtag_has(task.hashtags(), lower(username(self.users, key)))
    }

    /// Whether a task concerns one of the users that are filtered by; activities do anyway.
    pub open spec fn matches_keys(self, task: TaskView) -> bool {
        ||| !task.is_task()
        ||| self.keys.len() == 0
        ||| exists|i: int| 0 <= i < self.keys.len() && self.concerns(task, #[trigger] self.keys[i])
    }

    pub open spec fn matches_priority(self, task: TaskView) -> bool {
        self.priority matches Some(prio) ==> prio <= (match task.priority() {
            Some(p) => p,
            None => DEFAULT_PRIO,
        })
    }

    /// Whether a task has no excluded hashtag and all that are filtered by.
    pub open spec fn matches_tags(self, task: TaskView) -> bool {
        &&& forall|i: int|
            0 <= i < self.tags_excluded.len() ==> !has_hashtag(
                task.hashtags(),
                #[trigger] self.tags_excluded[i],
            )
        &&& forall|i: int|
            0 <= i < self.tags.len() ==> has_hashtag(task.hashtags(), #[trigger] self.tags[i])
    }

    /// Whether a task passes all filters.
    pub open spec fn filter(self, task: TaskView, now: u64) -> bool {
        &&& self.state.matches(task, now)
        &&& self.matches_keys(task)
        &&& self.matches_priority(task)
        &&& self.matches_tags(task)
    }

    /// How deep to look below a task that was reached with the given depth left.
    pub open spec fn depth_below(self, task: TaskView, now: u64, sparse: bool, depth: nat) -> nat {
        if depth > 0 && (!self.recurse_activities || task.is_task()) {
            if sparse && depth - 1 > self.view_depth && self.filter(task, now) {
                self.view_depth as nat
            } else {
                (depth - 1) as nat
            }
        } else {
            depth
        }
    }

    /// What is shown of the task at a place: the tasks below it that pass the filters, or else
    /// the task itself if it does. Unless `sparse` it follows what is below it.
    pub open spec fn resolved_one(
        self,
        now: u64,
        keys: KeysView,
        at: int,
        sparse: bool,
        depth: nat,
        fuel: nat,
    ) -> Seq<int>
        decreases fuel, 0nat, 0nat,
    {
        let task = self.tasks[at];
        if !self.state.matches(task, now) {
            Seq::empty()
        } else {
            let below = self.depth_below(task, now, sparse, depth);
            let found = if below > 0 && fuel > 0 {
                self.resolved(
                    now,
                    keys,
                    children(self.tasks, Some(task.event.id)),
                    sparse,
                    below,
                    (fuel - 1) as nat,
                )
            } else {
                Seq::empty()
            };
            if found.len() > 0 {
                if sparse {
                    found
                } else {
                    found.push(at)
                }
            } else if self.filter(task, now) {
                seq![at]
            } else {
                Seq::empty()
            }
        }
    }

    pub open spec fn resolved_all(
        self,
        now: u64,
        keys: KeysView,
        at: Seq<int>,
        sparse: bool,
        depth: nat,
        fuel: nat,
    ) -> Seq<int>
        decreases fuel, 1nat, at.len(),
    {
        if at.len() == 0 {
            Seq::empty()
        } else {
            self.resolved_all(now, keys, at.drop_last(), sparse, depth, fuel) + self.resolved_one(
                now,
                keys,
                at.last(),
                sparse,
                depth,
                fuel,
            )
        }
    }

    /// What is shown of the tasks at the given places, in the order of their sort keys. Below
    /// activities the depth may stay the same, but no path is longer than `fuel`.
    pub open spec fn resolved(
        self,
        now: u64,
        keys: KeysView,
        at: Seq<int>,
        sparse: bool,
        depth: nat,
        fuel: nat,
    ) -> Seq<int>
        decreases fuel, 2nat, 0nat,
    {
        self.resolved_all(now, keys, sorted_places(at, keys), sparse, depth, fuel)
    }

    /// What is shown of the tasks at the given places: no path is longer than there are tasks.
    pub open spec fn resolve(
        self,
        now: u64,
        keys: KeysView,
        at: Seq<int>,
        sparse: bool,
        depth: nat,
    ) -> Seq<int> {
        self.resolved(now, keys, at, sparse, depth, self.tasks.len())
    }

    pub open spec fn depth_to_search(self) -> nat {
        if self.search_depth + self.view_depth > usize::MAX {
            usize::MAX as nat
        } else {
            (self.search_depth + self.view_depth) as nat
        }
    }

    /// The tasks found below a position. Where none is and tags are filtered by, the search goes
    /// deeper.
    pub open spec fn found_below(
        self,
        now: u64,
        keys: KeysView,
        position: Option<EventId>,
        sparse: bool,
    ) -> Seq<int> {
        let roots = children(self.tasks, position);
        let first = self.resolve(now, keys, roots, sparse, self.depth_to_search());
        if first.len() == 0 && self.tags.len() > 0 && roots.len() > 0 {
            self.resolve(now, keys, roots, true, 9)
        } else {
            first
        }
    }

    /// The bookmarked tasks that pass the filters and are neither the position nor found.
    pub open spec fn bookmarked(
        self,
        now: u64,
        ids: Seq<EventId>,
        position: Option<EventId>,
        found: Seq<int>,
    ) -> Seq<int>
        decreases ids.len(),
    {
        if ids.len() == 0 {
            Seq::empty()
        } else {
            let before = self.bookmarked(now, ids.drop_last(), position, found);
            let id = ids.last();
            if position != Some(id) && has_task(self.tasks, id) && !found.contains(
                task_at(self.tasks, id),
            ) && self.filter(self.tasks[task_at(self.tasks, id)], now) {
                before.push(task_at(self.tasks, id))
            } else {
                before
            }
        }
    }

    /// The tasks below a position that pass the filters, and bookmarked ones behind them.
    pub open spec fn filtered(
        self,
        now: u64,
        keys: KeysView,
        position: Option<EventId>,
        sparse: bool,
    ) -> Seq<int> {
        let found = self.found_below(now, keys, position, sparse);
        if sparse && found.len() == 0 {
            found
        } else {
            found + self.bookmarked(now, self.bookmarks, position, found)
        }
    }

    /// The places of the known tasks among those in view.
    pub open spec fn known(self, ids: Seq<EventId>) -> Seq<int>
        decreases ids.len(),
    {
        if ids.len() == 0 {
            Seq::empty()
        } else {
            let before = self.known(ids.drop_last());
            if has_task(self.tasks, ids.last()) {
                before.push(task_at(self.tasks, ids.last()))
            } else {
                before
            }
        }
    }

    /// The tasks in view: those below the position, or those below the ones that were searched for.
    pub open spec fn viewed(self, clock: u64, keys: KeysView) -> Seq<int> {
        let now = now_of(clock);
        let view = self.known(self.view);
        if self.search_depth > 0 && view.len() == 0 {
            self.resolve(
                now,
                keys,
                children(self.tasks, self.position(clock)),
                true,
                self.depth_to_search(),
            )
        } else {
            self.resolve(
                now,
                keys,
                view,
                true,
                if self.view_depth < usize::MAX {
                    (self.view_depth + 1) as nat
                } else {
                    usize::MAX as nat
                },
            )
        }
    }
}

// ---------------------------------------------------------------------------
// Filtering

fn find_hashtag(hashtags: &Vec<Hashtag>, tag: &Hashtag) -> (r: bool)
    ensures
        r == has_hashtag(views(hashtags@), tag@),
{
    let mut i: usize = 0;
    while i < hashtags.len()
        invariant
            0 <= i <= hashtags.len(),
            forall|k: int| 0 <= k < i ==> !same_hashtag(#[trigger] views(hashtags@)[k], tag@),
        decreases hashtags.len() - i,
    {
        if hashtags[i].same(tag) {
            assert(same_hashtag(views(hashtags@)[i as int], tag@));
            return true;
        }
        i += 1;
    }
    false
}

fn find_part_in_hashtags(hashtags: &Vec<Hashtag>, token: &str) -> (r: bool)
    ensures
        r == any_hashtag_has(views(hashtags@), lower(token@)),
{
    let mut i: usize = 0;
    while i < hashtags.len()
        invariant
            0 <= i <= hashtags.len(),
            forall|k: int| 0 <= k < i ==> !has_part(#[trigger] views(hashtags@)[k], lower(token@)),
        decreases hashtags.len() - i,
    {
        if hashtags[i].matches(token) {
            assert(has_part(views(hashtags@)[i as int], lower(token@)));
            return true;
        }
        i += 1;
    }
    false
}

/// The union of two lists of places.
pub(crate) fn append(a: &mut Vec<usize>, b: &Vec<usize>)
    ensures
        final(a)@ == old(a)@ + b@,
{
    let ghost start = a@;
    let mut i: usize = 0;
    assert(start + b@.take(0) =~= start);
    while i < b.len()
        invariant
            0 <= i <= b.len(),
            start == old(a)@,
            a@ == start + b@.take(i as int),
        decreases b.len() - i,
    {
        a.push(b[i]);
        assert((start + b@.take(i as int)).push(b@[i as int]) =~= start + b@.take(i + 1));
        i += 1;
    }
    assert(b@.take(b@.len() as int) =~= b@);
}

/// Whether all places are within a list of the given length.
pub open spec fn within(v: Seq<usize>, len: int) -> bool {
    forall|k: int| 0 <= k < v.len() ==> #[trigger] v[k] < len
}

pub(crate) proof fn lemma_within_add(a: Seq<usize>, b: Seq<usize>, len: int)
    requires
        within(a, len),
        within(b, len),
    ensures
        within(a + b, len),
        places(a + b) == places(a) + places(b),
{
    assert(places(a + b) =~= places(a) + places(b));
    assert forall|k: int| 0 <= k < (a + b).len() implies #[trigger] (a + b)[k] < len by {
        if k < a.len() {
            assert((a + b)[k] == a[k]);
        } else {
            assert((a + b)[k] == b[k - a.len()]);
        }
    }
}

impl TasksRelay {
    /// Whether a task passes all filters.
    pub fn filter(&self, task: &Task, now: u64) -> (r: bool)
        ensures
            r == self@.filter(task@, now),
    {
        self.state.matches(task, now) && self.passes_keys(task) && self.passes_priority(task)
            && self.passes_tags(task)
    }

    fn passes_keys(&self, task: &Task) -> (r: bool)
        ensures
            r == self@.matches_keys(task@),
    {
        if !task.is_task() || self.keys.len() == 0 {
            return true;
        }
        let owner: PublicKey = task.get_owner();
        let hashtags: Vec<Hashtag> = task.list_hashtags();
        let mut i: usize = 0;
        while i < self.keys.len()
            invariant
                0 <= i <= self.keys.len(),
                owner == task@.owner(),
                views(hashtags@) == task@.hashtags(),
                task@.is_task(),
                self.keys@.len() > 0,
                forall|k: int| 0 <= k < i ==> !self@.concerns(task@, #[trigger] self@.keys[k]),
            decreases self.keys.len() - i,
        {
            let key: PublicKey = self.keys[i];
            let name: String = self.users.get_username(&key);
            if key == owner || find_part_in_hashtags(&hashtags, name.as_str()) {
                assert(self@.concerns(task@, self@.keys[i as int]));
                return true;
            }
            i += 1;
        }
        false
    }

    fn passes_priority(&self, task: &Task) -> (r: bool)
        ensures
            r == self@.matches_priority(task@),
    {
        match self.priority {
            Some(prio) => {
                let own: u16 = match task.priority() {
                    Some(p) => p,
                    None => DEFAULT_PRIO,
                };
                prio <= own
            },
            None => true,
        }
    }

    fn passes_tags(&self, task: &Task) -> (r: bool)
        ensures
            r == self@.matches_tags(task@),
    {
        let hashtags: Vec<Hashtag> = task.list_hashtags();
        let mut i: usize = 0;
        while i < self.tags_excluded.len()
            invariant
                0 <= i <= self.tags_excluded.len(),
                views(hashtags@) == task@.hashtags(),
                forall|k: int|
                    0 <= k < i ==> !has_hashtag(
                        task@.hashtags(),
                        #[trigger] self@.tags_excluded[k],
                    ),
            decreases self.tags_excluded.len() - i,
        {
            if find_hashtag(&hashtags, &self.tags_excluded[i]) {
                assert(has_hashtag(task@.hashtags(), self@.tags_excluded[i as int]));
                return false;
            }
            i += 1;
        }
        let mut i: usize = 0;
        while i < self.tags.len()
            invariant
                0 <= i <= self.tags.len(),
                views(hashtags@) == task@.hashtags(),
                forall|k: int|
                    0 <= k < i ==> has_hashtag(task@.hashtags(), #[trigger] self@.tags[k]),
            decreases self.tags.len() - i,
        {
            if !find_hashtag(&hashtags, &self.tags[i]) {
                assert(!has_hashtag(task@.hashtags(), self@.tags[i as int]));
                return false;
            }
            i += 1;
        }
        true
    }

    fn resolve_one(
        &self,
        now: u64,
        keys: &Vec<Vec<String>>,
        at: usize,
        sparse: bool,
        depth: usize,
        fuel: usize,
    ) -> (r: Vec<usize>)
        requires
            keys.len() == self.tasks.len(),
            at < self.tasks.len(),
        ensures
            places(r@) == self@.resolved_one(
                now,
                table(keys@),
                at as int,
                sparse,
                depth as nat,
                fuel as nat,
            ),
            within(r@, self.tasks.len() as int),
        decreases fuel, 0nat,
    {
        let mut r: Vec<usize> = Vec::new();
        let task: &Task = &self.tasks[at];
        assert(self@.tasks[at as int] == task@);
        if !self.state.matches(task, now) {
            assert(places(r@) =~= Seq::<int>::empty());
            return r;
        }
        let mut below: usize = depth;
        if depth > 0 && (!self.recurse_activities || task.is_task()) {
            below = depth - 1;
            if sparse && below > self.view_depth && self.filter(task, now) {
                below = self.view_depth;
            }
        }
        assert(below == self@.depth_below(task@, now, sparse, depth as nat));
        if below > 0 && fuel > 0 {
            let subtasks: Vec<usize> = children_for(&self.tasks, Some(task.get_id()));
            let mut found: Vec<usize> = self.resolve_tasks_rec(
                now,
                keys,
                &subtasks,
                sparse,
                below,
                fuel - 1,
            );
            assert(places(found@).len() == found@.len());
            if found.len() > 0 {
                if !sparse {
                    let ghost before = found@;
                    found.push(at);
                    assert(places(found@) =~= places(before).push(at as int));
                }
                return found;
            }
        }
        if self.filter(task, now) {
            r.push(at);
            assert(places(r@) =~= seq![at as int]);
        } else {
            assert(places(r@) =~= Seq::<int>::empty());
        }
        r
    }

    fn resolve_tasks_rec(
        &self,
        now: u64,
        keys: &Vec<Vec<String>>,
        at: &Vec<usize>,
        sparse: bool,
        depth: usize,
        fuel: usize,
    ) -> (r: Vec<usize>)
        requires
            keys.len() == self.tasks.len(),
            within(at@, self.tasks.len() as int),
        ensures
            places(r@) == self@.resolved(
                now,
                table(keys@),
                places(at@),
                sparse,
                depth as nat,
                fuel as nat,
            ),
            within(r@, self.tasks.len() as int),
        decreases fuel, 1nat,
    {
        let ordered: Vec<usize> = sort_places(at, keys);
        let ghost all = places(ordered@);
        let mut r: Vec<usize> = Vec::new();
        let mut i: usize = 0;
        assert(all.take(0) =~= Seq::<int>::empty());
        assert(places(r@) =~= Seq::<int>::empty());
        while i < ordered.len()
            invariant
                0 <= i <= ordered.len(),
                all == places(ordered@),
                keys.len() == self.tasks.len(),
                within(ordered@, self.tasks.len() as int),
                within(r@, self.tasks.len() as int),
                places(r@) == self@.resolved_all(
                    now,
                    table(keys@),
                    all.take(i as int),
                    sparse,
                    depth as nat,
                    fuel as nat,
                ),
            decreases ordered.len() - i,
        {
            assert(all.take(i + 1).drop_last() =~= all.take(i as int));
            assert(all.take(i + 1).last() == ordered@[i as int]);
            let one: Vec<usize> = self.resolve_one(now, keys, ordered[i], sparse, depth, fuel);
            proof {
                lemma_within_add(r@, one@, self.tasks.len() as int);
            }
            append(&mut r, &one);
            i += 1;
        }
        assert(all.take(ordered@.len() as int) =~= all);
        r
    }

    fn depth_to_search(&self) -> (r: usize)
        ensures
            r == self@.depth_to_search(),
    {
        self.search_depth.saturating_add(self.view_depth)
    }

    fn find_below(
        &self,
        now: u64,
        keys: &Vec<Vec<String>>,
        position: Option<EventId>,
        sparse: bool,
    ) -> (r: Vec<usize>)
        requires
            keys.len() == self.tasks.len(),
        ensures
            places(r@) == self@.found_below(now, table(keys@), position, sparse),
            within(r@, self.tasks.len() as int),
    {
        let roots: Vec<usize> = children_for(&self.tasks, position);
        let first: Vec<usize> = self.resolve_tasks_rec(
            now,
            keys,
            &roots,
            sparse,
            self.depth_to_search(),
            self.tasks.len(),
        );
        assert(places(first@).len() == first@.len());
        assert(places(roots@).len() == roots@.len());
        if first.len() == 0 && self.tags.len() > 0 && roots.len() > 0 {
            return self.resolve_tasks_rec(now, keys, &roots, true, 9, self.tasks.len());
        }
        first
    }

    fn find_bookmarked(&self, now: u64, position: Option<EventId>, found: &Vec<usize>) -> (r: Vec<
        usize,
    >)
        ensures
            places(r@) == self@.bookmarked(now, self@.bookmarks, position, places(found@)),
            within(r@, self.tasks.len() as int),
    {
        let ghost all = self.bookmarks@;
        let mut r: Vec<usize> = Vec::new();
        let mut i: usize = 0;
        assert(all.take(0) =~= Seq::<EventId>::empty());
        assert(places(r@) =~= Seq::<int>::empty());
        while i < self.bookmarks.len()
            invariant
                0 <= i <= self.bookmarks.len(),
                all == self.bookmarks@,
                within(r@, self.tasks.len() as int),
                places(r@) == self@.bookmarked(
                    now,
                    all.take(i as int),
                    position,
                    places(found@),
                ),
            decreases self.bookmarks.len() - i,
        {
            assert(all.take(i + 1).drop_last() =~= all.take(i as int));
            let id: EventId = self.bookmarks[i];
            let at: usize = find_task(&self.tasks, id);
            if position != Some(id) && at < self.tasks.len() && !has_place(found, at)
                && self.filter(&self.tasks[at], now) {
                let ghost before = r@;
                r.push(at);
                assert(places(r@) =~= places(before).push(at as int));
            }
            i += 1;
        }
        assert(all.take(self.bookmarks@.len() as int) =~= all);
        r
    }

    /// The tasks below a position that pass the filters, and bookmarked ones behind them, when
    /// sorted by the given keys.
    pub fn filtered_places(
        &self,
        now: u64,
        keys: &Vec<Vec<String>>,
        position: Option<EventId>,
        sparse: bool,
    ) -> (r: Vec<usize>)
        requires
            keys.len() == self.tasks.len(),
        ensures
            places(r@) == self@.filtered(now, table(keys@), position, sparse),
            within(r@, self.tasks.len() as int),
    {
        let mut found: Vec<usize> = self.find_below(now, keys, position, sparse);
        assert(places(found@).len() == found@.len());
        if sparse && found.len() == 0 {
            return found;
        }
        let more: Vec<usize> = self.find_bookmarked(now, position, &found);
        proof {
            lemma_within_add(found@, more@, self.tasks.len() as int);
        }
        append(&mut found, &more);
        found
    }

    fn find_known(&self, ids: &Vec<EventId>) -> (r: Vec<usize>)
        ensures
            places(r@) == self@.known(ids@),
            within(r@, self.tasks.len() as int),
    {
        let mut r: Vec<usize> = Vec::new();
        let mut i: usize = 0;
        assert(ids@.take(0) =~= Seq::<EventId>::empty());
        assert(places(r@) =~= Seq::<int>::empty());
        while i < ids.len()
            invariant
                0 <= i <= ids.len(),
                within(r@, self.tasks.len() as int),
                places(r@) == self@.known(ids@.take(i as int)),
            decreases ids.len() - i,
        {
            assert(ids@.take(i + 1).drop_last() =~= ids@.take(i as int));
            let at: usize = find_task(&self.tasks, ids[i]);
            if at < self.tasks.len() {
                let ghost before = r@;
                r.push(at);
                assert(places(r@) =~= places(before).push(at as int));
            }
            i += 1;
        }
        assert(ids@.take(ids@.len() as int) =~= ids@);
        r
    }

    /// The tasks in view, when sorted by the given keys.
    pub fn viewed_places(&self, clock: u64, keys: &Vec<Vec<String>>) -> (r: Vec<usize>)
        requires
            keys.len() == self.tasks.len(),
        ensures
            places(r@) == self@.viewed(clock, table(keys@)),
            within(r@, self.tasks.len() as int),
    {
        let now: u64 = now_at(clock);
        let view: Vec<usize> = self.find_known(&self.view);
        assert(places(view@).len() == view@.len());
        if self.search_depth > 0 && view.len() == 0 {
            let roots: Vec<usize> = children_for(&self.tasks, self.position(clock));
            self.resolve_tasks_rec(
                now,
                keys,
                &roots,
                true,
                self.depth_to_search(),
                self.tasks.len(),
            )
        } else {
            self.resolve_tasks_rec(
                now,
                keys,
                &view,
                true,
                self.view_depth.saturating_add(1),
                self.tasks.len(),
            )
        }
    }
}

fn has_place(v: &Vec<usize>, at: usize) -> (r: bool)
    ensures
        r == places(v@).contains(at as int),
{
    let mut i: usize = 0;
    while i < v.len()
        invariant
            0 <= i <= v.len(),
            forall|k: int| 0 <= k < i ==> #[trigger] places(v@)[k] != at,
        decreases v.len() - i,
    {
        if v[i] == at {
            assert(places(v@)[i as int] == at);
            return true;
        }
        i += 1;
    }
    false
}

} // verus!
