//! What holds of the tasks that are listed and of their order.

use crate::command::CommandView;
use crate::lists::{is_sorted, sorted, sorting_orders_and_keeps, Ordered};
use crate::nostr::{EventId, PublicKey};
use crate::task::state::State;
use crate::task::TaskView;
use crate::tasks::context::{hashtags_of, updated_since};
use crate::tasks::filter::{has_hashtag, keyed, sorted_places, Keyed, KeysView};
use crate::tasks::nostr_users::{found_users, username};
use crate::tasks::property::ProgressStepView;
use crate::tasks::search_laws::{
    above_a_task_are_its_parents, equal_in_any_case, follows, is_chain, lemma_equal_in_any_case,
    lemma_reads_at, reads_at,
};
use crate::tasks::selection::{
    deduped, latest_ids, prio_ranks, rank_of, ranks, top_ids, tree_ids, PrioRank, Rank,
};
use crate::tasks::task_map::{
    ancestors, children, has_task, ids_at, ids_unique, lemma_children, task_at, task_of, TasksView,
};
use crate::tasks::{now_of, FilterView, RelayView};
use crate::text::{has_part, lower, stands_at, texts_leq};
use vstd::prelude::*;

verus! {

// ---------------------------------------------------------------------------
// Filters

/// Whether one of the hashtags is the given one, in any case.
pub open spec fn is_tagged(hashtags: Seq<Seq<char>>, tag: Seq<char>) -> bool {
    exists|i: int| 0 <= i < hashtags.len() && equal_in_any_case(#[trigger] hashtags[i], tag)
}

/// Whether the name of the user, in small letters, is part of one of the hashtags.
pub open spec fn is_named_in(hashtags: Seq<Seq<char>>, name: Seq<char>) -> bool {
    exists|i: int, at: int|
        0 <= i < hashtags.len() && #[trigger] reads_at(hashtags[i], lower(name), at, false)
}

proof fn lemma_tagged(hashtags: Seq<Seq<char>>, tag: Seq<char>)
    ensures
        has_hashtag(hashtags, tag) == is_tagged(hashtags, tag),
{
    if has_hashtag(hashtags, tag) {
        let i = choose|i: int|
            0 <= i < hashtags.len() && crate::hashtag::same_hashtag(#[trigger] hashtags[i], tag);
        lemma_equal_in_any_case(hashtags[i], tag);
    }
    if is_tagged(hashtags, tag) {
        let i = choose|i: int|
            0 <= i < hashtags.len() && equal_in_any_case(#[trigger] hashtags[i], tag);
        lemma_equal_in_any_case(hashtags[i], tag);
        assert(crate::hashtag::same_hashtag(hashtags[i], tag));
    }
}

/// A task has every hashtag that is filtered by, in any case, and none that is filtered out.
pub proof fn tags_filter_by_hashtags(relay: RelayView, task: TaskView)
    ensures
        relay.matches_tags(task) == {
            &&& forall|i: int|
                0 <= i < relay.tags.len() ==> is_tagged(task.hashtags(), #[trigger] relay.tags[i])
            &&& forall|i: int|
                0 <= i < relay.tags_excluded.len() ==> !is_tagged(
                    task.hashtags(),
                    #[trigger] relay.tags_excluded[i],
                )
        },
{
    assert forall|i: int| 0 <= i < relay.tags.len() implies has_hashtag(
        task.hashtags(),
        #[trigger] relay.tags[i],
    ) == is_tagged(task.hashtags(), relay.tags[i]) by {
        lemma_tagged(task.hashtags(), relay.tags[i]);
    }
    assert forall|i: int| 0 <= i < relay.tags_excluded.len() implies has_hashtag(
        task.hashtags(),
        #[trigger] relay.tags_excluded[i],
    ) == is_tagged(task.hashtags(), relay.tags_excluded[i]) by {
        lemma_tagged(task.hashtags(), relay.tags_excluded[i]);
    }
}

/// A priority filters out what has a lower one; a task without any counts as one of priority 25.
pub proof fn a_priority_filters_out_what_is_lower(relay: RelayView, task: TaskView, prio: u16)
    ensures
        relay.priority is None ==> relay.matches_priority(task),
        (RelayView { priority: Some(prio), ..relay }).matches_priority(task) == match task.priority(
        ) {
            Some(p) => p >= prio,
            None => 25 >= prio,
        },
{
}

/// Whoever is filtered by sees their own tasks and those that name them in a hashtag; activities,
/// and everything where no user is filtered by, are seen anyway.
pub proof fn users_filter_by_owner(relay: RelayView, task: TaskView)
    ensures
        relay.matches_keys(task) == {
            ||| !task.is_task()
            ||| relay.keys.len() == 0
            ||| relay.keys.contains(task.owner())
            ||| exists|i: int|
                0 <= i < relay.keys.len() && is_named_in(
                    task.hashtags(),
                    username(relay.users, #[trigger] relay.keys[i]),
                )
        },
{
    let tags = task.hashtags();
    if task.is_task() && relay.keys.len() > 0 {
        assert forall|i: int| 0 <= i < relay.keys.len() implies relay.concerns(
            task,
            #[trigger] relay.keys[i],
        ) == (relay.keys[i] == task.owner() || is_named_in(
            tags,
            username(relay.users, relay.keys[i]),
        )) by {
            let name = username(relay.users, relay.keys[i]);
            if crate::tasks::filter::any_hashtag_has(tags, lower(name)) {
                let h = choose|h: int| 0 <= h < tags.len() && has_part(#[trigger] tags[h], lower(name));
                let at = choose|at: int| stands_at(tags[h], lower(name), at);
                lemma_reads_at(tags[h], lower(name), at, false);
                assert(reads_at(tags[h], lower(name), at, false));
            }
            if is_named_in(tags, name) {
                let (h, at) = choose|h: int, at: int|
                    0 <= h < tags.len() && #[trigger] reads_at(tags[h], lower(name), at, false);
                lemma_reads_at(tags[h], lower(name), at, false);
                assert(stands_at(tags[h], lower(name), at));
                assert(has_part(tags[h], lower(name)));
            }
        }
        if relay.keys.contains(task.owner()) {
            let i = choose|i: int| 0 <= i < relay.keys.len() && relay.keys[i] == task.owner();
            assert(relay.concerns(task, relay.keys[i]));
        }
        if exists|i: int| 0 <= i < relay.keys.len() && relay.concerns(
            task,
            #[trigger] relay.keys[i],
        ) {
            let i = choose|i: int|
                0 <= i < relay.keys.len() && relay.concerns(task, #[trigger] relay.keys[i]);
            if relay.keys[i] == task.owner() {
                assert(relay.keys.contains(task.owner()));
            }
        }
        if exists|i: int|
            0 <= i < relay.keys.len() && is_named_in(
                tags,
                username(relay.users, #[trigger] relay.keys[i]),
            ) {
            let i = choose|i: int|
                0 <= i < relay.keys.len() && is_named_in(
                    tags,
                    username(relay.users, #[trigger] relay.keys[i]),
                );
            assert(relay.concerns(task, relay.keys[i]));
        }
    }
}

/// A task passes if each of the filters lets it pass, and each of them can stop it alone.
pub proof fn each_filter_counts(relay: RelayView, task: TaskView, now: u64)
    ensures
        relay.filter(task, now) ==> relay.state.matches(task, now) && relay.matches_keys(task)
            && relay.matches_priority(task) && relay.matches_tags(task),
        relay.state.matches(task, now) && relay.matches_keys(task) && relay.matches_priority(task)
            && relay.matches_tags(task) ==> relay.filter(task, now),
{
}

// ---------------------------------------------------------------------------
// Order

/// Listed tasks are put in the order of their sort keys, and none is added or lost.
pub proof fn tasks_are_sorted_by_their_keys(at: Seq<int>, keys: KeysView)
    ensures
        sorted_places(at, keys).len() == at.len(),
        forall|p: int| #[trigger] sorted_places(at, keys).contains(p) == at.contains(p),
        forall|i: int, j: int|
            0 <= i <= j < at.len() ==> texts_leq(
                keys[#[trigger] sorted_places(at, keys)[i]],
                keys[#[trigger] sorted_places(at, keys)[j]],
            ),
{
    broadcast use vstd::seq_lib::group_to_multiset_ensures;

    let s = keyed(at, keys);
    sorting_orders_and_keeps::<Keyed>(s);
    let r = sorted::<Keyed>(s);
    let places = sorted_places(at, keys);
    assert(r.to_multiset().len() == s.to_multiset().len());
    assert forall|i: int| 0 <= i < r.len() implies (#[trigger] r[i]).0 == keys[r[i].1]
        && at.contains(r[i].1) by {
        assert(r.contains(r[i]));
        assert(s.to_multiset().contains(r[i]));
        assert(s.contains(r[i]));
        let k = choose|k: int| 0 <= k < s.len() && s[k] == r[i];
        assert(at[k] == r[i].1);
    }
    assert forall|p: int| #[trigger] places.contains(p) == at.contains(p) by {
        if places.contains(p) {
            let i = choose|i: int| 0 <= i < places.len() && places[i] == p;
            assert(r[i].1 == p);
        }
        if at.contains(p) {
            let k = choose|k: int| 0 <= k < at.len() && at[k] == p;
            assert(s.contains(s[k]));
            assert(s.to_multiset().contains(s[k]));
            assert(r.to_multiset().contains(s[k]));
            assert(r.contains(s[k]));
            let i = choose|i: int| 0 <= i < r.len() && r[i] == s[k];
            assert(places[i] == p);
        }
    }
    assert forall|i: int, j: int| 0 <= i <= j < at.len() implies texts_leq(
        keys[#[trigger] places[i]],
        keys[#[trigger] places[j]],
    ) by {
        assert(Keyed::leq(r[i], r[j]));
        assert(r[i].1 == places[i] && r[j].1 == places[j]);
    }
}

// ---------------------------------------------------------------------------
// Listing

/// Whether a place is one of the given ones, or its task lies below that at one of them.
pub open spec fn is_at_or_below(tasks: TasksView, p: int, at: Seq<int>) -> bool {
    exists|chain: Seq<int>| #[trigger]
        is_chain(tasks, chain) && chain.len() > 0 && chain[0] == p && at.contains(chain.last())
}

proof fn lemma_at(tasks: TasksView, p: int, at: Seq<int>)
    requires
        0 <= p < tasks.len(),
        at.contains(p),
    ensures
        is_at_or_below(tasks, p, at),
{
    let chain = seq![p];
    assert(is_chain(tasks, chain));
    assert(chain.last() == p);
}

proof fn lemma_below(tasks: TasksView, p: int, parent: int, at: Seq<int>)
    requires
        0 <= parent < tasks.len(),
        at.contains(parent),
        is_at_or_below(tasks, p, children(tasks, Some(tasks[parent].event.id))),
    ensures
        is_at_or_below(tasks, p, at),
{
    let under = children(tasks, Some(tasks[parent].event.id));
    let chain = choose|chain: Seq<int>| #[trigger]
        is_chain(tasks, chain) && chain.len() > 0 && chain[0] == p && under.contains(chain.last());
    lemma_children(tasks, Some(tasks[parent].event.id));
    let longer = chain.push(parent);
    let k = choose|k: int| 0 <= k < under.len() && under[k] == chain.last();
    assert(tasks[under[k]].parent() == Some(tasks[parent].event.id));
    assert(is_chain(tasks, longer)) by {
        assert forall|i: int| 0 < i < longer.len() implies #[trigger] follows(
            tasks,
            longer,
            i,
        ) by {
            if i < chain.len() {
                assert(follows(tasks, chain, i));
                assert(longer[i] == chain[i] && longer[i - 1] == chain[i - 1]);
            } else {
                assert(longer[i - 1] == chain.last());
            }
        }
        assert forall|i: int| 0 <= i < longer.len() implies 0 <= #[trigger] longer[i]
            < tasks.len() by {
            if i < chain.len() {
                assert(longer[i] == chain[i]);
            }
        }
    }
    assert(longer[0] == p);
    assert(longer.last() == parent);
}

proof fn lemma_widened(tasks: TasksView, p: int, few: Seq<int>, many: Seq<int>)
    requires
        forall|x: int| few.contains(x) ==> many.contains(x),
        is_at_or_below(tasks, p, few),
    ensures
        is_at_or_below(tasks, p, many),
{
    let chain = choose|chain: Seq<int>| #[trigger]
        is_chain(tasks, chain) && chain.len() > 0 && chain[0] == p && few.contains(chain.last());
    assert(many.contains(chain.last()));
}

proof fn lemma_resolved_below(
    relay: RelayView,
    now: u64,
    keys: KeysView,
    at: Seq<int>,
    sparse: bool,
    depth: nat,
    fuel: nat,
)
    requires
        forall|i: int| 0 <= i < at.len() ==> 0 <= #[trigger] at[i] < relay.tasks.len(),
    ensures
        forall|i: int|
            0 <= i < relay.resolved_all(now, keys, at, sparse, depth, fuel).len() ==> {
                let p = #[trigger] relay.resolved_all(now, keys, at, sparse, depth, fuel)[i];
                &&& 0 <= p < relay.tasks.len()
                &&& is_at_or_below(relay.tasks, p, at)
                &&& relay.state.matches(relay.tasks[p], now)
            },
    decreases fuel, at.len(),
{
    let tasks = relay.tasks;
    if at.len() > 0 {
        let rest = at.drop_last();
        assert forall|i: int| 0 <= i < rest.len() implies 0 <= #[trigger] rest[i] < tasks.len() by {
            assert(rest[i] == at[i]);
        }
        lemma_resolved_below(relay, now, keys, rest, sparse, depth, fuel);
        let a = relay.resolved_all(now, keys, rest, sparse, depth, fuel);
        let last = at.last();
        assert(at[at.len() - 1] == last);
        let b = relay.resolved_one(now, keys, last, sparse, depth, fuel);
        let task = tasks[last];
        let below = relay.depth_below(task, now, sparse, depth);
        let under = children(tasks, Some(task.event.id));
        let ordered = sorted_places(under, keys);
        tasks_are_sorted_by_their_keys(under, keys);
        lemma_children(tasks, Some(task.event.id));
        assert forall|i: int| 0 <= i < ordered.len() implies 0 <= #[trigger] ordered[i]
            < tasks.len() by {
            assert(ordered.contains(ordered[i]));
            let k = choose|k: int| 0 <= k < under.len() && under[k] == ordered[i];
            assert(0 <= under[k] < tasks.len());
        }
        assert(at.contains(last));
        lemma_at(tasks, last, at);
        if below > 0 && fuel > 0 {
            lemma_resolved_below(relay, now, keys, ordered, sparse, below, (fuel - 1) as nat);
            let found = relay.resolved_all(now, keys, ordered, sparse, below, (fuel - 1) as nat);
            assert(relay.resolved(now, keys, under, sparse, below, (fuel - 1) as nat) == found);
            assert forall|i: int| 0 <= i < found.len() implies is_at_or_below(
                tasks,
                #[trigger] found[i],
                at,
            ) by {
                lemma_widened(tasks, found[i], ordered, under);
                lemma_below(tasks, found[i], last, at);
            }
            assert forall|i: int| 0 <= i < b.len() implies {
                let p = #[trigger] b[i];
                &&& 0 <= p < tasks.len()
                &&& is_at_or_below(tasks, p, at)
                &&& relay.state.matches(tasks[p], now)
            } by {
                if i < found.len() && found.len() > 0 {
                    assert(b[i] == found[i]);
                } else {
                    assert(b[i] == last);
                }
            }
        }
        let r = relay.resolved_all(now, keys, at, sparse, depth, fuel);
        assert(r == a + b);
        assert forall|i: int| 0 <= i < r.len() implies {
            let p = #[trigger] r[i];
            &&& 0 <= p < tasks.len()
            &&& is_at_or_below(tasks, p, at)
            &&& relay.state.matches(tasks[p], now)
        } by {
            if i < a.len() {
                assert(r[i] == a[i]);
                assert forall|x: int| rest.contains(x) implies at.contains(x) by {
                    let k = choose|k: int| 0 <= k < rest.len() && rest[k] == x;
                    assert(at[k] == x);
                }
                lemma_widened(tasks, a[i], rest, at);
            } else {
                assert(r[i] == b[i - a.len()]);
            }
        }
    }
}

/// What is found below a position lies below it, and its state is one that is filtered for.
pub proof fn what_is_found_lies_below_the_position(
    relay: RelayView,
    now: u64,
    keys: KeysView,
    position: Option<EventId>,
    sparse: bool,
    i: int,
)
    requires
        0 <= i < relay.found_below(now, keys, position, sparse).len(),
    ensures
        ({
            let p = relay.found_below(now, keys, position, sparse)[i];
            &&& 0 <= p < relay.tasks.len()
            &&& relay.state.matches(relay.tasks[p], now)
            &&& exists|chain: Seq<int>| #[trigger]
                is_chain(relay.tasks, chain) && chain.len() > 0 && chain[0] == p
                    && relay.tasks[chain.last()].parent() == position
        }),
{
    let tasks = relay.tasks;
    let roots = children(tasks, position);
    let ordered = sorted_places(roots, keys);
    tasks_are_sorted_by_their_keys(roots, keys);
    lemma_children(tasks, position);
    assert forall|i: int| 0 <= i < ordered.len() implies 0 <= #[trigger] ordered[i]
        < tasks.len() by {
        assert(ordered.contains(ordered[i]));
        let k = choose|k: int| 0 <= k < roots.len() && roots[k] == ordered[i];
        assert(0 <= roots[k] < tasks.len());
    }
    lemma_resolved_below(
        relay,
        now,
        keys,
        ordered,
        sparse,
        relay.depth_to_search(),
        tasks.len(),
    );
    lemma_resolved_below(relay, now, keys, ordered, true, 9, tasks.len());
    let found = relay.found_below(now, keys, position, sparse);
    let depth = relay.depth_to_search();
    let first = relay.resolved_all(now, keys, ordered, sparse, depth, tasks.len());
    let second = relay.resolved_all(now, keys, ordered, true, 9, tasks.len());
    assert(relay.resolved(now, keys, roots, sparse, depth, tasks.len()) == first);
    assert(relay.resolved(now, keys, roots, true, 9, tasks.len()) == second);
    let p = found[i];
    assert(p == first[i] || p == second[i]);
    assert(is_at_or_below(tasks, p, ordered)) by {
        if found == first {
            assert(is_at_or_below(tasks, first[i], ordered));
        } else {
            assert(is_at_or_below(tasks, second[i], ordered));
        }
    }
    let chain = choose|chain: Seq<int>| #[trigger]
        is_chain(tasks, chain) && chain.len() > 0 && chain[0] == p && ordered.contains(
            chain.last(),
        );
    let k = choose|k: int| 0 <= k < roots.len() && roots[k] == chain.last();
    assert(tasks[roots[k]].parent() == position);
}

proof fn lemma_one_keeps(
    relay: RelayView,
    now: u64,
    keys: KeysView,
    sparse: bool,
    depth: nat,
    fuel: nat,
    p: int,
)
    requires
        0 <= p < relay.tasks.len(),
        relay.filter(relay.tasks[p], now),
    ensures
        ({
            let r = relay.resolved_one(now, keys, p, sparse, depth, fuel);
            &&& r.len() > 0
            &&& sparse ==> is_at_or_below(relay.tasks, r[0], seq![p])
            &&& !sparse ==> r.last() == p
        }),
{
    let one = seq![p];
    let r = relay.resolved_one(now, keys, p, sparse, depth, fuel);
    assert(one[0] == p);
    assert(one.drop_last() =~= Seq::<int>::empty());
    let none = relay.resolved_all(now, keys, one.drop_last(), sparse, depth, fuel);
    assert(none =~= Seq::<int>::empty());
    let all = relay.resolved_all(now, keys, one, sparse, depth, fuel);
    assert(all == none + r);
    assert(all =~= r);
    lemma_resolved_below(relay, now, keys, one, sparse, depth, fuel);
    assert(r.len() > 0);
    assert(is_at_or_below(relay.tasks, all[0], one));
}

proof fn lemma_resolved_keeps(
    relay: RelayView,
    now: u64,
    keys: KeysView,
    at: Seq<int>,
    sparse: bool,
    depth: nat,
    fuel: nat,
    p: int,
)
    requires
        forall|i: int| 0 <= i < at.len() ==> 0 <= #[trigger] at[i] < relay.tasks.len(),
        at.contains(p),
        relay.filter(relay.tasks[p], now),
    ensures
        ({
            let r = relay.resolved_all(now, keys, at, sparse, depth, fuel);
            if sparse {
                exists|i: int|
                    0 <= i < r.len() && is_at_or_below(relay.tasks, #[trigger] r[i], seq![p])
            } else {
                r.contains(p)
            }
        }),
    decreases at.len(),
{
    let tasks = relay.tasks;
    let rest = at.drop_last();
    let r = relay.resolved_all(now, keys, at, sparse, depth, fuel);
    let a = relay.resolved_all(now, keys, rest, sparse, depth, fuel);
    let b = relay.resolved_one(now, keys, at.last(), sparse, depth, fuel);
    assert(r == a + b);
    if at.last() == p {
        assert(at[at.len() - 1] == p);
        lemma_one_keeps(relay, now, keys, sparse, depth, fuel, p);
        if sparse {
            assert(is_at_or_below(tasks, b[0], seq![p]));
            assert(r[a.len() as int] == b[0]);
        } else {
            assert(b.last() == p);
            assert(r[a.len() + b.len() - 1] == p);
        }
    } else {
        let k = choose|k: int| 0 <= k < at.len() && at[k] == p;
        assert(rest[k] == p);
        assert forall|i: int| 0 <= i < rest.len() implies 0 <= #[trigger] rest[i] < tasks.len() by {
            assert(rest[i] == at[i]);
        }
        lemma_resolved_keeps(relay, now, keys, rest, sparse, depth, fuel, p);
        if sparse {
            let i = choose|i: int|
                0 <= i < a.len() && is_at_or_below(tasks, #[trigger] a[i], seq![p]);
            assert(r[i] == a[i]);
        } else {
            let i = choose|i: int| 0 <= i < a.len() && a[i] == p;
            assert(r[i] == p);
        }
    }
}

/// A child of the position that passes the filters is found below it.
pub proof fn a_child_that_passes_is_found(
    relay: RelayView,
    now: u64,
    keys: KeysView,
    position: Option<EventId>,
    p: int,
)
    requires
        0 <= p < relay.tasks.len(),
        relay.tasks[p].parent() == position,
        relay.filter(relay.tasks[p], now),
    ensures
        relay.found_below(now, keys, position, false).contains(p),
        relay.filtered(now, keys, position, false).contains(p),
{
    let roots = children(relay.tasks, position);
    let ordered = sorted_places(roots, keys);
    lemma_roots(relay, keys, position);
    lemma_children(relay.tasks, position);
    assert(ordered.contains(p));
    lemma_resolved_keeps(
        relay,
        now,
        keys,
        ordered,
        false,
        relay.depth_to_search(),
        relay.tasks.len(),
        p,
    );
    let found = relay.found_below(now, keys, position, false);
    let k = choose|k: int| 0 <= k < found.len() && found[k] == p;
    assert(relay.filtered(now, keys, position, false)[k] == p);
}

proof fn lemma_roots(relay: RelayView, keys: KeysView, position: Option<EventId>)
    ensures
        ({
            let roots = children(relay.tasks, position);
            let ordered = sorted_places(roots, keys);
            &&& forall|i: int|
                0 <= i < ordered.len() ==> 0 <= #[trigger] ordered[i] < relay.tasks.len()
            &&& forall|p: int| #[trigger] ordered.contains(p) == roots.contains(p)
        }),
{
    let tasks = relay.tasks;
    let roots = children(tasks, position);
    let ordered = sorted_places(roots, keys);
    tasks_are_sorted_by_their_keys(roots, keys);
    lemma_children(tasks, position);
    assert forall|i: int| 0 <= i < ordered.len() implies 0 <= #[trigger] ordered[i]
        < tasks.len() by {
        assert(ordered.contains(ordered[i]));
        let k = choose|k: int| 0 <= k < roots.len() && roots[k] == ordered[i];
        assert(0 <= roots[k] < tasks.len());
    }
}

/// A child of the position that passes the filters is in view, or something below it is.
pub proof fn a_child_that_passes_is_in_view(
    relay: RelayView,
    clock: u64,
    keys: KeysView,
    p: int,
)
    requires
        0 <= p < relay.tasks.len(),
        relay.search_depth > 0,
        relay.view.len() == 0,
        relay.tasks[p].parent() == relay.position(clock),
        relay.filter(relay.tasks[p], now_of(clock)),
    ensures
        exists|i: int|
            0 <= i < relay.viewed(clock, keys).len() && is_at_or_below(
                relay.tasks,
                #[trigger] relay.viewed(clock, keys)[i],
                seq![p],
            ),
{
    let position = relay.position(clock);
    let roots = children(relay.tasks, position);
    let ordered = sorted_places(roots, keys);
    lemma_roots(relay, keys, position);
    lemma_children(relay.tasks, position);
    assert(ordered.contains(p));
    lemma_resolved_keeps(
        relay,
        now_of(clock),
        keys,
        ordered,
        true,
        relay.depth_to_search(),
        relay.tasks.len(),
        p,
    );
    let r = relay.resolved_all(
        now_of(clock),
        keys,
        ordered,
        true,
        relay.depth_to_search(),
        relay.tasks.len(),
    );
    assert(relay.viewed(clock, keys) == r);
    let i = choose|i: int|
        0 <= i < r.len() && is_at_or_below(relay.tasks, #[trigger] r[i], seq![p]);
    assert(is_at_or_below(relay.tasks, relay.viewed(clock, keys)[i], seq![p]));
}

proof fn lemma_bookmarked(
    relay: RelayView,
    now: u64,
    ids: Seq<EventId>,
    position: Option<EventId>,
    found: Seq<int>,
)
    ensures
        forall|id: EventId|
            ids.contains(id) && #[trigger] has_task(relay.tasks, id) && position != Some(id)
                && relay.filter(relay.tasks[task_at(relay.tasks, id)], now) && !found.contains(
                task_at(relay.tasks, id),
            ) ==> relay.bookmarked(now, ids, position, found).contains(task_at(relay.tasks, id)),
    decreases ids.len(),
{
    if ids.len() > 0 {
        let rest = ids.drop_last();
        lemma_bookmarked(relay, now, rest, position, found);
        let before = relay.bookmarked(now, rest, position, found);
        let r = relay.bookmarked(now, ids, position, found);
        assert forall|id: EventId|
            ids.contains(id) && #[trigger] has_task(relay.tasks, id) && position != Some(id)
                && relay.filter(relay.tasks[task_at(relay.tasks, id)], now) && !found.contains(
                task_at(relay.tasks, id),
            ) implies r.contains(task_at(relay.tasks, id)) by {
            if id == ids.last() {
                assert(r.last() == task_at(relay.tasks, id));
            } else {
                let k = choose|k: int| 0 <= k < ids.len() && ids[k] == id;
                assert(rest[k] == id);
                let j = choose|j: int|
                    0 <= j < before.len() && before[j] == task_at(relay.tasks, id);
                assert(r[j] == before[j]);
            }
        }
    }
}

/// A bookmarked task that passes the filters is listed wherever the user is, but for the position
/// itself.
pub proof fn a_bookmarked_task_is_listed(
    relay: RelayView,
    now: u64,
    keys: KeysView,
    position: Option<EventId>,
    id: EventId,
)
    requires
        relay.bookmarks.contains(id),
        has_task(relay.tasks, id),
        position != Some(id),
        relay.filter(relay.tasks[task_at(relay.tasks, id)], now),
    ensures
        relay.filtered(now, keys, position, false).contains(task_at(relay.tasks, id)),
{
    let found = relay.found_below(now, keys, position, false);
    let marked = relay.bookmarked(now, relay.bookmarks, position, found);
    lemma_bookmarked(relay, now, relay.bookmarks, position, found);
    let at = task_at(relay.tasks, id);
    let r = relay.filtered(now, keys, position, false);
    if found.contains(at) {
        let k = choose|k: int| 0 <= k < found.len() && found[k] == at;
        assert(r[k] == at);
    } else {
        let k = choose|k: int| 0 <= k < marked.len() && marked[k] == at;
        assert(r[found.len() + k] == at);
    }
}

// ---------------------------------------------------------------------------
// Quick access

proof fn lemma_ranks(tasks: TasksView)
    ensures
        ({
            let s = sorted::<Rank>(ranks(tasks));
            &&& s.len() == tasks.len()
            &&& forall|k: int|
                0 <= k < s.len() ==> 0 <= (#[trigger] s[k]).2 < tasks.len() && s[k] == rank_of(
                    tasks,
                    s[k].2,
                )
            &&& forall|i: int| 0 <= i < tasks.len() ==> s.contains(#[trigger] rank_of(tasks, i))
            &&& is_sorted::<Rank>(s)
        }),
{
    broadcast use vstd::seq_lib::group_to_multiset_ensures;

    let all = ranks(tasks);
    sorting_orders_and_keeps::<Rank>(all);
    let s = sorted::<Rank>(all);
    assert(s.to_multiset().len() == all.to_multiset().len());
    assert forall|k: int| 0 <= k < s.len() implies 0 <= (#[trigger] s[k]).2 < tasks.len() && s[k]
        == rank_of(tasks, s[k].2) by {
        assert(s.contains(s[k]));
        assert(all.to_multiset().contains(s[k]));
        assert(all.contains(s[k]));
        let i = choose|i: int| 0 <= i < all.len() && all[i] == s[k];
    }
    assert forall|i: int| 0 <= i < tasks.len() implies s.contains(#[trigger] rank_of(tasks, i)) by {
        assert(all[i] == rank_of(tasks, i));
        assert(all.contains(all[i]));
        assert(all.to_multiset().contains(all[i]));
        assert(s.to_multiset().contains(all[i]));
    }
}

/// Whether a task of that id was made at the time or later.
pub open spec fn was_made_since(tasks: TasksView, id: EventId, time: u64) -> bool {
    exists|j: int|
        0 <= j < tasks.len() && (#[trigger] tasks[j]).event.id == id && tasks[j].event.created_at
            >= time
}

/// Whether a task of that id has the priority or a higher one.
pub open spec fn has_priority_from(tasks: TasksView, id: EventId, prio: u16) -> bool {
    exists|j: int|
        0 <= j < tasks.len() && (#[trigger] tasks[j]).event.id == id && (tasks[j].priority()
            matches Some(p) && p >= prio)
}

/// The latest tasks are offered: three of them, or all where there are no more, and none that was
/// made later is left out.
pub proof fn the_latest_tasks_are_offered(relay: RelayView, i: int, id: EventId)
    requires
        0 <= i < relay.tasks.len(),
    ensures
        ({
            let latest = latest_ids(relay.tasks);
            &&& latest.len() == if relay.tasks.len() < 3 {
                relay.tasks.len()
            } else {
                3
            }
            &&& latest.contains(relay.tasks[i].event.id) || forall|k: int|
                0 <= k < latest.len() ==> was_made_since(
                    relay.tasks,
                    #[trigger] latest[k],
                    relay.tasks[i].event.created_at,
                )
        }),
        latest_ids(relay.tasks).contains(id) ==> relay.quick_access().contains(id),
        relay.bookmarks.contains(id) ==> relay.quick_access().contains(id),
        top_ids(relay.tasks).contains(id) ==> relay.quick_access().contains(id),
{
    let tasks = relay.tasks;
    lemma_ranks(tasks);
    let s = sorted::<Rank>(ranks(tasks));
    let latest = latest_ids(tasks);
    assert(s.contains(rank_of(tasks, i)));
    let k = choose|k: int| 0 <= k < s.len() && s[k] == rank_of(tasks, i);
    if k < latest.len() {
        assert(latest[k] == tasks[i].event.id);
    } else {
        assert forall|l: int| 0 <= l < latest.len() implies was_made_since(
            tasks,
            #[trigger] latest[l],
            tasks[i].event.created_at,
        ) by {
            assert(Rank::leq(s[l], s[k]));
            assert(s[l] == rank_of(tasks, s[l].2));
            assert(tasks[s[l].2].event.id == latest[l]);
        }
    }
    let quick = relay.quick_access();
    let n = relay.bookmarks.len();
    if relay.bookmarks.contains(id) {
        let k = choose|k: int| 0 <= k < n && relay.bookmarks[k] == id;
        assert(quick[k] == id);
    }
    if latest.contains(id) {
        let k = choose|k: int| 0 <= k < latest.len() && latest[k] == id;
        assert(quick[n + k] == id);
    }
    if top_ids(tasks).contains(id) {
        let k = choose|k: int| 0 <= k < top_ids(tasks).len() && top_ids(tasks)[k] == id;
        assert(quick[n + latest.len() + k] == id);
    }
}

proof fn lemma_prio_ranks(tasks: TasksView, n: nat)
    requires
        n <= tasks.len(),
    ensures
        forall|k: int|
            0 <= k < prio_ranks(tasks, n).len() ==> {
                let r = #[trigger] prio_ranks(tasks, n)[k];
                &&& 0 <= r.1.2 < n
                &&& r.1 == rank_of(tasks, r.1.2)
                &&& tasks[r.1.2].priority() == Some(r.0)
                &&& r.0 >= 35
            },
        forall|i: int|
            0 <= i < n ==> ((#[trigger] tasks[i]).priority() matches Some(p) ==> (p >= 35
                ==> prio_ranks(tasks, n).contains((p, rank_of(tasks, i))))),
    decreases n,
{
    if n > 0 {
        lemma_prio_ranks(tasks, (n - 1) as nat);
        let before = prio_ranks(tasks, (n - 1) as nat);
        let r = prio_ranks(tasks, n);
        assert forall|k: int| 0 <= k < r.len() implies {
            let x = #[trigger] r[k];
            &&& 0 <= x.1.2 < n
            &&& x.1 == rank_of(tasks, x.1.2)
            &&& tasks[x.1.2].priority() == Some(x.0)
            &&& x.0 >= 35
        } by {
            if k < before.len() {
                assert(r[k] == before[k]);
            }
        }
        assert forall|i: int| 0 <= i < n implies ((#[trigger] tasks[i]).priority() matches Some(p)
            ==> (p >= 35 ==> r.contains((p, rank_of(tasks, i))))) by {
            match tasks[i].priority() {
                Some(p) => {
                    if p >= 35 {
                        if i < n - 1 {
                            let k = choose|k: int|
                                0 <= k < before.len() && before[k] == (p, rank_of(tasks, i));
                            assert(r[k] == before[k]);
                        } else {
                            assert(r.last() == (p, rank_of(tasks, i)));
                        }
                    }
                },
                None => {},
            }
        }
    }
}

/// Tasks of a considerable priority are offered: three of them at most, each of priority 35 or
/// more, and none of a higher priority is left out.
pub proof fn the_most_important_tasks_are_offered(relay: RelayView, i: int, prio: u16)
    requires
        0 <= i < relay.tasks.len(),
        relay.tasks[i].priority() == Some(prio),
        prio >= 35,
    ensures
        ({
            let top = top_ids(relay.tasks);
            &&& top.len() <= 3
            &&& forall|k: int|
                0 <= k < top.len() ==> has_priority_from(relay.tasks, #[trigger] top[k], 35)
            &&& top.contains(relay.tasks[i].event.id) || (top.len() == 3 && forall|k: int|
                0 <= k < top.len() ==> has_priority_from(relay.tasks, #[trigger] top[k], prio))
        }),
{
    broadcast use vstd::seq_lib::group_to_multiset_ensures;

    let tasks = relay.tasks;
    let all = prio_ranks(tasks, tasks.len());
    lemma_prio_ranks(tasks, tasks.len());
    sorting_orders_and_keeps::<PrioRank>(all);
    let s = sorted::<PrioRank>(all);
    let top = top_ids(tasks);
    assert forall|k: int| 0 <= k < s.len() implies {
        let r = #[trigger] s[k];
        &&& 0 <= r.1.2 < tasks.len()
        &&& r.1 == rank_of(tasks, r.1.2)
        &&& tasks[r.1.2].priority() == Some(r.0)
        &&& r.0 >= 35
    } by {
        assert(s.contains(s[k]));
        assert(all.to_multiset().contains(s[k]));
        assert(all.contains(s[k]));
        let l = choose|l: int| 0 <= l < all.len() && all[l] == s[k];
        assert(all[l].0 >= 35);
    }
    let mine = (prio, rank_of(tasks, i));
    assert(tasks[i].priority() == Some(prio));
    assert(all.contains(mine));
    assert(all.to_multiset().contains(mine));
    assert(s.to_multiset().contains(mine));
    assert(s.contains(mine));
    let k = choose|k: int| 0 <= k < s.len() && s[k] == mine;
    assert forall|l: int| 0 <= l < top.len() implies has_priority_from(
        tasks,
        #[trigger] top[l],
        35,
    ) by {
        assert(s[l].0 >= 35);
        assert(tasks[s[l].1.2].event.id == top[l]);
    }
    if k < top.len() {
        assert(top[k] == tasks[i].event.id);
    } else {
        assert forall|l: int| 0 <= l < top.len() implies has_priority_from(
            tasks,
            #[trigger] top[l],
            prio,
        ) by {
            assert(PrioRank::leq(s[l], s[k]));
            assert(s[l].0 >= prio);
            assert(tasks[s[l].1.2].event.id == top[l]);
        }
    }
}

// ---------------------------------------------------------------------------
// Setting filters

proof fn lemma_updated_since(tasks: TasksView, at: Seq<int>, now: u64, time: u64)
    ensures
        updated_since(tasks, at, now, time) == ids_at(
            tasks,
            at.filter(|p: int| tasks[p].state_or_default(now).time > time),
        ),
    decreases at.len(),
{
    reveal(Seq::filter);
    let pred = |p: int| tasks[p].state_or_default(now).time > time;
    if at.len() > 0 {
        lemma_updated_since(tasks, at.drop_last(), now, time);
        let before = at.drop_last().filter(pred);
        assert(ids_at(tasks, before.push(at.last())) =~= ids_at(tasks, before).push(
            tasks[at.last()].event.id,
        ));
    } else {
        assert(ids_at(tasks, at.filter(pred)) =~= Seq::<EventId>::empty());
    }
}

/// A time filters for the tasks whose state was set after it, and a user for those of theirs: a
/// text that is both means the user.
pub proof fn a_user_or_time_is_filtered_by(
    relay: RelayView,
    text: Seq<char>,
    time: Option<u64>,
    clock: u64,
    keys: KeysView,
)
    ensures
        ({
            let users = found_users(relay.users, text);
            let now = now_of(clock);
            let after = relay.executed(CommandView::By(text), clock, keys, time).0;
            let listed = relay.filtered(now, keys, relay.position(clock), false);
            &&& users.len() > 0 ==> after.keys == users && after.view == relay.view
            &&& users.len() == 0 ==> after.keys == relay.keys && match time {
                Some(t) => after.view == ids_at(
                    relay.tasks,
                    listed.filter(|p: int| relay.tasks[p].state_or_default(now).time > t),
                ),
                None => after == relay,
            }
            &&& after.tasks == relay.tasks
            &&& after.history == relay.history
        }),
{
    let now = now_of(clock);
    let listed = relay.filtered(now, keys, relay.position(clock), false);
    match time {
        Some(t) => {
            lemma_updated_since(relay.tasks, listed, now, t);
        },
        None => {},
    }
}

/// The filters are what was asked for, and nothing but the filter changes.
pub proof fn a_filter_is_what_was_set(
    relay: RelayView,
    state: FilterView,
    prio: Option<u16>,
    clock: u64,
    keys: KeysView,
)
    ensures
        relay.executed(CommandView::States(state), clock, keys, None).0 == (RelayView {
            state,
            view: Seq::empty(),
            custom_time: None,
            ..relay
        }),
        relay.executed(CommandView::Priority(prio), clock, keys, None).0 == (RelayView {
            priority: prio,
            view: Seq::empty(),
            custom_time: None,
            ..relay
        }),
        ({
            let after = relay.executed(CommandView::ToggleKeys, clock, keys, None).0;
            after.keys == if relay.keys == relay.own_keys {
                Seq::<PublicKey>::empty()
            } else {
                relay.own_keys
            }
        }),
{
}

/// Asking for what is recent puts the tasks into view whose state was set in the last 80000
/// seconds.
pub proof fn recent_tasks_are_put_into_view(relay: RelayView, clock: u64, keys: KeysView)
    requires
        clock > 80_000,
    ensures
        ({
            let now = now_of(clock);
            let after = relay.executed(CommandView::Recent, clock, keys, None).0;
            &&& after.view == ids_at(
                relay.tasks,
                relay.filtered(now, keys, relay.position(clock), false).filter(
                    |p: int| relay.tasks[p].state_or_default(now).time > clock - 80_000,
                ),
            )
            &&& after.keys == relay.keys
        }),
{
    let now = now_of(clock);
    let at = relay.filtered(now, keys, relay.position(clock), false);
    let time = (clock - 80_000) as u64;
    lemma_updated_since(relay.tasks, at, now, time);
    let a = |p: int| relay.tasks[p].state_or_default(now).time > time;
    let b = |p: int| relay.tasks[p].state_or_default(now).time > clock - 80_000;
    lemma_same_filter(at, a, b);
}

proof fn lemma_same_filter(at: Seq<int>, a: spec_fn(int) -> bool, b: spec_fn(int) -> bool)
    requires
        forall|p: int| #[trigger] a(p) == b(p),
    ensures
        at.filter(a) == at.filter(b),
    decreases at.len(),
{
    reveal(Seq::filter);
    if at.len() > 0 {
        lemma_same_filter(at.drop_last(), a, b);
        assert(a(at.last()) == b(at.last()));
    }
}

// ---------------------------------------------------------------------------
// Depth

proof fn lemma_flat(
    relay: RelayView,
    now: u64,
    keys: KeysView,
    at: Seq<int>,
    fuel: nat,
)
    requires
        relay.view_depth == 0,
        !relay.recurse_activities,
    ensures
        relay.resolved_all(now, keys, at, true, 1, fuel) == at.filter(
            |p: int| relay.filter(relay.tasks[p], now),
        ),
    decreases at.len(),
{
    reveal(Seq::filter);
    if at.len() > 0 {
        lemma_flat(relay, now, keys, at.drop_last(), fuel);
        let before = at.drop_last().filter(|p: int| relay.filter(relay.tasks[p], now));
        let one = relay.resolved_one(now, keys, at.last(), true, 1, fuel);
        assert(relay.depth_below(relay.tasks[at.last()], now, true, 1) == 0);
        if relay.filter(relay.tasks[at.last()], now) {
            assert(one =~= seq![at.last()]);
            assert(before + one =~= before.push(at.last()));
        } else {
            assert(one =~= Seq::<int>::empty());
            assert(before + one =~= before);
        }
    } else {
        assert(at =~= Seq::<int>::empty());
    }
}

/// With a depth of a single level, what is in view are the children of the position that pass the
/// filters, in the order of their sort keys; with a search result, those of it that pass.
pub proof fn a_single_level_shows_the_children(relay: RelayView, clock: u64, keys: KeysView)
    requires
        relay.view_depth == 0,
        relay.search_depth == 1,
        !relay.recurse_activities,
    ensures
        ({
            let now = now_of(clock);
            let found = relay.known(relay.view);
            let from = if found.len() == 0 {
                children(relay.tasks, relay.position(clock))
            } else {
                found
            };
            relay.viewed(clock, keys) == sorted_places(from, keys).filter(
                |p: int| relay.filter(relay.tasks[p], now),
            )
        }),
{
    let now = now_of(clock);
    let found = relay.known(relay.view);
    let from = if found.len() == 0 {
        children(relay.tasks, relay.position(clock))
    } else {
        found
    };
    lemma_flat(relay, now, keys, sorted_places(from, keys), relay.tasks.len());
    assert(relay.resolved(now, keys, from, true, 1, relay.tasks.len()) == relay.resolved_all(
        now,
        keys,
        sorted_places(from, keys),
        true,
        1,
        relay.tasks.len(),
    ));
}

/// The search result in view is what was found, as far as it is known.
pub proof fn the_search_result_is_in_view(relay: RelayView, ids: Seq<EventId>)
    ensures
        relay.known(ids).len() == ids.filter(|id: EventId| has_task(relay.tasks, id)).len(),
        forall|k: int|
            0 <= k < relay.known(ids).len() ==> #[trigger] relay.known(ids)[k] == task_at(
                relay.tasks,
                ids.filter(|id: EventId| has_task(relay.tasks, id))[k],
            ),
    decreases ids.len(),
{
    reveal(Seq::filter);
    let pred = |id: EventId| has_task(relay.tasks, id);
    if ids.len() > 0 {
        let rest = ids.drop_last();
        the_search_result_is_in_view(relay, rest);
        let before = relay.known(rest);
        let r = relay.known(ids);
        let f = ids.filter(pred);
        assert forall|k: int| 0 <= k < r.len() implies #[trigger] r[k] == task_at(
            relay.tasks,
            f[k],
        ) by {
            if k < before.len() {
                assert(r[k] == before[k]);
                assert(f[k] == rest.filter(pred)[k]);
            }
        }
    }
}

// ---------------------------------------------------------------------------
// Hashtags in use

/// The hashtags that are listed are those of all tasks that are not closed.
pub proof fn the_hashtags_of_unclosed_tasks_are_listed(
    tasks: TasksView,
    now: u64,
    h: Seq<char>,
)
    ensures
        hashtags_of(tasks, now).contains(h) <==> exists|i: int|
            0 <= i < tasks.len() && (#[trigger] tasks[i]).pure_state(now) != State::Closed
                && tasks[i].hashtags().contains(h),
    decreases tasks.len(),
{
    if tasks.len() > 0 {
        let rest = tasks.drop_last();
        the_hashtags_of_unclosed_tasks_are_listed(rest, now, h);
        let before = hashtags_of(rest, now);
        let own = tasks.last().hashtags();
        let r = hashtags_of(tasks, now);
        if r.contains(h) {
            let k = choose|k: int| 0 <= k < r.len() && r[k] == h;
            if k < before.len() {
                assert(before[k] == h);
                let i = choose|i: int|
                    0 <= i < rest.len() && (#[trigger] rest[i]).pure_state(now) != State::Closed
                        && rest[i].hashtags().contains(h);
                assert(tasks[i] == rest[i]);
            } else {
                assert(own[k - before.len()] == h);
                assert(tasks[tasks.len() - 1] == tasks.last());
            }
        }
        if exists|i: int|
            0 <= i < tasks.len() && (#[trigger] tasks[i]).pure_state(now) != State::Closed
                && tasks[i].hashtags().contains(h) {
            let i = choose|i: int|
                0 <= i < tasks.len() && (#[trigger] tasks[i]).pure_state(now) != State::Closed
                    && tasks[i].hashtags().contains(h);
            if i < rest.len() {
                assert(rest[i] == tasks[i]);
                let k = choose|k: int| 0 <= k < before.len() && before[k] == h;
                assert(r[k] == h);
            } else {
                let k = choose|k: int| 0 <= k < own.len() && own[k] == h;
                assert(r[before.len() + k] == h);
            }
        }
    }
}

// ---------------------------------------------------------------------------
// Deeper views

proof fn lemma_found_instead(
    relay: RelayView,
    now: u64,
    keys: KeysView,
    at: Seq<int>,
    depth: nat,
    fuel: nat,
    p: int,
    q: int,
)
    requires
        forall|i: int| 0 <= i < at.len() ==> 0 <= #[trigger] at[i] < relay.tasks.len(),
        at.contains(p),
        0 <= q < relay.tasks.len(),
        relay.tasks[q].parent() == Some(relay.tasks[p].event.id),
        relay.state.matches(relay.tasks[p], now),
        relay.filter(relay.tasks[q], now),
        fuel > 0,
        relay.depth_below(relay.tasks[p], now, true, depth) > 0,
    ensures
        ({
            let r = relay.resolved_all(now, keys, at, true, depth, fuel);
            exists|i: int| 0 <= i < r.len() && is_at_or_below(relay.tasks, #[trigger] r[i], seq![q])
        }),
    decreases at.len(),
{
    let tasks = relay.tasks;
    let rest = at.drop_last();
    let r = relay.resolved_all(now, keys, at, true, depth, fuel);
    let a = relay.resolved_all(now, keys, rest, true, depth, fuel);
    let b = relay.resolved_one(now, keys, at.last(), true, depth, fuel);
    assert(r == a + b);
    if at.last() == p {
        let under = children(tasks, Some(tasks[p].event.id));
        let ordered = sorted_places(under, keys);
        let below = relay.depth_below(tasks[p], now, true, depth);
        lemma_roots(relay, keys, Some(tasks[p].event.id));
        lemma_children(tasks, Some(tasks[p].event.id));
        assert(ordered.contains(q));
        lemma_resolved_keeps(relay, now, keys, ordered, true, below, (fuel - 1) as nat, q);
        let found = relay.resolved_all(now, keys, ordered, true, below, (fuel - 1) as nat);
        assert(relay.resolved(now, keys, under, true, below, (fuel - 1) as nat) == found);
        let i = choose|i: int|
            0 <= i < found.len() && is_at_or_below(tasks, #[trigger] found[i], seq![q]);
        assert(b == found);
        assert(r[a.len() + i] == found[i]);
    } else {
        let k = choose|k: int| 0 <= k < at.len() && at[k] == p;
        assert(rest[k] == p);
        assert forall|i: int| 0 <= i < rest.len() implies 0 <= #[trigger] rest[i] < tasks.len() by {
            assert(rest[i] == at[i]);
        }
        lemma_found_instead(relay, now, keys, rest, depth, fuel, p, q);
        let i = choose|i: int| 0 <= i < a.len() && is_at_or_below(tasks, #[trigger] a[i], seq![q]);
        assert(r[i] == a[i]);
    }
}

/// With a view of more than one level, a subtask of a child that passes the filters is in view, or
/// something below it is: each level that is asked for counts.
pub proof fn a_deeper_view_shows_subtasks(
    relay: RelayView,
    clock: u64,
    keys: KeysView,
    p: int,
    q: int,
)
    requires
        relay.view_depth > 0,
        relay.search_depth > 0,
        relay.view.len() == 0,
        !relay.recurse_activities,
        0 <= p < relay.tasks.len(),
        0 <= q < relay.tasks.len(),
        relay.tasks[p].parent() == relay.position(clock),
        relay.tasks[q].parent() == Some(relay.tasks[p].event.id),
        relay.state.matches(relay.tasks[p], now_of(clock)),
        relay.filter(relay.tasks[q], now_of(clock)),
    ensures
        exists|i: int|
            0 <= i < relay.viewed(clock, keys).len() && is_at_or_below(
                relay.tasks,
                #[trigger] relay.viewed(clock, keys)[i],
                seq![q],
            ),
{
    let position = relay.position(clock);
    let roots = children(relay.tasks, position);
    let ordered = sorted_places(roots, keys);
    let depth = relay.depth_to_search();
    lemma_roots(relay, keys, position);
    lemma_children(relay.tasks, position);
    assert(ordered.contains(p));
    lemma_found_instead(relay, now_of(clock), keys, ordered, depth, relay.tasks.len(), p, q);
    let r = relay.resolved_all(now_of(clock), keys, ordered, true, depth, relay.tasks.len());
    assert(relay.viewed(clock, keys) == r);
    let i = choose|i: int|
        0 <= i < r.len() && is_at_or_below(relay.tasks, #[trigger] r[i], seq![q]);
    assert(is_at_or_below(relay.tasks, relay.viewed(clock, keys)[i], seq![q]));
}

/// Where nothing is found and hashtags are filtered by, the search goes deeper: a subtask of a
/// child that passes the filters is found then, or something below it is.
pub proof fn hashtags_are_looked_for_deeper(
    relay: RelayView,
    now: u64,
    keys: KeysView,
    position: Option<EventId>,
    sparse: bool,
    p: int,
    q: int,
)
    requires
        relay.tags.len() > 0,
        relay.resolve(
            now,
            keys,
            children(relay.tasks, position),
            sparse,
            relay.depth_to_search(),
        ).len() == 0,
        !relay.recurse_activities,
        0 <= p < relay.tasks.len(),
        0 <= q < relay.tasks.len(),
        relay.tasks[p].parent() == position,
        relay.tasks[q].parent() == Some(relay.tasks[p].event.id),
        relay.state.matches(relay.tasks[p], now),
        !relay.filter(relay.tasks[p], now),
        relay.filter(relay.tasks[q], now),
    ensures
        exists|i: int|
            0 <= i < relay.found_below(now, keys, position, sparse).len() && is_at_or_below(
                relay.tasks,
                #[trigger] relay.found_below(now, keys, position, sparse)[i],
                seq![q],
            ),
{
    let roots = children(relay.tasks, position);
    let ordered = sorted_places(roots, keys);
    lemma_roots(relay, keys, position);
    lemma_children(relay.tasks, position);
    assert(roots.contains(p));
    assert(ordered.contains(p));
    lemma_found_instead(relay, now, keys, ordered, 9, relay.tasks.len(), p, q);
    let r = relay.resolved_all(now, keys, ordered, true, 9, relay.tasks.len());
    assert(relay.found_below(now, keys, position, sparse) == r);
    let i = choose|i: int|
        0 <= i < r.len() && is_at_or_below(relay.tasks, #[trigger] r[i], seq![q]);
    assert(is_at_or_below(
        relay.tasks,
        relay.found_below(now, keys, position, sparse)[i],
        seq![q],
    ));
}

// ---------------------------------------------------------------------------
// What is offered

proof fn lemma_offered_all(
    relay: RelayView,
    now: u64,
    ids: Seq<EventId>,
    listed: Seq<EventId>,
    id: EventId,
)
    requires
        ids.contains(id),
        !listed.contains(id),
        has_task(relay.tasks, id),
        relay.filter(relay.tasks[task_at(relay.tasks, id)], now),
    ensures
        relay.offered(now, ids, listed).contains(task_at(relay.tasks, id)),
    decreases ids.len(),
{
    let rest = ids.drop_last();
    let r = relay.offered(now, ids, listed);
    if ids.last() == id {
        assert(r.last() == task_at(relay.tasks, id));
    } else {
        let k = choose|k: int| 0 <= k < ids.len() && ids[k] == id;
        assert(rest[k] == id);
        lemma_offered_all(relay, now, rest, listed, id);
        let before = relay.offered(now, rest, listed);
        let j = choose|j: int| 0 <= j < before.len() && before[j] == task_at(relay.tasks, id);
        assert(r[j] == before[j]);
    }
}

proof fn lemma_deduped_keeps(at: Seq<int>, p: int)
    requires
        at.contains(p),
    ensures
        deduped(at).contains(p),
    decreases at.len(),
{
    let rest = at.drop_last();
    let before = deduped(rest);
    let r = deduped(at);
    if at.last() == p {
        if before.len() > 0 && before.last() == p {
            assert(r[before.len() - 1] == p);
        } else {
            assert(r.last() == p);
        }
    } else {
        let k = choose|k: int| 0 <= k < at.len() && at[k] == p;
        assert(rest[k] == p);
        lemma_deduped_keeps(rest, p);
        let j = choose|j: int| 0 <= j < before.len() && before[j] == p;
        assert(r[j] == p);
    }
}

/// Everything for quick access that passes the filters is offered, unless it is shown already or
/// lies above what is shown.
pub proof fn quick_access_leaves_nothing_out(
    relay: RelayView,
    clock: u64,
    keys: KeysView,
    visible: Seq<int>,
    id: EventId,
)
    requires
        relay.quick_access().contains(id),
        has_task(relay.tasks, id),
        relay.filter(relay.tasks[task_at(relay.tasks, id)], now_of(clock)),
        !relay.shown_ids(clock, visible).contains(id),
    ensures
        relay.quick_places(clock, keys, visible).contains(task_at(relay.tasks, id)),
{
    let listed = relay.shown_ids(clock, visible);
    let offered = relay.offered(now_of(clock), relay.quick_access(), listed);
    lemma_offered_all(relay, now_of(clock), relay.quick_access(), listed, id);
    tasks_are_sorted_by_their_keys(offered, keys);
    lemma_deduped_keeps(sorted_places(offered, keys), task_at(relay.tasks, id));
}

proof fn lemma_tree_ids(tasks: TasksView, at: Seq<int>, i: int, k: int)
    requires
        0 <= i < at.len(),
        0 <= k < ancestors(tasks, Some(tasks[at[i]].event.id)).len(),
    ensures
        tree_ids(tasks, at).contains(
            tasks[ancestors(tasks, Some(tasks[at[i]].event.id))[k]].event.id,
        ),
    decreases at.len(),
{
    let rest = at.drop_last();
    let before = tree_ids(tasks, rest);
    let own = ids_at(tasks, ancestors(tasks, Some(tasks[at.last()].event.id)));
    let r = tree_ids(tasks, at);
    assert(r == before + own);
    let id = tasks[ancestors(tasks, Some(tasks[at[i]].event.id))[k]].event.id;
    if i < rest.len() {
        assert(rest[i] == at[i]);
        lemma_tree_ids(tasks, rest, i, k);
        let j = choose|j: int| 0 <= j < before.len() && before[j] == id;
        assert(r[j] == id);
    } else {
        assert(own[k] == id);
        assert(r[before.len() + k] == id);
    }
}

/// What is shown, and all that lies above it, is not offered again; nor is the position.
pub proof fn what_is_shown_is_not_offered_again(
    relay: RelayView,
    clock: u64,
    visible: Seq<int>,
    i: int,
    chain: Seq<int>,
)
    requires
        ids_unique(relay.tasks),
        0 <= i < visible.len(),
        is_chain(relay.tasks, chain),
        0 < chain.len() <= relay.tasks.len(),
        chain[0] == visible[i],
    ensures
        relay.shown_ids(clock, visible).contains(relay.tasks[chain.last()].event.id),
        relay.position(clock) matches Some(id) ==> relay.shown_ids(clock, visible).contains(id),
{
    let tasks = relay.tasks;
    let p = visible[i];
    assert(0 <= chain[0] < tasks.len());
    above_a_task_are_its_parents(tasks, p, chain);
    let above = ancestors(tasks, Some(tasks[p].event.id));
    let k = chain.len() - 1;
    assert(above.take(chain.len() as int)[k] == above[k]);
    assert(above[k] == chain.last());
    lemma_tree_ids(tasks, visible, i, k);
    let ids = tree_ids(tasks, visible);
    let shown = relay.shown_ids(clock, visible);
    let id = tasks[chain.last()].event.id;
    let j = choose|j: int| 0 <= j < ids.len() && ids[j] == id;
    assert(shown[j] == id);
    match relay.position(clock) {
        Some(pos) => {
            assert(shown.last() == pos);
        },
        None => {},
    }
}

// ---------------------------------------------------------------------------
// Progress

/// A task that is done counts as complete, a closed or unknown one not at all, and any other by
/// what its subtasks have come to.
pub proof fn progress_comes_from_subtasks(relay: RelayView, id: EventId, now: u64)
    ensures
        relay.progress_step(id, now) == match task_of(relay.tasks, id) {
            None => ProgressStepView::Unknown,
            Some(t) => if t.pure_state(now) == State::Done {
                ProgressStepView::Complete
            } else if t.pure_state(now) == State::Closed {
                ProgressStepView::Unknown
            } else {
                ProgressStepView::Average(
                    ids_at(relay.tasks, children(relay.tasks, Some(id))),
                )
            },
        },
{
}

} // verus!
