//! What holds of filters, of the tasks in view and of the history.

use crate::hashtag::{hashtag_order_agrees_with_equality, same_hashtag, Hashtag};
use crate::lists::{
    has_tie, lemma_contains_placed, sorted, sorting_orders_and_keeps, ties, with_member,
};
use crate::nostr::{EventId, EventView};
use crate::task::TaskView;
use crate::tasks::context::{not_beginning, past_events, toggled, without_first, without_hashtag};
use crate::tasks::filter::{has_hashtag, keyed, sorted_places, Keyed, KeysView};
use crate::tasks::order::chronological;
use crate::tasks::selection::deduped;
use crate::tasks::task_map::{children, lemma_task_found};
use crate::tasks::{now_of, RelayView};
use crate::text::{begins_with, lower, trimmed};
use vstd::prelude::*;

verus! {

// ---------------------------------------------------------------------------
// Tasks in view

impl RelayView {
    /// Whether the tasks at all of the given places pass the filters.
    pub open spec fn all_pass(self, now: u64, at: Seq<int>) -> bool {
        forall|i: int| 0 <= i < at.len() ==> self.filter(self.tasks[#[trigger] at[i]], now)
    }
}

proof fn lemma_pass_together(relay: RelayView, now: u64, a: Seq<int>, b: Seq<int>)
    requires
        relay.all_pass(now, a),
        relay.all_pass(now, b),
    ensures
        relay.all_pass(now, a + b),
{
    let r = a + b;
    assert forall|i: int| 0 <= i < r.len() implies relay.filter(relay.tasks[#[trigger] r[i]], now) by {
        if i < a.len() {
            assert(r[i] == a[i]);
        } else {
            assert(r[i] == b[i - a.len()]);
        }
    }
}

proof fn lemma_resolved_passes(
    relay: RelayView,
    now: u64,
    keys: KeysView,
    at: Seq<int>,
    depth: nat,
    fuel: nat,
)
    ensures
        relay.all_pass(now, relay.resolved_all(now, keys, at, true, depth, fuel)),
    decreases fuel, at.len(),
{
    if at.len() > 0 {
        lemma_resolved_passes(relay, now, keys, at.drop_last(), depth, fuel);
        let a = relay.resolved_all(now, keys, at.drop_last(), true, depth, fuel);
        let b = relay.resolved_one(now, keys, at.last(), true, depth, fuel);
        let task = relay.tasks[at.last()];
        let below = relay.depth_below(task, now, true, depth);
        if below > 0 && fuel > 0 {
            let under = children(relay.tasks, Some(task.event.id));
            let ordered = sorted_places(under, keys);
            lemma_resolved_passes(relay, now, keys, ordered, below, (fuel - 1) as nat);
            assert(relay.resolved(now, keys, under, true, below, (fuel - 1) as nat)
                == relay.resolved_all(now, keys, ordered, true, below, (fuel - 1) as nat));
        }
        assert(relay.all_pass(now, b));
        lemma_pass_together(relay, now, a, b);
        assert(relay.resolved_all(now, keys, at, true, depth, fuel) == a + b);
    }
}

/// Every task in view passes the filters.
pub proof fn what_is_in_view_passes_the_filters(relay: RelayView, clock: u64, keys: KeysView)
    ensures
        relay.all_pass(now_of(clock), relay.viewed(clock, keys)),
{
    let now = now_of(clock);
    let view = relay.known(relay.view);
    let roots = if relay.search_depth > 0 && view.len() == 0 {
        children(relay.tasks, relay.position(clock))
    } else {
        view
    };
    let depth = if relay.search_depth > 0 && view.len() == 0 {
        relay.depth_to_search()
    } else if relay.view_depth < usize::MAX {
        (relay.view_depth + 1) as nat
    } else {
        usize::MAX as nat
    };
    let ordered = sorted_places(roots, keys);
    lemma_resolved_passes(relay, now, keys, ordered, depth, relay.tasks.len());
    assert(relay.resolved(now, keys, roots, true, depth, relay.tasks.len()) == relay.resolved_all(
        now,
        keys,
        ordered,
        true,
        depth,
        relay.tasks.len(),
    ));
}

proof fn lemma_sorted_places_from(at: Seq<int>, keys: KeysView)
    ensures
        forall|i: int|
            0 <= i < sorted_places(at, keys).len() ==> at.contains(
                #[trigger] sorted_places(at, keys)[i],
            ),
{
    broadcast use vstd::seq_lib::group_to_multiset_ensures;

    let s = keyed(at, keys);
    sorting_orders_and_keeps::<Keyed>(s);
    let r = sorted::<Keyed>(s);
    assert forall|i: int| 0 <= i < sorted_places(at, keys).len() implies at.contains(
        #[trigger] sorted_places(at, keys)[i],
    ) by {
        assert(r.contains(r[i]));
        assert(r.to_multiset().contains(r[i]));
        assert(s.to_multiset().contains(r[i]));
        assert(s.contains(r[i]));
        let k = choose|k: int| 0 <= k < s.len() && s[k] == r[i];
        assert(at[k] == r[i].1);
    }
}

proof fn lemma_deduped_from(at: Seq<int>)
    ensures
        forall|i: int| 0 <= i < deduped(at).len() ==> at.contains(#[trigger] deduped(at)[i]),
    decreases at.len(),
{
    if at.len() > 0 {
        let rest = at.drop_last();
        lemma_deduped_from(rest);
        let p = deduped(rest);
        let r = deduped(at);
        assert forall|i: int| 0 <= i < r.len() implies at.contains(#[trigger] r[i]) by {
            if i < p.len() {
                assert(r[i] == p[i]);
                let k = choose|k: int| 0 <= k < rest.len() && rest[k] == p[i];
                assert(at[k] == r[i]);
            } else {
                assert(at[at.len() - 1] == r[i]);
            }
        }
    }
}

proof fn lemma_offered(relay: RelayView, now: u64, ids: Seq<EventId>, listed: Seq<EventId>)
    ensures
        forall|i: int|
            0 <= i < relay.offered(now, ids, listed).len() ==> {
                let p = #[trigger] relay.offered(now, ids, listed)[i];
                &&& 0 <= p < relay.tasks.len()
                &&& relay.filter(relay.tasks[p], now)
                &&& !listed.contains(relay.tasks[p].event.id)
            },
    decreases ids.len(),
{
    if ids.len() > 0 {
        lemma_offered(relay, now, ids.drop_last(), listed);
        lemma_task_found(relay.tasks, ids.last());
        let before = relay.offered(now, ids.drop_last(), listed);
        let r = relay.offered(now, ids, listed);
        assert forall|i: int| 0 <= i < r.len() implies {
            let p = #[trigger] r[i];
            &&& 0 <= p < relay.tasks.len()
            &&& relay.filter(relay.tasks[p], now)
            &&& !listed.contains(relay.tasks[p].event.id)
        } by {
            if i < before.len() {
                assert(r[i] == before[i]);
            }
        }
    }
}

/// What is offered for quick access passes the filters and is neither in view nor above it.
pub proof fn quick_access_adds_to_the_view(
    relay: RelayView,
    clock: u64,
    keys: KeysView,
    visible: Seq<int>,
)
    ensures
        forall|i: int|
            0 <= i < relay.quick_places(clock, keys, visible).len() ==> {
                let p = #[trigger] relay.quick_places(clock, keys, visible)[i];
                &&& 0 <= p < relay.tasks.len()
                &&& relay.filter(relay.tasks[p], now_of(clock))
                &&& !relay.shown_ids(clock, visible).contains(relay.tasks[p].event.id)
            },
{
    let listed = relay.shown_ids(clock, visible);
    let offered = relay.offered(now_of(clock), relay.quick_access(), listed);
    lemma_offered(relay, now_of(clock), relay.quick_access(), listed);
    lemma_sorted_places_from(offered, keys);
    let ordered = sorted_places(offered, keys);
    lemma_deduped_from(ordered);
    let r = relay.quick_places(clock, keys, visible);
    assert forall|i: int| 0 <= i < r.len() implies {
        let p = #[trigger] r[i];
        &&& 0 <= p < relay.tasks.len()
        &&& relay.filter(relay.tasks[p], now_of(clock))
        &&& !listed.contains(relay.tasks[p].event.id)
    } by {
        assert(ordered.contains(r[i]));
        let k = choose|k: int| 0 <= k < ordered.len() && ordered[k] == r[i];
        assert(offered.contains(ordered[k]));
        let l = choose|l: int| 0 <= l < offered.len() && offered[l] == ordered[k];
        assert(offered[l] == r[i]);
    }
}

// ---------------------------------------------------------------------------
// History

/// The places that the user was at are listed from the latest back, and none is yet to come.
pub proof fn the_past_is_latest_first(events: Seq<EventView>, now: u64, from: nat)
    requires
        chronological(events),
    ensures
        ({
            let past = past_events(events, now, from);
            &&& forall|i: int|
                0 <= i < past.len() ==> (#[trigger] past[i]).created_at <= now && events.contains(
                    past[i],
                )
            &&& forall|i: int, j: int|
                0 <= i < j < past.len() ==> (#[trigger] past[i]).created_at > (
                #[trigger] past[j]).created_at
            &&& forall|i: int, k: int|
                0 <= i < past.len() && 0 <= k < from && k < events.len() ==> (
                #[trigger] past[i]).created_at > (#[trigger] events[k]).created_at
        }),
    decreases events.len() - from,
{
    if from < events.len() {
        the_past_is_latest_first(events, now, from + 1);
        let later = past_events(events, now, from + 1);
        let past = past_events(events, now, from);
        let e = events[from as int];
        assert forall|i: int| 0 <= i < later.len() implies (#[trigger] later[i]).created_at
            > e.created_at by {
            assert(later[i].created_at > events[from as int].created_at);
        }
        if later.len() > 0 {
            assert(later[0].created_at > e.created_at);
        }
        assert forall|i: int| 0 <= i < past.len() implies (#[trigger] past[i]).created_at <= now
            && events.contains(past[i]) by {
            if i < later.len() {
                assert(past[i] == later[i]);
            }
        }
        assert forall|i: int, j: int| 0 <= i < j < past.len() implies (
        #[trigger] past[i]).created_at > (#[trigger] past[j]).created_at by {
            assert(past[i] == later[i]);
            if j < later.len() {
                assert(past[j] == later[j]);
            }
        }
        assert forall|i: int, k: int|
            0 <= i < past.len() && 0 <= k < from && k < events.len() implies (
        #[trigger] past[i]).created_at > (#[trigger] events[k]).created_at by {
            if i < later.len() {
                assert(past[i] == later[i]);
                assert(later[i].created_at > events[k].created_at);
            }
        }
    }
}

// ---------------------------------------------------------------------------
// Tags

proof fn lemma_without_hashtag(tags: Seq<Seq<char>>, tag: Seq<char>)
    ensures
        !has_hashtag(without_hashtag(tags, tag), tag),
    decreases tags.len(),
{
    if tags.len() > 0 {
        lemma_without_hashtag(tags.drop_last(), tag);
        let before = without_hashtag(tags.drop_last(), tag);
        let r = without_hashtag(tags, tag);
        assert forall|i: int| 0 <= i < r.len() implies !same_hashtag(#[trigger] r[i], tag) by {
            if i < before.len() {
                assert(r[i] == before[i]);
            }
        }
    }
}

/// A tag that is added to the filter is filtered by, and no longer filtered out.
pub proof fn an_added_tag_is_filtered_by(relay: RelayView, tag: Seq<char>)
    ensures
        has_hashtag(relay.tag_added(tag).tags, trimmed(tag)),
        !has_hashtag(relay.tag_added(tag).tags_excluded, trimmed(tag)),
{
    let t = trimmed(tag);
    lemma_without_hashtag(relay.tags_excluded, t);
    let r = with_member::<Hashtag>(relay.tags, t);
    if has_tie::<Hashtag>(relay.tags, t) {
        let i = choose|i: int| 0 <= i < relay.tags.len() && ties::<Hashtag>(#[trigger] relay.tags[i], t);
        hashtag_order_agrees_with_equality(relay.tags[i], t);
        assert(same_hashtag(r[i], t));
    } else {
        lemma_contains_placed::<Hashtag>(relay.tags, t, t);
        let i = choose|i: int| 0 <= i < r.len() && r[i] == t;
        assert(same_hashtag(r[i], t));
    }
}

proof fn lemma_not_beginning(tags: Seq<Seq<char>>, text: Seq<char>)
    ensures
        forall|i: int|
            0 <= i < not_beginning(tags, text).len() ==> !begins_with(
                lower(#[trigger] not_beginning(tags, text)[i]),
                lower(text),
            ),
        not_beginning(tags, text).len() <= tags.len(),
        not_beginning(tags, text).len() == tags.len() ==> not_beginning(tags, text) == tags,
    decreases tags.len(),
{
    if tags.len() > 0 {
        let rest = tags.drop_last();
        lemma_not_beginning(rest, text);
        let before = not_beginning(rest, text);
        let r = not_beginning(tags, text);
        assert forall|i: int| 0 <= i < r.len() implies !begins_with(
            lower(#[trigger] r[i]),
            lower(text),
        ) by {
            if i < before.len() {
                assert(r[i] == before[i]);
            }
        }
        assert(rest.push(tags.last()) =~= tags);
    } else {
        assert(tags =~= Seq::<Seq<char>>::empty());
    }
}

/// After a tag is removed from the filter, none that begins with it is filtered by. Where none
/// was, the tag is filtered out.
pub proof fn a_removed_tag_is_not_filtered_by(relay: RelayView, tag: Seq<char>)
    ensures
        forall|i: int|
            0 <= i < relay.tag_removed(tag).tags.len() ==> !begins_with(
                lower(#[trigger] relay.tag_removed(tag).tags[i]),
                lower(tag),
            ),
        relay.tag_removed(tag).tags == relay.tags ==> has_hashtag(
            relay.tag_removed(tag).tags_excluded,
            trimmed(tag),
        ),
{
    let t = trimmed(tag);
    lemma_not_beginning(relay.tags, tag);
    let kept = not_beginning(relay.tags, tag);
    if kept.len() == relay.tags.len() {
        let r = with_member::<Hashtag>(relay.tags_excluded, t);
        if has_tie::<Hashtag>(relay.tags_excluded, t) {
            let i = choose|i: int|
                0 <= i < relay.tags_excluded.len() && ties::<Hashtag>(
                    #[trigger] relay.tags_excluded[i],
                    t,
                );
            hashtag_order_agrees_with_equality(relay.tags_excluded[i], t);
            assert(same_hashtag(r[i], t));
        } else {
            lemma_contains_placed::<Hashtag>(relay.tags_excluded, t, t);
            let i = choose|i: int| 0 <= i < r.len() && r[i] == t;
            assert(same_hashtag(r[i], t));
        }
    }
}

proof fn lemma_others_stay(tags: Seq<Seq<char>>, text: Seq<char>, i: int)
    requires
        0 <= i < tags.len(),
    ensures
        !begins_with(lower(tags[i]), lower(text)) ==> not_beginning(tags, text).contains(tags[i]),
        !same_hashtag(tags[i], text) ==> without_hashtag(tags, text).contains(tags[i]),
    decreases tags.len(),
{
    let rest = tags.drop_last();
    let a = not_beginning(tags, text);
    let b = without_hashtag(tags, text);
    if i < rest.len() {
        assert(rest[i] == tags[i]);
        lemma_others_stay(rest, text, i);
        if !begins_with(lower(tags[i]), lower(text)) {
            let before = not_beginning(rest, text);
            let k = choose|k: int| 0 <= k < before.len() && before[k] == tags[i];
            assert(a[k] == tags[i]);
        }
        if !same_hashtag(tags[i], text) {
            let before = without_hashtag(rest, text);
            let k = choose|k: int| 0 <= k < before.len() && before[k] == tags[i];
            assert(b[k] == tags[i]);
        }
    } else {
        if !begins_with(lower(tags[i]), lower(text)) {
            assert(a.last() == tags[i]);
        }
        if !same_hashtag(tags[i], text) {
            assert(b.last() == tags[i]);
        }
    }
}

/// Adding or removing a tag leaves all other tags: what was filtered by, or filtered out, still
/// is.
pub proof fn other_tags_stay_filtered_by(relay: RelayView, tag: Seq<char>, i: int, j: int)
    ensures
        0 <= i < relay.tags.len() ==> relay.tag_added(tag).tags.contains(relay.tags[i]),
        0 <= i < relay.tags.len() && !begins_with(lower(relay.tags[i]), lower(tag))
            ==> relay.tag_removed(tag).tags.contains(relay.tags[i]),
        0 <= j < relay.tags_excluded.len() ==> relay.tag_removed(tag).tags_excluded.contains(
            relay.tags_excluded[j],
        ),
        0 <= j < relay.tags_excluded.len() && lower(relay.tags_excluded[j]) != lower(trimmed(tag))
            ==> relay.tag_added(tag).tags_excluded.contains(relay.tags_excluded[j]),
{
    let t = trimmed(tag);
    if 0 <= i < relay.tags.len() {
        let x = relay.tags[i];
        assert(relay.tags.contains(x));
        if !has_tie::<Hashtag>(relay.tags, t) {
            lemma_contains_placed::<Hashtag>(relay.tags, t, x);
        }
        lemma_others_stay(relay.tags, tag, i);
        lemma_not_beginning(relay.tags, tag);
    }
    if 0 <= j < relay.tags_excluded.len() {
        let x = relay.tags_excluded[j];
        assert(relay.tags_excluded.contains(x));
        if !has_tie::<Hashtag>(relay.tags_excluded, t) {
            lemma_contains_placed::<Hashtag>(relay.tags_excluded, t, x);
        }
        lemma_others_stay(relay.tags_excluded, t, j);
    }
}

/// Without filters the prompt shows none, and every open task of one's own and every activity
/// passes.
pub proof fn cleared_filters_filter_nothing(relay: RelayView, task: TaskView, now: u64)
    ensures
        relay.filters_cleared().prompt_suffix() == Seq::<char>::empty(),
        relay.filters_cleared().filter(task, now) == (task.pure_state(now).open()
            && relay.filters_cleared().matches_keys(task)),
        relay.filters_cleared().pubkey_text() is None || relay.own_keys.len() == 0,
{
    let cleared = relay.filters_cleared();
    reveal_strlit("");
    assert(cleared.prompt_suffix() =~= Seq::<char>::empty());
}

// ---------------------------------------------------------------------------
// Bookmarks

proof fn lemma_without_first(ids: Seq<EventId>, id: EventId)
    requires
        ids.no_duplicates(),
    ensures
        !without_first(ids, id).contains(id),
        forall|x: EventId|
            x != id ==> #[trigger] without_first(ids, id).contains(x) == ids.contains(x),
        without_first(ids, id).no_duplicates(),
    decreases ids.len(),
{
    if ids.len() > 0 {
        let rest = ids.drop_first();
        assert(rest.no_duplicates());
        assert(ids =~= seq![ids[0]] + rest);
        if ids[0] == id {
            assert(!rest.contains(id)) by {
                if rest.contains(id) {
                    let k = choose|k: int| 0 <= k < rest.len() && rest[k] == id;
                    assert(ids[k + 1] == ids[0]);
                }
            }
            assert forall|x: EventId| x != id implies #[trigger] without_first(ids, id).contains(x)
                == ids.contains(x) by {
                if ids.contains(x) {
                    let k = choose|k: int| 0 <= k < ids.len() && ids[k] == x;
                    assert(rest[k - 1] == x);
                }
                if rest.contains(x) {
                    let k = choose|k: int| 0 <= k < rest.len() && rest[k] == x;
                    assert(ids[k + 1] == x);
                }
            }
        } else {
            lemma_without_first(rest, id);
            let p = without_first(rest, id);
            let r = without_first(ids, id);
            assert(r =~= seq![ids[0]] + p);
            assert forall|x: EventId| #[trigger] r.contains(x) == (x == ids[0] || p.contains(x)) by {
                if p.contains(x) {
                    let k = choose|k: int| 0 <= k < p.len() && p[k] == x;
                    assert(r[k + 1] == x);
                }
                if x == ids[0] {
                    assert(r[0] == x);
                }
                if r.contains(x) {
                    let k = choose|k: int| 0 <= k < r.len() && r[k] == x;
                    if k > 0 {
                        assert(p[k - 1] == x);
                    }
                }
            }
            assert forall|x: EventId| #[trigger] ids.contains(x) == (x == ids[0] || rest.contains(
                x,
            )) by {
                if rest.contains(x) {
                    let k = choose|k: int| 0 <= k < rest.len() && rest[k] == x;
                    assert(ids[k + 1] == x);
                }
                if x == ids[0] {
                    assert(ids[0] == x);
                }
                if ids.contains(x) {
                    let k = choose|k: int| 0 <= k < ids.len() && ids[k] == x;
                    if k > 0 {
                        assert(rest[k - 1] == x);
                    }
                }
            }
            assert(!rest.contains(ids[0])) by {
                if rest.contains(ids[0]) {
                    let k = choose|k: int| 0 <= k < rest.len() && rest[k] == ids[0];
                    assert(ids[k + 1] == ids[0]);
                }
            }
            assert(!p.contains(ids[0]));
            assert forall|i: int, j: int| 0 <= i < r.len() && 0 <= j < r.len() && i != j implies r[i]
                != r[j] by {
                if i > 0 && j > 0 {
                    assert(p[i - 1] != p[j - 1]);
                } else if i == 0 {
                    assert(p.contains(p[j - 1]));
                } else {
                    assert(p.contains(p[i - 1]));
                }
            }
        }
    }
}

/// Toggling a bookmark sets it or takes it off and leaves the others.
pub proof fn toggling_changes_one_bookmark(ids: Seq<EventId>, id: EventId)
    requires
        ids.no_duplicates(),
    ensures
        toggled(ids, id).contains(id) == !ids.contains(id),
        forall|x: EventId| x != id ==> #[trigger] toggled(ids, id).contains(x) == ids.contains(x),
        toggled(ids, id).no_duplicates(),
{
    lemma_without_first(ids, id);
    if !ids.contains(id) {
        let r = ids.push(id);
        assert(r[ids.len() as int] == id);
        assert forall|x: EventId| x != id implies #[trigger] r.contains(x) == ids.contains(x) by {
            if ids.contains(x) {
                let k = choose|k: int| 0 <= k < ids.len() && ids[k] == x;
                assert(r[k] == x);
            }
            if r.contains(x) {
                let k = choose|k: int| 0 <= k < r.len() && r[k] == x;
                assert(ids[k] == x);
            }
        }
        assert forall|i: int, j: int| 0 <= i < r.len() && 0 <= j < r.len() && i != j implies r[i]
            != r[j] by {
            if i == ids.len() {
                assert(ids.contains(ids[j]));
            } else if j == ids.len() {
                assert(ids.contains(ids[i]));
            }
        }
    }
}

} // verus!
