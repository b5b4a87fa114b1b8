//! What holds of the times tracked.

use crate::kinds::event_ref;
use crate::nostr::{EventId, EventView, PublicKey, TagView};
use crate::tasks::children_traversal::{subtree, subtree_starts_with_the_task};
use crate::tasks::durations::{
    changes_in, chronological, first_listed, ids_in, matching_id, stamps_of, time_on, tracked_in,
    without_leading_stops,
};
use crate::tasks::property::time_of_all;
use crate::tasks::{history_at, lemma_history_found, HistoryView, RelayView};
use vstd::prelude::*;

verus! {

// ---------------------------------------------------------------------------
// One user

/// Whether an event refers to one of the given tasks.
pub open spec fn refers_to_any(event: EventView, ids: Seq<EventId>) -> bool {
    exists|k: int|
        0 <= k < event.tags.len() && (event_ref(#[trigger] event.tags[k]) matches Some(r)
            && ids.contains(r.id))
}

/// Whether one of the tasks is tracked in the given second: the last event until then refers to
/// it.
pub open spec fn is_tracked_in(events: Seq<EventView>, ids: Seq<EventId>, second: int) -> bool {
    exists|i: int|
        0 <= i < events.len() && events[i].created_at <= second && (i + 1 == events.len()
            || second < events[i + 1].created_at) && refers_to_any(#[trigger] events[i], ids)
}

/// In how many of the seconds before the given one the tasks are tracked.
pub open spec fn tracked_seconds(events: Seq<EventView>, ids: Seq<EventId>, to: nat) -> nat
    decreases to,
{
    if to == 0 {
        0
    } else {
        tracked_seconds(events, ids, (to - 1) as nat) + if is_tracked_in(events, ids, to - 1) {
            1nat
        } else {
            0
        }
    }
}

proof fn lemma_ids_in(tags: Seq<TagView>, ids: Seq<EventId>)
    ensures
        (exists|i: int| 0 <= i < ids_in(tags).len() && ids.contains(#[trigger] ids_in(tags)[i]))
            == (exists|k: int|
            0 <= k < tags.len() && (event_ref(#[trigger] tags[k]) matches Some(r) && ids.contains(
                r.id,
            ))),
    decreases tags.len(),
{
    if tags.len() > 0 {
        let rest = tags.drop_last();
        lemma_ids_in(rest, ids);
        let before = ids_in(rest);
        let all = ids_in(tags);
        if exists|i: int| 0 <= i < all.len() && ids.contains(#[trigger] all[i]) {
            let i = choose|i: int| 0 <= i < all.len() && ids.contains(#[trigger] all[i]);
            if i < before.len() {
                assert(ids.contains(before[i]));
                let k = choose|k: int|
                    0 <= k < rest.len() && (event_ref(#[trigger] rest[k]) matches Some(r)
                        && ids.contains(r.id));
                assert(tags[k] == rest[k]);
            } else {
                assert(event_ref(tags[tags.len() - 1]) is Some);
            }
        }
        if exists|k: int|
            0 <= k < tags.len() && (event_ref(#[trigger] tags[k]) matches Some(r) && ids.contains(
                r.id,
            )) {
            let k = choose|k: int|
                0 <= k < tags.len() && (event_ref(#[trigger] tags[k]) matches Some(r)
                    && ids.contains(r.id));
            if k < rest.len() {
                assert(event_ref(rest[k]) is Some);
                let i = choose|i: int| 0 <= i < before.len() && ids.contains(#[trigger] before[i]);
                assert(all[i] == before[i]);
            } else {
                assert(ids.contains(all[before.len() as int]));
            }
        }
    }
}

proof fn lemma_first_listed(found: Seq<EventId>, ids: Seq<EventId>)
    ensures
        first_listed(found, ids) is Some == (exists|i: int|
            0 <= i < found.len() && ids.contains(#[trigger] found[i])),
    decreases found.len(),
{
    if found.len() > 0 {
        let rest = found.drop_first();
        lemma_first_listed(rest, ids);
        if exists|i: int| 0 <= i < found.len() && ids.contains(#[trigger] found[i]) {
            let i = choose|i: int| 0 <= i < found.len() && ids.contains(#[trigger] found[i]);
            if i > 0 {
                assert(ids.contains(rest[i - 1]));
            }
        }
        if exists|i: int| 0 <= i < rest.len() && ids.contains(#[trigger] rest[i]) {
            let i = choose|i: int| 0 <= i < rest.len() && ids.contains(#[trigger] rest[i]);
            assert(ids.contains(found[i + 1]));
        }
    }
}

/// An event starts the tracking of some tasks if and only if it refers to one of them, whichever
/// of its references that is.
pub proof fn any_reference_counts(event: EventView, ids: Seq<EventId>)
    ensures
        matching_id(event, ids) is Some == refers_to_any(event, ids),
{
    lemma_ids_in(event.tags, ids);
    lemma_first_listed(ids_in(event.tags), ids);
}

/// Between two seconds in which nothing changes all seconds count, or none.
proof fn lemma_seconds_between(
    events: Seq<EventView>,
    ids: Seq<EventId>,
    from: nat,
    to: nat,
    counted: bool,
)
    requires
        from <= to,
        forall|t: int| from <= t < to ==> #[trigger] is_tracked_in(events, ids, t) == counted,
    ensures
        tracked_seconds(events, ids, to) == tracked_seconds(events, ids, from) + if counted {
            to - from
        } else {
            0
        },
    decreases to,
{
    if from < to {
        lemma_seconds_between(events, ids, from, (to - 1) as nat, counted);
        assert(is_tracked_in(events, ids, to - 1) == counted);
    }
}

proof fn lemma_seconds_alike(a: Seq<EventView>, b: Seq<EventView>, ids: Seq<EventId>, to: nat)
    requires
        forall|t: int|
            0 <= t < to ==> #[trigger] is_tracked_in(a, ids, t) == is_tracked_in(b, ids, t),
    ensures
        tracked_seconds(a, ids, to) == tracked_seconds(b, ids, to),
    decreases to,
{
    if to > 0 {
        lemma_seconds_alike(a, b, ids, (to - 1) as nat);
        assert(is_tracked_in(a, ids, to - 1) == is_tracked_in(b, ids, to - 1));
    }
}

proof fn lemma_seconds_bounded(events: Seq<EventView>, ids: Seq<EventId>, to: nat)
    ensures
        tracked_seconds(events, ids, to) <= to,
    decreases to,
{
    if to > 0 {
        lemma_seconds_bounded(events, ids, (to - 1) as nat);
    }
}

/// Another event changes what is tracked from its time on, and nothing before.
proof fn lemma_tracked_with(events: Seq<EventView>, ids: Seq<EventId>, second: int)
    requires
        chronological(events),
        events.len() > 0,
    ensures
        second < events.last().created_at ==> is_tracked_in(events, ids, second) == is_tracked_in(
            events.drop_last(),
            ids,
            second,
        ),
        second >= events.last().created_at ==> is_tracked_in(events, ids, second) == refers_to_any(
            events.last(),
            ids,
        ),
{
    let rest = events.drop_last();
    let last = events.len() - 1;
    if second < events.last().created_at {
        if is_tracked_in(events, ids, second) {
            let i = choose|i: int|
                0 <= i < events.len() && events[i].created_at <= second && (i + 1 == events.len()
                    || second < events[i + 1].created_at) && refers_to_any(
                    #[trigger] events[i],
                    ids,
                );
            assert(rest[i] == events[i]);
            if i + 1 < rest.len() {
                assert(rest[i + 1] == events[i + 1]);
            }
        }
        if is_tracked_in(rest, ids, second) {
            let i = choose|i: int|
                0 <= i < rest.len() && rest[i].created_at <= second && (i + 1 == rest.len()
                    || second < rest[i + 1].created_at) && refers_to_any(#[trigger] rest[i], ids);
            assert(rest[i] == events[i]);
            if i + 1 < rest.len() {
                assert(rest[i + 1] == events[i + 1]);
            }
        }
    } else {
        if is_tracked_in(events, ids, second) {
            let i = choose|i: int|
                0 <= i < events.len() && events[i].created_at <= second && (i + 1 == events.len()
                    || second < events[i + 1].created_at) && refers_to_any(
                    #[trigger] events[i],
                    ids,
                );
            if i < last {
                if i + 1 < last {
                    assert(events[i + 1].created_at < events[last].created_at);
                }
            }
        }
        if refers_to_any(events.last(), ids) {
            assert(refers_to_any(events[last], ids));
        }
    }
}

proof fn lemma_chronological_rest(events: Seq<EventView>)
    requires
        chronological(events),
        events.len() > 0,
    ensures
        chronological(events.drop_last()),
        events.len() > 1 ==> events.drop_last().last().created_at < events.last().created_at,
{
    let rest = events.drop_last();
    assert forall|i: int, j: int| 0 <= i < j < rest.len() implies (#[trigger] rest[i]).created_at < (
    #[trigger] rest[j]).created_at by {
        assert(events[i].created_at < events[j].created_at);
    }
    if events.len() > 1 {
        assert(events[events.len() - 2].created_at < events[events.len() - 1].created_at);
    }
}

proof fn lemma_tracked_seconds(events: Seq<EventView>, ids: Seq<EventId>, threshold: u64, to: u64)
    requires
        chronological(events),
        events.len() > 0 ==> events.last().created_at <= threshold && events.last().created_at
            <= to,
    ensures
        ({
            let (total, start) = tracked_in(events, ids, threshold);
            &&& start matches Some(s) ==> s <= to && total + (to - s) == tracked_seconds(
                events,
                ids,
                to as nat,
            )
            &&& start is None ==> total == tracked_seconds(events, ids, to as nat)
            &&& start is Some == (events.len() > 0 && refers_to_any(events.last(), ids))
        }),
    decreases events.len(),
{
    if events.len() == 0 {
        assert forall|t: int| 0 <= t < to implies #[trigger] is_tracked_in(events, ids, t)
            == false by {}
        lemma_seconds_between(events, ids, 0, to as nat, false);
    } else {
        let rest = events.drop_last();
        let e = events.last();
        let at = e.created_at;
        lemma_chronological_rest(events);
        lemma_tracked_seconds(rest, ids, threshold, at);
        any_reference_counts(e, ids);
        assert forall|t: int| 0 <= t < at implies #[trigger] is_tracked_in(events, ids, t)
            == is_tracked_in(rest, ids, t) by {
            lemma_tracked_with(events, ids, t);
        }
        lemma_seconds_alike(events, rest, ids, at as nat);
        assert forall|t: int| at <= t < to implies #[trigger] is_tracked_in(events, ids, t)
            == refers_to_any(e, ids) by {
            lemma_tracked_with(events, ids, t);
        }
        lemma_seconds_between(events, ids, at as nat, to as nat, refers_to_any(e, ids));
        lemma_seconds_bounded(rest, ids, at as nat);
    }
}

/// The time tracked on some tasks until now is the number of seconds in which the last event until
/// then refers to one of them.
pub proof fn time_is_counted_by_the_second(
    events: Seq<EventView>,
    ids: Seq<EventId>,
    threshold: u64,
)
    requires
        chronological(events),
        events.len() > 0 ==> events.last().created_at <= threshold,
    ensures
        time_on(events, ids, threshold) == tracked_seconds(events, ids, threshold as nat),
{
    lemma_tracked_seconds(events, ids, threshold, threshold);
    lemma_seconds_bounded(events, ids, threshold as nat);
}

/// What is to be tracked in the future does not count yet.
pub proof fn a_later_start_does_not_count(
    events: Seq<EventView>,
    event: EventView,
    ids: Seq<EventId>,
    threshold: u64,
)
    requires
        refers_to_any(event, ids),
        event.created_at > threshold,
    ensures
        time_on(events.push(event), ids, threshold) == time_on(events, ids, threshold),
{
    assert(events.push(event).drop_last() =~= events);
    any_reference_counts(event, ids);
}

/// Where it is known when the tracking that goes on will stop, it counts until then.
pub proof fn a_later_stop_counts_already(
    events: Seq<EventView>,
    event: EventView,
    ids: Seq<EventId>,
    threshold: u64,
)
    requires
        chronological(events),
        events.len() > 0 ==> events.last().created_at <= threshold,
        !refers_to_any(event, ids),
        event.created_at >= threshold,
    ensures
        time_on(events.push(event), ids, threshold) == time_on(events, ids, threshold) + if
            events.len() > 0 && refers_to_any(events.last(), ids) {
            event.created_at - threshold
        } else {
            0
        },
{
    assert(events.push(event).drop_last() =~= events);
    any_reference_counts(event, ids);
    lemma_tracked_seconds(events, ids, threshold, threshold);
    lemma_seconds_bounded(events, ids, threshold as nat);
}

proof fn lemma_more_seconds(events: Seq<EventView>, few: Seq<EventId>, many: Seq<EventId>, to: nat)
    requires
        forall|id: EventId| few.contains(id) ==> many.contains(id),
    ensures
        tracked_seconds(events, few, to) <= tracked_seconds(events, many, to),
    decreases to,
{
    if to > 0 {
        lemma_more_seconds(events, few, many, (to - 1) as nat);
        if is_tracked_in(events, few, to - 1) {
            let i = choose|i: int|
                0 <= i < events.len() && events[i].created_at <= to - 1 && (i + 1 == events.len()
                    || to - 1 < events[i + 1].created_at) && refers_to_any(
                    #[trigger] events[i],
                    few,
                );
            let k = choose|k: int|
                0 <= k < events[i].tags.len() && (event_ref(
                    #[trigger] events[i].tags[k],
                ) matches Some(r) && few.contains(r.id));
            assert(event_ref(events[i].tags[k]) is Some);
            assert(refers_to_any(events[i], many));
        }
    }
}

// ---------------------------------------------------------------------------
// Intervals

/// Whether the last of the changes until a second starts tracking.
pub open spec fn is_on(changes: Seq<(u64, Option<EventId>)>, second: int) -> bool {
    exists|j: int|
        0 <= j < changes.len() && (#[trigger] changes[j]).0 <= second && (j + 1 == changes.len()
            || second < changes[j + 1].0) && changes[j].1 is Some
}

/// Whether one of the changes differs from the one before.
pub open spec fn is_change(changes: Seq<(u64, Option<EventId>)>, j: int) -> bool {
    changes[j].1 != changes[j - 1].1
}

/// Whether changes are in the order of time, and each of them changes something.
pub open spec fn are_changes(changes: Seq<(u64, Option<EventId>)>, id: EventId) -> bool {
    &&& forall|i: int, j: int|
        0 <= i < j < changes.len() ==> (#[trigger] changes[i]).0 < (#[trigger] changes[j]).0
    &&& forall|j: int| 0 < j < changes.len() ==> #[trigger] is_change(changes, j)
    &&& forall|j: int|
        0 <= j < changes.len() ==> ((#[trigger] changes[j]).1 is Some ==> changes[j].1 == Some(id))
}

proof fn lemma_listed_is_one(found: Seq<EventId>, id: EventId)
    ensures
        first_listed(found, seq![id]) matches Some(x) ==> x == id,
    decreases found.len(),
{
    if found.len() > 0 {
        lemma_listed_is_one(found.drop_first(), id);
        if seq![id].contains(found[0]) {
            assert(seq![id][0] == id);
        }
    }
}

proof fn lemma_changes(events: Seq<EventView>, id: EventId)
    requires
        chronological(events),
    ensures
        ({
            let changes = changes_in(events, seq![id]);
            &&& are_changes(changes, id)
            &&& (changes.len() > 0) == (events.len() > 0)
            &&& events.len() > 0 ==> changes.last().0 <= events.last().created_at
                && changes.last().1 == matching_id(events.last(), seq![id])
            &&& forall|t: int| #[trigger]
                is_on(changes, t) == is_tracked_in(events, seq![id], t)
        }),
    decreases events.len(),
{
    let ids = seq![id];
    let changes = changes_in(events, ids);
    if events.len() > 0 {
        let rest = events.drop_last();
        let e = events.last();
        lemma_chronological_rest(events);
        lemma_changes(rest, id);
        any_reference_counts(e, ids);
        lemma_listed_is_one(ids_in(e.tags), id);
        let before = changes_in(rest, ids);
        if before.len() > 0 && before.last().1 == matching_id(e, ids) {
            assert forall|t: int| #[trigger]
                is_on(changes, t) == is_tracked_in(events, ids, t) by {
                lemma_tracked_with(events, ids, t);
                if t >= e.created_at {
                    lemma_on_last(before, t);
                } else {
                    assert(is_on(before, t) == is_tracked_in(rest, ids, t));
                }
            }
        } else {
            let more = (e.created_at, matching_id(e, ids));
            assert(changes == before.push(more));
            assert(are_changes(changes, id)) by {
                assert forall|i: int, j: int| 0 <= i < j < changes.len() implies (
                #[trigger] changes[i]).0 < (#[trigger] changes[j]).0 by {
                    if j == before.len() {
                        assert(before[i].0 <= before.last().0);
                    } else {
                        assert(before[i].0 < before[j].0);
                    }
                }
                assert forall|j: int| 0 < j < changes.len() implies #[trigger] is_change(
                    changes,
                    j,
                ) by {
                    if j < before.len() {
                        assert(is_change(before, j));
                    }
                }
                assert forall|j: int|
                    0 <= j < changes.len() && (#[trigger] changes[j]).1 is Some implies changes[j].1
                    == Some(id) by {
                    if j < before.len() {
                        assert(before[j].1 is Some ==> before[j].1 == Some(id));
                    }
                }
            }
            assert forall|t: int| #[trigger]
                is_on(changes, t) == is_tracked_in(events, ids, t) by {
                lemma_tracked_with(events, ids, t);
                if t >= e.created_at {
                    lemma_on_last(changes, t);
                } else {
                    lemma_on_before(before, more, t);
                    assert(is_on(before, t) == is_tracked_in(rest, ids, t));
                }
            }
        }
    } else {
        assert forall|t: int| #[trigger] is_on(changes, t) == is_tracked_in(events, ids, t) by {}
    }
}

proof fn lemma_on_last(changes: Seq<(u64, Option<EventId>)>, t: int)
    requires
        changes.len() > 0,
        changes.last().0 <= t,
        forall|i: int, j: int|
            0 <= i < j < changes.len() ==> (#[trigger] changes[i]).0 < (#[trigger] changes[j]).0,
    ensures
        is_on(changes, t) == (changes.last().1 is Some),
{
    let last = changes.len() - 1;
    if is_on(changes, t) {
        let j = choose|j: int|
            0 <= j < changes.len() && (#[trigger] changes[j]).0 <= t && (j + 1 == changes.len() || t
                < changes[j + 1].0) && changes[j].1 is Some;
        if j < last {
            if j + 1 < last {
                assert(changes[j + 1].0 < changes[last].0);
            }
        }
    }
    if changes.last().1 is Some {
        assert(changes[last].1 is Some);
    }
}

proof fn lemma_on_before(
    before: Seq<(u64, Option<EventId>)>,
    more: (u64, Option<EventId>),
    t: int,
)
    requires
        t < more.0,
    ensures
        is_on(before.push(more), t) == is_on(before, t),
{
    let all = before.push(more);
    if is_on(all, t) {
        let j = choose|j: int|
            0 <= j < all.len() && (#[trigger] all[j]).0 <= t && (j + 1 == all.len() || t < all[j
                + 1].0) && all[j].1 is Some;
        assert(before[j] == all[j]);
        if j + 1 < before.len() {
            assert(before[j + 1] == all[j + 1]);
        }
    }
    if is_on(before, t) {
        let j = choose|j: int|
            0 <= j < before.len() && (#[trigger] before[j]).0 <= t && (j + 1 == before.len() || t
                < before[j + 1].0) && before[j].1 is Some;
        assert(before[j] == all[j]);
        if j + 1 < before.len() {
            assert(before[j + 1] == all[j + 1]);
        }
    }
}

/// Whether the second lies within one of the intervals that the times are the starts and ends of,
/// by turns; the last may go on.
pub open spec fn is_within(stamps: Seq<(u64, Option<EventId>)>, second: int) -> bool {
    exists|j: int|
        0 <= j < stamps.len() && j % 2 == 0 && (#[trigger] stamps[j]).0 <= second && (j + 1
            == stamps.len() || second < stamps[j + 1].0)
}

/// Only the first change can be a stop that starts nothing.
proof fn lemma_without_stops(changes: Seq<(u64, Option<EventId>)>, id: EventId) -> (from: int)
    requires
        are_changes(changes, id),
    ensures
        0 <= from <= 1,
        from <= changes.len(),
        without_leading_stops(changes) == changes.skip(from),
        from < changes.len() ==> changes[from].1 is Some,
        from == 1 ==> changes[0].1 is None,
{
    if changes.len() > 0 && changes[0].1 is None {
        let rest = changes.drop_first();
        if rest.len() > 0 {
            assert(is_change(changes, 1));
            assert(rest[0] == changes[1]);
        }
        assert(without_leading_stops(rest) == rest);
        assert(rest =~= changes.skip(1));
        1
    } else {
        assert(changes.skip(0) =~= changes);
        0
    }
}

proof fn lemma_within(
    changes: Seq<(u64, Option<EventId>)>,
    stamps: Seq<(u64, Option<EventId>)>,
    from: int,
    second: int,
)
    requires
        0 <= from <= 1,
        from <= changes.len(),
        stamps == changes.skip(from),
        from == 1 ==> changes[0].1 is None,
        forall|j: int|
            0 <= j < stamps.len() ==> (#[trigger] stamps[j]).1 is Some == (j % 2 == 0),
    ensures
        is_within(stamps, second) == is_on(changes, second),
{
    if is_on(changes, second) {
        let j = choose|j: int|
            0 <= j < changes.len() && (#[trigger] changes[j]).0 <= second && (j + 1
                == changes.len() || second < changes[j + 1].0) && changes[j].1 is Some;
        let m = j - from;
        assert(m >= 0);
        assert(stamps[m] == changes[j]);
        if j + 1 < changes.len() {
            assert(stamps[m + 1] == changes[j + 1]);
        }
        assert(is_within(stamps, second));
    }
    if is_within(stamps, second) {
        let m = choose|m: int|
            0 <= m < stamps.len() && m % 2 == 0 && (#[trigger] stamps[m]).0 <= second && (m + 1
                == stamps.len() || second < stamps[m + 1].0);
        let j = from + m;
        assert(stamps[m] == changes[j]);
        if m + 1 < stamps.len() {
            assert(stamps[m + 1] == changes[j + 1]);
        }
        assert(is_on(changes, second));
    }
}

/// The intervals that are listed for a task are those in which it is tracked: its starts and ends
/// come by turns, in the order of time.
pub proof fn intervals_are_those_tracked(events: Seq<EventView>, id: EventId, second: int)
    requires
        chronological(events),
    ensures
        is_within(stamps_of(events, seq![id]), second) == is_tracked_in(events, seq![id], second),
        forall|j: int|
            0 <= j < stamps_of(events, seq![id]).len() ==> (#[trigger] stamps_of(
                events,
                seq![id],
            )[j]).1 == if j % 2 == 0 {
                Some(id)
            } else {
                None
            },
{
    let changes = changes_in(events, seq![id]);
    let stamps = stamps_of(events, seq![id]);
    lemma_changes(events, id);
    assert(is_on(changes, second) == is_tracked_in(events, seq![id], second));
    let from = lemma_without_stops(changes, id);
    assert forall|j: int| 0 <= j < stamps.len() implies (#[trigger] stamps[j]).1 == if j % 2 == 0 {
        Some(id)
    } else {
        None
    } by {
        lemma_turns(changes, id, from, j);
        assert(stamps[j] == changes[from + j]);
    }
    lemma_within(changes, stamps, from, second);
}

proof fn lemma_turns(changes: Seq<(u64, Option<EventId>)>, id: EventId, from: int, j: int)
    requires
        are_changes(changes, id),
        0 <= j,
        0 <= from,
        from + j < changes.len(),
        changes[from].1 is Some,
    ensures
        changes[from + j].1 == if j % 2 == 0 {
            Some(id)
        } else {
            None
        },
    decreases j,
{
    assert(changes[from + j].1 is Some ==> changes[from + j].1 == Some(id));
    if j > 0 {
        lemma_turns(changes, id, from, j - 1);
        assert(is_change(changes, from + j));
    }
}

// ---------------------------------------------------------------------------
// All users

/// The sum of two times, as far as it can be told.
pub open spec fn at_most_the_largest(sum: int) -> int {
    if sum > u64::MAX {
        u64::MAX as int
    } else {
        sum
    }
}

/// The times of all users are added up: each of them adds exactly what they have tracked, whoever
/// else there is.
pub proof fn each_user_adds_their_time(
    history: HistoryView,
    ids: Seq<EventId>,
    clock: u64,
    at: int,
)
    requires
        0 <= at < history.len(),
    ensures
        time_of_all(history, ids, clock) == at_most_the_largest(
            time_of_all(history.remove(at), ids, clock) + time_on(history[at].1, ids, clock),
        ),
        time_of_all(Seq::empty(), ids, clock) == 0,
    decreases history.len(),
{
    let rest = history.drop_last();
    if at == history.len() - 1 {
        assert(history.remove(at) =~= rest);
    } else {
        each_user_adds_their_time(rest, ids, clock, at);
        assert(history.remove(at).drop_last() =~= rest.remove(at));
        assert(history.remove(at).last() == history.last());
    }
}

/// The time tracked on a task with its subtasks is that of all users together: one more user with
/// `user.1` tracked raises it by the time in that.
pub proof fn another_user_adds_to_the_total(
    relay: RelayView,
    user: (PublicKey, Seq<EventView>),
    id: EventId,
    clock: u64,
)
    ensures
        (RelayView { history: relay.history.push(user), ..relay }).total_time_tracked(id, clock)
            == at_most_the_largest(
            relay.total_time_tracked(id, clock) + time_on(
                user.1,
                subtree(relay.tasks, id),
                clock,
            ),
        ),
        relay.history.len() == 0 ==> relay.total_time_tracked(id, clock) == 0,
{
    let history = relay.history.push(user);
    each_user_adds_their_time(
        history,
        subtree(relay.tasks, id),
        clock,
        relay.history.len() as int,
    );
    assert(history.remove(relay.history.len() as int) =~= relay.history);
}

/// What one has tracked on a task is counted on that task alone, without its subtasks and without
/// what others have tracked.
pub proof fn ones_own_time_is_that_on_the_task(relay: RelayView, id: EventId, clock: u64)
    requires
        chronological(relay.own_events()),
        relay.own_events().len() > 0 ==> relay.own_events().last().created_at <= clock,
    ensures
        relay.time_tracked(id, clock) == tracked_seconds(
            relay.own_events(),
            seq![id],
            clock as nat,
        ),
{
    time_is_counted_by_the_second(relay.own_events(), seq![id], clock);
}

/// What one has tracked on a task is part of the time that all have tracked on it and its
/// subtasks.
pub proof fn the_total_holds_ones_own_time(relay: RelayView, id: EventId, clock: u64)
    requires
        chronological(relay.own_events()),
        relay.own_events().len() > 0 ==> relay.own_events().last().created_at <= clock,
    ensures
        relay.time_tracked(id, clock) <= relay.total_time_tracked(id, clock),
{
    let events = relay.own_events();
    let all = subtree(relay.tasks, id);
    subtree_starts_with_the_task(relay.tasks, id);
    assert(all.contains(id)) by {
        assert(all[0] == id);
    }
    time_is_counted_by_the_second(events, seq![id], clock);
    time_is_counted_by_the_second(events, all, clock);
    lemma_more_seconds(events, seq![id], all, clock as nat);
    lemma_history_found(relay.history, relay.sender.key);
    let at = history_at(relay.history, relay.sender.key);
    if at < relay.history.len() {
        each_user_adds_their_time(relay.history, all, clock, at);
    } else {
        assert forall|t: int| 0 <= t < clock implies #[trigger] is_tracked_in(events, seq![id], t)
            == false by {}
        lemma_seconds_between(events, seq![id], 0, clock as nat, false);
    }
}

} // verus!
