//! Times tracked on tasks.

use crate::kinds::{event_ref, match_event_tag};
use crate::lists::views;
use crate::nostr::{has_id, Event, EventId, EventView, TagView};
use vstd::prelude::*;

verus! {

/// The ids that tags refer to, in order.
pub open spec fn ids_in(tags: Seq<TagView>) -> Seq<EventId>
    decreases tags.len(),
{
    if tags.len() == 0 {
        Seq::empty()
    } else {
        let before = ids_in(tags.drop_last());
        match event_ref(tags.last()) {
            Some(r) => before.push(r.id),
            None => before,
        }
    }
}

/// The first of the ids that is listed.
pub open spec fn first_listed(found: Seq<EventId>, ids: Seq<EventId>) -> Option<EventId>
    decreases found.len(),
{
    if found.len() == 0 {
        None
    } else if ids.contains(found[0]) {
        Some(found[0])
    } else {
        first_listed(found.drop_first(), ids)
    }
}

/// The listed id that an event refers to first.
pub open spec fn matching_id(event: EventView, ids: Seq<EventId>) -> Option<EventId> {
    first_listed(ids_in(event.tags), ids)
}

pub fn referenced_events(event: &Event) -> (r: Vec<EventId>)
    ensures
        r@ == ids_in(event@.tags),
{
    let ghost all = views(event.tags@);
    let mut r: Vec<EventId> = Vec::new();
    let mut i: usize = 0;
    assert(all.take(0) =~= Seq::<TagView>::empty());
    while i < event.tags.len()
        invariant
            0 <= i <= event.tags.len(),
            all == views(event.tags@),
            r@ == ids_in(all.take(i as int)),
        decreases event.tags.len() - i,
    {
        assert(all.take(i + 1).drop_last() =~= all.take(i as int));
        assert(all.take(i + 1).last() == event.tags@[i as int]@);
        match match_event_tag(&event.tags[i]) {
            Some(t) => {
                r.push(t.id);
            },
            None => {},
        }
        i += 1;
    }
    assert(all.take(event.tags@.len() as int) =~= all);
    r
}

/// The first event that is referred to.
pub open spec fn first_ref(event: EventView) -> Option<EventId> {
    let ids = ids_in(event.tags);
    if ids.len() > 0 {
        Some(ids[0])
    } else {
        None
    }
}

pub fn referenced_event(event: &Event) -> (r: Option<EventId>)
    ensures
        r == first_ref(event@),
{
    let ids: Vec<EventId> = referenced_events(event);
    if ids.len() > 0 {
        Some(ids[0])
    } else {
        None
    }
}

/// Returns the id of a referenced event if it is contained in the provided ids list.
pub fn matching_tag_id(event: &Event, ids: &Vec<EventId>) -> (r: Option<EventId>)
    ensures
        r == matching_id(event@, ids@),
{
    let found: Vec<EventId> = referenced_events(event);
    let mut i: usize = 0;
    assert(found@.skip(0) =~= found@);
    while i < found.len()
        invariant
            0 <= i <= found.len(),
            found@ == ids_in(event@.tags),
            first_listed(found@, ids@) == first_listed(found@.skip(i as int), ids@),
        decreases found.len() - i,
    {
        assert(found@.skip(i as int).drop_first() =~= found@.skip(i + 1));
        if has_id(ids, found[i]) {
            return Some(found[i]);
        }
        i += 1;
    }
    None
}

/// The times at which events change which listed task is tracked.
pub open spec fn changes_in(events: Seq<EventView>, ids: Seq<EventId>) -> Seq<
    (u64, Option<EventId>),
>
    decreases events.len(),
{
    if events.len() == 0 {
        Seq::empty()
    } else {
        let before = changes_in(events.drop_last(), ids);
        let e = events.last();
        if before.len() > 0 && before.last().1 == matching_id(e, ids) {
            before
        } else {
            before.push((e.created_at, matching_id(e, ids)))
        }
    }
}

pub open spec fn without_leading_stops(s: Seq<(u64, Option<EventId>)>) -> Seq<
    (u64, Option<EventId>),
>
    decreases s.len(),
{
    if s.len() > 0 && s[0].1 is None {
        without_leading_stops(s.drop_first())
    } else {
        s
    }
}

/// The times at which tracking of the listed tasks starts, changes and stops.
pub open spec fn stamps_of(events: Seq<EventView>, ids: Seq<EventId>) -> Seq<
    (u64, Option<EventId>),
> {
    without_leading_stops(changes_in(events, ids))
}

/// Filters out event timestamps to those that start or stop one of the given events
pub fn timestamps(events: &Vec<Event>, ids: &Vec<EventId>) -> (r: Vec<(u64, Option<EventId>)>)
    ensures
        r@ == stamps_of(views(events@), ids@),
{
    let ghost all = views(events@);
    let mut changes: Vec<(u64, Option<EventId>)> = Vec::new();
    let mut i: usize = 0;
    assert(all.take(0) =~= Seq::<EventView>::empty());
    while i < events.len()
        invariant
            0 <= i <= events.len(),
            all == views(events@),
            changes@ == changes_in(all.take(i as int), ids@),
        decreases events.len() - i,
    {
        assert(all.take(i + 1).drop_last() =~= all.take(i as int));
        assert(all.take(i + 1).last() == events@[i as int]@);
        let id: Option<EventId> = matching_tag_id(&events[i], ids);
        if changes.len() == 0 || changes[changes.len() - 1].1 != id {
            changes.push((events[i].created_at, id));
        }
        i += 1;
    }
    assert(all.take(events@.len() as int) =~= all);
    let mut r: Vec<(u64, Option<EventId>)> = Vec::new();
    let mut from: usize = 0;
    assert(changes@.skip(0) =~= changes@);
    while from < changes.len() && changes[from].1.is_none()
        invariant
            0 <= from <= changes.len(),
            without_leading_stops(changes@) == without_leading_stops(changes@.skip(from as int)),
        decreases changes.len() - from,
    {
        assert(changes@.skip(from as int).drop_first() =~= changes@.skip(from + 1));
        from += 1;
    }
    let mut i: usize = from;
    assert(changes@.subrange(from as int, from as int) =~= Seq::<(u64, Option<EventId>)>::empty());
    while i < changes.len()
        invariant
            from <= i <= changes.len(),
            r@ == changes@.subrange(from as int, i as int),
        decreases changes.len() - i,
    {
        r.push(changes[i]);
        assert(changes@.subrange(from as int, i as int).push(changes@[i as int])
            =~= changes@.subrange(from as int, i + 1));
        i += 1;
    }
    assert(changes@.subrange(from as int, changes@.len() as int) =~= changes@.skip(from as int));
    r
}

// ---------------------------------------------------------------------------
// Durations

/// The sum, as far as it can be told.
pub open spec fn plus(a: u64, b: u64) -> u64 {
    if a + b > u64::MAX {
        u64::MAX
    } else {
        (a + b) as u64
    }
}

pub open spec fn minus(a: u64, b: u64) -> u64 {
    if a >= b {
        (a - b) as u64
    } else {
        0
    }
}

/// The time tracked within the first events and since when tracking is going on behind them.
/// Starts after `threshold` do not count.
pub open spec fn tracked_in(events: Seq<EventView>, ids: Seq<EventId>, threshold: u64) -> (
    u64,
    Option<u64>,
)
    decreases events.len(),
{
    if events.len() == 0 {
        (0, None)
    } else {
        let (total, start) = tracked_in(events.drop_last(), ids, threshold);
        let e = events.last();
        if matching_id(e, ids) is Some {
            if e.created_at > threshold || start is Some {
                (total, start)
            } else {
                (total, Some(e.created_at))
            }
        } else {
            match start {
                Some(s) => (plus(total, minus(e.created_at, s)), None),
                None => (total, start),
            }
        }
    }
}

/// The time tracked on the listed tasks: from each start until the next stop, or until now.
pub open spec fn time_on(events: Seq<EventView>, ids: Seq<EventId>, threshold: u64) -> u64 {
    let (total, start) = tracked_in(events, ids, threshold);
    match start {
        Some(s) => plus(total, minus(threshold, s)),
        None => total,
    }
}

/// Accumulates times tracked in sorted events.
#[derive(Debug)]
pub struct Durations {}

impl Durations {
    /// The seconds tracked on the listed tasks, when the clock shows `threshold`.
    pub fn sum(events: &Vec<Event>, ids: &Vec<EventId>, threshold: u64) -> (r: u64)
        ensures
            r == time_on(views(events@), ids@, threshold),
    {
        let ghost all = views(events@);
        let mut total: u64 = 0;
        let mut start: Option<u64> = None;
        let mut i: usize = 0;
        assert(all.take(0) =~= Seq::<EventView>::empty());
        while i < events.len()
            invariant
                0 <= i <= events.len(),
                all == views(events@),
                (total, start) == tracked_in(all.take(i as int), ids@, threshold),
            decreases events.len() - i,
        {
            assert(all.take(i + 1).drop_last() =~= all.take(i as int));
            assert(all.take(i + 1).last() == events@[i as int]@);
            let time: u64 = events[i].created_at;
            if matching_tag_id(&events[i], ids).is_some() {
                if time <= threshold && start.is_none() {
                    start = Some(time);
                }
            } else {
                match start {
                    Some(s) => {
                        total = total.saturating_add(time.saturating_sub(s));
                        start = None;
                    },
                    None => {},
                }
            }
            i += 1;
        }
        assert(all.take(events@.len() as int) =~= all);
        match start {
            Some(s) => total.saturating_add(threshold.saturating_sub(s)),
            None => total,
        }
    }
}

// ---------------------------------------------------------------------------
// Laws

/// Events in the order of time.
pub open spec fn chronological(events: Seq<EventView>) -> bool {
    forall|i: int, j: int|
        0 <= i < j < events.len() ==> (#[trigger] events[i]).created_at < (#[trigger] events[
        j]).created_at
}

proof fn lemma_tracked_in(events: Seq<EventView>, ids: Seq<EventId>, threshold: u64)
    requires
        chronological(events),
    ensures
        ({
            let (total, start) = tracked_in(events, ids, threshold);
            &&& start matches Some(s) ==> total <= s && s <= threshold && events.len() > 0 && s
                <= events.last().created_at
            &&& events.len() > 0 ==> total <= events.last().created_at
            &&& events.len() == 0 ==> total == 0
        }),
    decreases events.len(),
{
    if events.len() > 0 {
        let before = events.drop_last();
        assert(chronological(before)) by {
            assert forall|i: int, j: int| 0 <= i < j < before.len() implies (
            #[trigger] before[i]).created_at < (#[trigger] before[j]).created_at by {
                assert(events[i].created_at < events[j].created_at);
            }
        }
        lemma_tracked_in(before, ids, threshold);
        if before.len() > 0 {
            assert(events[before.len() - 1].created_at < events[before.len() as int].created_at);
            assert(before.last() == events[before.len() - 1]);
        }
    }
}

/// Tracked intervals do not overlap: the time tracked is at most the time that has passed, be it
/// until now or until the last event.
pub proof fn tracked_time_is_bounded(events: Seq<EventView>, ids: Seq<EventId>, threshold: u64)
    requires
        chronological(events),
    ensures
        events.len() == 0 ==> time_on(events, ids, threshold) == 0,
        events.len() > 0 ==> time_on(events, ids, threshold) <= threshold || time_on(
            events,
            ids,
            threshold,
        ) <= events.last().created_at,
{
    lemma_tracked_in(events, ids, threshold);
}

} // verus!
