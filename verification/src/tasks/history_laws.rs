//! What holds of what users have tracked, and of the events that come in.

use crate::event_sender::{
    any_stale, is_tracking, lemma_without_tracking, without_tracking, SenderView,
};
use crate::kinds::{event_ref, BOOKMARKS_KIND, METADATA_KIND, TRACKING_KIND};
use crate::nostr::{BuilderView, EventId, EventView, PublicKey, TagView};
use crate::tasks::durations::{first_ref, ids_in};
use crate::tasks::nostr_users::{with_metadata, with_user, MetaView};
use crate::tasks::order::{chronological, inserting_keeps_the_order, lemma_inserted_from};
use crate::tasks::{
    events_of, history_at, inserted, lemma_history_at, lemma_history_found, metadata_in, now_of,
    RelayView,
};
use vstd::prelude::*;

verus! {

// ---------------------------------------------------------------------------
// References

proof fn lemma_ids(tags: Seq<TagView>)
    ensures
        ids_in(tags).len() == tags.filter(|t: TagView| event_ref(t) is Some).len(),
        forall|k: int|
            0 <= k < ids_in(tags).len() ==> event_ref(
                tags.filter(|t: TagView| event_ref(t) is Some)[k],
            ).unwrap().id == #[trigger] ids_in(tags)[k],
    decreases tags.len(),
{
    reveal(Seq::filter);
    let pred = |t: TagView| event_ref(t) is Some;
    if tags.len() > 0 {
        let rest = tags.drop_last();
        lemma_ids(rest);
        let before = ids_in(rest);
        let r = ids_in(tags);
        let f = tags.filter(pred);
        assert forall|k: int| 0 <= k < r.len() implies event_ref(f[k]).unwrap().id
            == #[trigger] r[k] by {
            if k < before.len() {
                assert(r[k] == before[k]);
                assert(f[k] == rest.filter(pred)[k]);
            }
        }
    }
}

/// An event leads to what the first of its references is to, and nowhere without any.
pub proof fn the_first_reference_counts(event: EventView)
    ensures
        ({
            let refs = event.tags.filter(|t: TagView| event_ref(t) is Some);
            first_ref(event) == if refs.len() > 0 {
                Some(event_ref(refs[0]).unwrap().id)
            } else {
                None
            }
        }),
{
    lemma_ids(event.tags);
    let ids = ids_in(event.tags);
    if ids.len() > 0 {
        assert(event_ref(event.tags.filter(|t: TagView| event_ref(t) is Some)[0]).unwrap().id
            == ids[0]);
    }
}

// ---------------------------------------------------------------------------
// Histories

proof fn lemma_kept(events: Seq<EventView>, event: EventView, i: int)
    requires
        0 <= i < events.len(),
        events[i].created_at != event.created_at,
    ensures
        inserted(events, event).contains(events[i]),
    decreases events.len(),
{
    let r = inserted(events, event);
    if events.last().created_at < event.created_at {
        assert(r[i] == events[i]);
    } else if events.last().created_at == event.created_at {
        assert(i < events.len() - 1);
        assert(r[i] == events[i]);
    } else {
        let rest = events.drop_last();
        let p = inserted(rest, event);
        if i < rest.len() {
            assert(rest[i] == events[i]);
            lemma_kept(rest, event, i);
            let k = choose|k: int| 0 <= k < p.len() && p[k] == events[i];
            assert(r[k] == p[k]);
        } else {
            assert(r[p.len() as int] == events[i]);
        }
    }
}

/// What each user tracks is kept in their own history, in the order of time, beside all that they
/// have tracked at other times; the histories of others stay as they are.
pub proof fn tracking_is_kept_for_each_user(
    relay: RelayView,
    event: EventView,
    other: PublicKey,
    i: int,
)
    requires
        relay.in_order(),
        event.kind == TRACKING_KIND,
        other != event.pubkey,
    ensures
        ({
            let before = events_of(relay.history, event.pubkey);
            let after = events_of(relay.added(event).history, event.pubkey);
            &&& after.contains(event)
            &&& chronological(after)
            &&& forall|k: int|
                0 <= k < after.len() ==> #[trigger] after[k] == event || before.contains(after[k])
            &&& 0 <= i < before.len() && before[i].created_at != event.created_at
                ==> after.contains(before[i])
            &&& events_of(relay.added(event).history, other) == events_of(relay.history, other)
            &&& relay.added(event).tasks == relay.tasks
        }),
{
    let key = event.pubkey;
    let history = relay.history;
    let after = relay.added(event).history;
    lemma_history_found(history, key);
    lemma_history_found(history, other);
    let at = history_at(history, key);
    let there = history_at(history, other);
    let before = events_of(history, key);
    assert forall|i: int| 0 <= i < at implies (#[trigger] after[i]).0 != key by {
        assert(history[i].0 != key);
    }
    lemma_history_at(after, key, at);
    assert(events_of(after, key) == inserted(before, event)) by {
        if at == history.len() {
            assert(inserted(Seq::<EventView>::empty(), event) =~= seq![event]);
        }
    }
    assert(chronological(before)) by {
        if at < history.len() {
            assert(chronological(history[at].1));
        }
    }
    inserting_keeps_the_order(before, event);
    lemma_inserted_from(before, event);
    if 0 <= i < before.len() && before[i].created_at != event.created_at {
        lemma_kept(before, event, i);
    }
    let there_now: int = if there < history.len() {
        there
    } else {
        after.len() as int
    };
    assert forall|i: int| 0 <= i < there_now implies (#[trigger] after[i]).0 != other by {
        if i < history.len() {
            if i < there {
                assert(history[i].0 != other);
            }
        }
    }
    lemma_history_at(after, other, there_now);
}

/// Tracking what is tracked already changes nothing.
pub proof fn tracking_again_changes_nothing(
    relay: RelayView,
    time: u64,
    target: Option<EventId>,
    clock: u64,
)
    requires
        relay.position_at(relay.tracking_time(time, target), clock).1 == target,
        relay.tracking_time(time, target) < clock || target is None,
    ensures
        relay.tracking_at(time, target, clock) == relay,
{
}

/// What counts as now ends nine seconds after what the clock shows.
pub proof fn now_ends_in_seconds(clock: u64)
    ensures
        clock <= u64::MAX - 9 ==> now_of(clock) == clock + 9,
        now_of(clock) >= clock,
{
}

/// An event is made by the user whose key signs, at the time set for it, else at that of the
/// builder, and else when the clock shows.
pub proof fn an_event_has_its_time_and_author(relay: RelayView, builder: BuilderView, clock: u64)
    ensures
        ({
            let event = relay.event_from(builder, clock);
            &&& event.pubkey == relay.sender.key
            &&& event.kind == builder.kind
            &&& event.content == builder.content
            &&& event.tags == builder.tags
            &&& event.created_at == match (relay.custom_time, builder.created_at) {
                (Some(time), _) => time,
                (None, Some(time)) => time,
                (None, None) => clock,
            }
        }),
{
}

// ---------------------------------------------------------------------------
// Events of others

/// Metadata tells the names of its author, unless newer is known; bookmarks count only if they are
/// one's own.
pub proof fn metadata_and_bookmarks_are_taken_in(
    relay: RelayView,
    event: EventView,
    meta: MetaView,
)
    ensures
        event.kind == METADATA_KIND && metadata_in(event.content) == Some(
            (meta.name, meta.display_name),
        ) ==> relay.added(event).users == with_metadata(
            with_user(relay.users, event.pubkey),
            event.pubkey,
            meta,
            event.created_at,
        ),
        event.kind == BOOKMARKS_KIND && event.pubkey != relay.sender.key
            ==> relay.added(event).bookmarks == relay.bookmarks,
        event.kind == BOOKMARKS_KIND && event.pubkey == relay.sender.key
            ==> relay.added(event).bookmarks == ids_in(event.tags),
        event.kind == METADATA_KIND || event.kind == BOOKMARKS_KIND ==> relay.added(event).tasks
            == relay.tasks && relay.added(event).history == relay.history,
{
}

// ---------------------------------------------------------------------------
// Pending tracking

/// Tracking from about now takes the place of tracking that is pending, and of nothing else; what
/// is tracked for another time joins it.
pub proof fn pending_tracking_is_replaced(
    sender: SenderView,
    event: EventView,
    clock: u64,
    e: EventView,
)
    requires
        !any_stale(sender.queue, clock),
        clock >= 60,
        is_tracking(event),
        sender.queue.contains(e),
        e != event,
    ensures
        clock - 60 < event.created_at < now_of(clock) ==> sender.with_event(
            event,
            clock,
        ).queue.contains(e) == !is_tracking(e),
        !(clock - 60 < event.created_at < now_of(clock)) ==> sender.with_event(
            event,
            clock,
        ).queue.contains(e),
{
    let after = sender.with_event(event, clock).queue;
    let kept = after.drop_last();
    lemma_without_tracking(sender.queue, e);
    assert(kept =~= sender.queue || kept =~= without_tracking(sender.queue));
    assert(after.contains(e) == kept.contains(e)) by {
        if kept.contains(e) {
            let k = choose|k: int| 0 <= k < kept.len() && kept[k] == e;
            assert(after[k] == e);
        }
        if after.contains(e) {
            let k = choose|k: int| 0 <= k < after.len() && after[k] == e;
            assert(k < kept.len());
            assert(kept[k] == e);
        }
    }
    if clock - 60 < event.created_at < now_of(clock) {
        assert(kept =~= without_tracking(sender.queue));
    } else {
        assert(kept =~= sender.queue);
    }
}

} // verus!
