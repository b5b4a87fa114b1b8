//! What holds of the tasks and histories whatever comes in and whatever the user does.

use crate::command::CommandView;
use crate::event_sender::SenderView;
use crate::lists::{adding_keeps_a_sorted_set, is_sorted_set, ties, Ordered};
use crate::nostr::{BuilderView, Event, EventId, EventView, PublicKey, TagView};
use crate::task::state::State;
use crate::task::without_tie;
use crate::tasks::filter::KeysView;
use crate::tasks::task_map::{has_task, ids_unique, lemma_task_found, task_at, TasksView};
use crate::tasks::{
    history_at, inserted, lemma_history_found, lemma_prop_at_ids, prop_target, with_prop_at,
    with_task, with_tracking, without_event, without_prop_at, without_task, FilterView, HistoryView,
    RelayView,
};
use vstd::prelude::*;

verus! {

/// Each event is later than the one before.
pub open spec fn chronological(events: Seq<EventView>) -> bool {
    forall|i: int, j: int|
        0 <= i < j < events.len() ==> (#[trigger] events[i]).created_at < (
        #[trigger] events[j]).created_at
}

/// All events are by the given author.
pub open spec fn all_by(events: Seq<EventView>, key: PublicKey) -> bool {
    forall|i: int| 0 <= i < events.len() ==> (#[trigger] events[i]).pubkey == key
}

/// Each user has one history, with their own events in the order of time.
pub open spec fn histories_ordered(history: HistoryView) -> bool {
    &&& forall|i: int, j: int|
        0 <= i < j < history.len() ==> (#[trigger] history[i]).0 != (#[trigger] history[j]).0
    &&& forall|i: int|
        0 <= i < history.len() ==> chronological((#[trigger] history[i]).1) && all_by(
            history[i].1,
            history[i].0,
        )
}

/// No two tasks have the same id, and the updates of each are in order, each of them once.
pub open spec fn tasks_ordered(tasks: TasksView) -> bool {
    &&& ids_unique(tasks)
    &&& forall|i: int|
        0 <= i < tasks.len() ==> is_sorted_set::<Event>((#[trigger] tasks[i]).props)
}

impl RelayView {
    /// What every operation keeps.
    pub open spec fn in_order(self) -> bool {
        tasks_ordered(self.tasks) && histories_ordered(self.history)
    }
}

// ---------------------------------------------------------------------------
// Histories

pub proof fn lemma_inserted_from(events: Seq<EventView>, event: EventView)
    ensures
        forall|i: int|
            0 <= i < inserted(events, event).len() ==> (#[trigger] inserted(events, event)[i])
                == event || events.contains(inserted(events, event)[i]),
        inserted(events, event).contains(event),
    decreases events.len(),
{
    let r = inserted(events, event);
    if events.len() == 0 || events.last().created_at < event.created_at {
        assert(r[r.len() - 1] == event);
        assert forall|i: int| 0 <= i < r.len() implies (#[trigger] r[i]) == event
            || events.contains(r[i]) by {
            if i < events.len() {
                assert(events[i] == r[i]);
            }
        }
    } else if events.last().created_at == event.created_at {
        assert(r[r.len() - 1] == event);
        assert forall|i: int| 0 <= i < r.len() implies (#[trigger] r[i]) == event
            || events.contains(r[i]) by {
            if i < events.len() - 1 {
                assert(events[i] == r[i]);
            }
        }
    } else {
        let rest = events.drop_last();
        lemma_inserted_from(rest, event);
        let p = inserted(rest, event);
        let k = choose|k: int| 0 <= k < p.len() && p[k] == event;
        assert(r[k] == event);
        assert forall|i: int| 0 <= i < r.len() implies (#[trigger] r[i]) == event
            || events.contains(r[i]) by {
            if i < p.len() {
                assert(r[i] == p[i]);
                if p[i] != event {
                    let l = choose|l: int| 0 <= l < rest.len() && rest[l] == p[i];
                    assert(events[l] == p[i]);
                }
            } else {
                assert(r[i] == events[events.len() - 1]);
            }
        }
    }
}

/// An event can be put into an order of time.
pub proof fn inserting_keeps_the_order(events: Seq<EventView>, event: EventView)
    requires
        chronological(events),
    ensures
        chronological(inserted(events, event)),
        inserted(events, event).contains(event),
    decreases events.len(),
{
    lemma_inserted_from(events, event);
    let r = inserted(events, event);
    if events.len() == 0 || events.last().created_at < event.created_at {
        assert forall|i: int, j: int| 0 <= i < j < r.len() implies (#[trigger] r[i]).created_at < (
        #[trigger] r[j]).created_at by {
            if j == events.len() && i < events.len() - 1 {
                assert(events[i].created_at < events[events.len() - 1].created_at);
            }
        }
    } else if events.last().created_at == event.created_at {
        let last = events[events.len() - 1];
        assert forall|i: int, j: int| 0 <= i < j < r.len() implies (#[trigger] r[i]).created_at < (
        #[trigger] r[j]).created_at by {
            if j == events.len() - 1 {
                assert(events[i].created_at < last.created_at);
            }
        }
    } else {
        let rest = events.drop_last();
        let last = events[events.len() - 1];
        inserting_keeps_the_order(rest, event);
        lemma_inserted_from(rest, event);
        let p = inserted(rest, event);
        assert forall|i: int, j: int| 0 <= i < j < r.len() implies (#[trigger] r[i]).created_at < (
        #[trigger] r[j]).created_at by {
            if j == p.len() {
                assert(r[i] == p[i]);
                if p[i] != event {
                    let l = choose|l: int| 0 <= l < rest.len() && rest[l] == p[i];
                    assert(events[l].created_at < last.created_at);
                }
            } else {
                assert(p[i].created_at < p[j].created_at);
            }
        }
    }
}

proof fn lemma_without_event_from(events: Seq<EventView>, event: EventView)
    ensures
        forall|i: int|
            0 <= i < without_event(events, event).len() ==> events.contains(
                #[trigger] without_event(events, event)[i],
            ),
        chronological(events) ==> chronological(without_event(events, event)),
    decreases events.len(),
{
    if events.len() > 0 {
        let rest = events.drop_last();
        lemma_without_event_from(rest, event);
        let p = without_event(rest, event);
        let r = without_event(events, event);
        assert forall|i: int| 0 <= i < r.len() implies events.contains(#[trigger] r[i]) by {
            if i < p.len() {
                assert(r[i] == p[i]);
                let l = choose|l: int| 0 <= l < rest.len() && rest[l] == p[i];
                assert(events[l] == r[i]);
            } else {
                assert(events[events.len() - 1] == r[i]);
            }
        }
        if chronological(events) {
            assert(chronological(rest));
            assert forall|i: int, j: int| 0 <= i < j < r.len() implies (#[trigger] r[i]).created_at
                < (#[trigger] r[j]).created_at by {
                if j < p.len() {
                    assert(p[i].created_at < p[j].created_at);
                } else {
                    assert(r[i] == p[i]);
                    let l = choose|l: int| 0 <= l < rest.len() && rest[l] == p[i];
                    assert(events[l].created_at < events[events.len() - 1].created_at);
                }
            }
        }
    }
}

proof fn lemma_with_tracking(history: HistoryView, event: EventView)
    requires
        histories_ordered(history),
    ensures
        histories_ordered(with_tracking(history, event)),
{
    lemma_history_found(history, event.pubkey);
    let at = history_at(history, event.pubkey);
    let r = with_tracking(history, event);
    if at < history.len() {
        let events = history[at].1;
        inserting_keeps_the_order(events, event);
        lemma_inserted_from(events, event);
        assert forall|i: int| 0 <= i < r.len() implies chronological((#[trigger] r[i]).1) && all_by(
            r[i].1,
            r[i].0,
        ) by {
            assert(chronological(history[i].1) && all_by(history[i].1, history[i].0));
            if i == at {
                let p = inserted(events, event);
                assert forall|k: int| 0 <= k < p.len() implies (#[trigger] p[k]).pubkey
                    == event.pubkey by {
                    if p[k] != event {
                        let l = choose|l: int| 0 <= l < events.len() && events[l] == p[k];
                        assert(events[l].pubkey == history[at].0);
                    }
                }
            }
        }
        assert forall|i: int, j: int| 0 <= i < j < r.len() implies (#[trigger] r[i]).0 != (
        #[trigger] r[j]).0 by {
            assert(history[i].0 != history[j].0);
        }
    } else {
        assert forall|i: int| 0 <= i < r.len() implies chronological((#[trigger] r[i]).1) && all_by(
            r[i].1,
            r[i].0,
        ) by {
            if i < history.len() {
                assert(chronological(history[i].1) && all_by(history[i].1, history[i].0));
            }
        }
        assert forall|i: int, j: int| 0 <= i < j < r.len() implies (#[trigger] r[i]).0 != (
        #[trigger] r[j]).0 by {
            if j < history.len() {
                assert(history[i].0 != history[j].0);
            } else {
                assert(history[i].0 != event.pubkey);
            }
        }
    }
}

// ---------------------------------------------------------------------------
// Tasks

proof fn lemma_with_task(tasks: TasksView, event: EventView)
    requires
        tasks_ordered(tasks),
    ensures
        tasks_ordered(with_task(tasks, event)),
{
    lemma_task_found(tasks, event.id);
    let r = with_task(tasks, event);
    if !has_task(tasks, event.id) {
        assert forall|i: int| 0 <= i < r.len() implies is_sorted_set::<Event>(
            (#[trigger] r[i]).props,
        ) by {
            if i < tasks.len() {
                assert(is_sorted_set::<Event>(tasks[i].props));
            }
        }
        assert forall|i: int, j: int| 0 <= i < j < r.len() implies (#[trigger] r[i]).event.id != (
        #[trigger] r[j]).event.id by {
            assert(tasks[i].event.id != event.id);
            if j < tasks.len() {
                assert(tasks[i].event.id != tasks[j].event.id);
            }
        }
    }
}

proof fn lemma_without_task(tasks: TasksView, id: EventId)
    requires
        tasks_ordered(tasks),
    ensures
        tasks_ordered(without_task(tasks, id)),
{
    lemma_task_found(tasks, id);
    let r = without_task(tasks, id);
    if has_task(tasks, id) {
        let at = task_at(tasks, id);
        assert forall|i: int| 0 <= i < r.len() implies is_sorted_set::<Event>(
            (#[trigger] r[i]).props,
        ) by {
            if i < at {
                assert(is_sorted_set::<Event>(tasks[i].props));
            } else {
                assert(is_sorted_set::<Event>(tasks[i + 1].props));
            }
        }
        assert forall|i: int, j: int| 0 <= i < j < r.len() implies (#[trigger] r[i]).event.id != (
        #[trigger] r[j]).event.id by {
            let a = if i < at {
                i
            } else {
                i + 1
            };
            let b = if j < at {
                j
            } else {
                j + 1
            };
            assert(tasks[a].event.id != tasks[b].event.id);
        }
    }
}

proof fn lemma_without_tie(props: Seq<EventView>, event: EventView)
    ensures
        forall|i: int|
            0 <= i < without_tie(props, event).len() ==> props.contains(
                #[trigger] without_tie(props, event)[i],
            ),
        is_sorted_set::<Event>(props) ==> is_sorted_set::<Event>(without_tie(props, event)),
    decreases props.len(),
{
    if props.len() > 0 {
        let rest = props.drop_last();
        lemma_without_tie(rest, event);
        let p = without_tie(rest, event);
        let r = without_tie(props, event);
        assert forall|i: int| 0 <= i < r.len() implies props.contains(#[trigger] r[i]) by {
            if i < p.len() {
                assert(r[i] == p[i]);
                let l = choose|l: int| 0 <= l < rest.len() && rest[l] == p[i];
                assert(props[l] == r[i]);
            } else {
                assert(props[props.len() - 1] == r[i]);
            }
        }
        if is_sorted_set::<Event>(props) {
            assert forall|i: int, j: int| 0 <= i <= j < rest.len() implies Event::leq(
                #[trigger] rest[i],
                #[trigger] rest[j],
            ) by {
                assert(Event::leq(props[i], props[j]));
            }
            assert forall|i: int, j: int| 0 <= i < j < rest.len() implies !ties::<Event>(
                #[trigger] rest[i],
                #[trigger] rest[j],
            ) by {
                assert(!ties::<Event>(props[i], props[j]));
            }
            let last = props[props.len() - 1];
            assert forall|i: int, j: int| 0 <= i <= j < r.len() implies Event::leq(
                #[trigger] r[i],
                #[trigger] r[j],
            ) by {
                if j < p.len() {
                    assert(Event::leq(p[i], p[j]));
                } else if i < p.len() {
                    let l = choose|l: int| 0 <= l < rest.len() && rest[l] == p[i];
                    assert(Event::leq(props[l], last));
                } else {
                    assert(Event::leq(last, props[props.len() - 1]));
                }
            }
            assert forall|i: int, j: int| 0 <= i < j < r.len() implies !ties::<Event>(
                #[trigger] r[i],
                #[trigger] r[j],
            ) by {
                if j < p.len() {
                    assert(!ties::<Event>(p[i], p[j]));
                } else {
                    let l = choose|l: int| 0 <= l < rest.len() && rest[l] == p[i];
                    assert(!ties::<Event>(props[l], props[props.len() - 1]));
                }
            }
        }
    }
}

/// With or without an update at the tasks that it refers to, tasks stay in order.
pub proof fn updating_keeps_the_order(tasks: TasksView, tags: Seq<TagView>, event: EventView)
    requires
        tasks_ordered(tasks),
    ensures
        tasks_ordered(with_prop_at(tasks, tags, event)),
        tasks_ordered(without_prop_at(tasks, tags, event)),
    decreases tags.len(),
{
    lemma_prop_at_ids(tasks, tags, event);
    let a = with_prop_at(tasks, tags, event);
    let b = without_prop_at(tasks, tags, event);
    if tags.len() > 0 {
        let rest = tags.drop_last();
        updating_keeps_the_order(tasks, rest, event);
        let c = with_prop_at(tasks, rest, event);
        let d = without_prop_at(tasks, rest, event);
        match prop_target(tags.last()) {
            Some(id) => {
                lemma_task_found(c, id);
                lemma_task_found(d, id);
                assert forall|i: int| 0 <= i < a.len() implies is_sorted_set::<Event>(
                    (#[trigger] a[i]).props,
                ) by {
                    assert(is_sorted_set::<Event>(c[i].props));
                    adding_keeps_a_sorted_set::<Event>(c[i].props, event);
                }
                assert forall|i: int| 0 <= i < b.len() implies is_sorted_set::<Event>(
                    (#[trigger] b[i]).props,
                ) by {
                    assert(is_sorted_set::<Event>(d[i].props));
                    lemma_without_tie(d[i].props, event);
                }
            },
            None => {},
        }
        assert forall|i: int, j: int| 0 <= i < j < a.len() implies (#[trigger] a[i]).event.id != (
        #[trigger] a[j]).event.id by {
            assert(tasks[i].event.id != tasks[j].event.id);
        }
        assert forall|i: int, j: int| 0 <= i < j < b.len() implies (#[trigger] b[i]).event.id != (
        #[trigger] b[j]).event.id by {
            assert(tasks[i].event.id != tasks[j].event.id);
        }
    }
}

// ---------------------------------------------------------------------------
// Operations

/// There is nothing out of order at the start.
pub proof fn a_new_relay_is_in_order(sender: SenderView)
    ensures
        RelayView::new(sender).in_order(),
{
}

/// Whatever comes in, the tasks and histories stay in order.
pub proof fn adding_keeps_the_order(relay: RelayView, event: EventView)
    requires
        relay.in_order(),
    ensures
        relay.added(event).in_order(),
{
    lemma_with_task(relay.tasks, event);
    lemma_with_tracking(relay.history, event);
    updating_keeps_the_order(relay.tasks, event.tags, event);
}

/// Trying again what could not be placed keeps the order.
pub proof fn reprocessing_keeps_the_order(relay: RelayView)
    requires
        relay.in_order(),
    ensures
        relay.overflow_processed().in_order(),
    decreases relay.overflow.len(),
{
    if relay.overflow.len() > 0 {
        let event = relay.overflow.last();
        let rest = RelayView { overflow: relay.overflow.drop_last(), ..relay };
        lemma_with_task(relay.tasks, event);
        updating_keeps_the_order(relay.tasks, event.tags, event);
        let after = match rest.prop_added(event) {
            Some(after) => after,
            None => rest,
        };
        reprocessing_keeps_the_order(RelayView { overflow: rest.overflow, ..after });
    }
}

proof fn lemma_removed(relay: RelayView, event: EventView)
    requires
        relay.in_order(),
    ensures
        relay.removed(event).in_order(),
{
    lemma_without_task(relay.tasks, event.id);
    updating_keeps_the_order(without_task(relay.tasks, event.id), event.tags, event);
    lemma_history_found(relay.history, relay.sender.key);
    let at = history_at(relay.history, relay.sender.key);
    let r = relay.removed(event).history;
    if at < relay.history.len() {
        let events = relay.history[at].1;
        lemma_without_event_from(events, event);
        assert forall|i: int| 0 <= i < r.len() implies chronological((#[trigger] r[i]).1) && all_by(
            r[i].1,
            r[i].0,
        ) by {
            assert(chronological(relay.history[i].1) && all_by(
                relay.history[i].1,
                relay.history[i].0,
            ));
            if i == at {
                let p = without_event(events, event);
                assert forall|k: int| 0 <= k < p.len() implies (#[trigger] p[k]).pubkey
                    == relay.history[at].0 by {
                    let l = choose|l: int| 0 <= l < events.len() && events[l] == p[k];
                    assert(events[l].pubkey == relay.history[at].0);
                }
            }
        }
        assert forall|i: int, j: int| 0 <= i < j < r.len() implies (#[trigger] r[i]).0 != (
        #[trigger] r[j]).0 by {
            assert(relay.history[i].0 != relay.history[j].0);
        }
    }
}

proof fn lemma_all_removed(relay: RelayView, events: Seq<EventView>)
    requires
        relay.in_order(),
    ensures
        relay.all_removed(events).in_order(),
    decreases events.len(),
{
    if events.len() > 0 {
        lemma_removed(relay, events.last());
        lemma_all_removed(relay.removed(events.last()), events.drop_last());
    }
}

/// Taking back what is pending keeps the order.
pub proof fn undoing_keeps_the_order(relay: RelayView)
    requires
        relay.in_order(),
    ensures
        relay.undone().in_order(),
{
    lemma_all_removed(
        RelayView { sender: relay.sender.cleared(), ..relay },
        relay.sender.queue,
    );
}

/// Making an event keeps the order.
pub proof fn submitting_keeps_the_order(relay: RelayView, builder: BuilderView, clock: u64)
    requires
        relay.in_order(),
    ensures
        relay.submitted(builder, clock).in_order(),
{
    let event = relay.event_from(builder, clock);
    adding_keeps_the_order(
        RelayView { sender: relay.sender.with_event(event, clock), ..relay },
        event,
    );
}

/// Tracking keeps the order.
pub proof fn tracking_keeps_the_order(
    relay: RelayView,
    time: u64,
    target: Option<EventId>,
    clock: u64,
)
    requires
        relay.in_order(),
    ensures
        relay.tracking_at(time, target, clock).in_order(),
{
    submitting_keeps_the_order(relay, relay.track_builder(time, target), clock);
}

/// Moving keeps the order.
pub proof fn moving_keeps_the_order(relay: RelayView, target: Option<EventId>, clock: u64)
    requires
        relay.in_order(),
    ensures
        relay.moved_to(target, clock).in_order(),
{
    match relay.custom_time {
        Some(time) => {
            tracking_keeps_the_order(relay, time, target, clock);
        },
        None => {
            let this = RelayView { view: Seq::empty(), ..relay };
            let flushed = if relay.is_child_of_position(target, clock) {
                this
            } else {
                RelayView { sender: relay.sender.flushed(), ..this }
            };
            submitting_keeps_the_order(
                flushed,
                crate::kinds::tracking_view(target).custom_created_at(relay.move_time(clock)),
                clock,
            );
        },
    }
}

proof fn lemma_state_set(
    relay: RelayView,
    id: EventId,
    comment: Seq<char>,
    state: State,
    clock: u64,
)
    requires
        relay.in_order(),
    ensures
        relay.state_set(id, comment, state, clock).in_order(),
{
    submitting_keeps_the_order(relay, relay.state_builder(id, comment, state), clock);
}

proof fn lemma_task_made(
    relay: RelayView,
    input: Seq<char>,
    tags: Seq<TagView>,
    set_state: bool,
    clock: u64,
)
    requires
        relay.in_order(),
    ensures
        relay.task_made(input, tags, set_state, clock).in_order(),
{
    match relay.new_task_builder(input, tags) {
        Some(b) => {
            submitting_keeps_the_order(relay, b, clock);
            match relay.state {
                FilterView::State(s) => {
                    lemma_state_set(
                        relay.submitted(b, clock),
                        relay.event_from(b, clock).id,
                        s,
                        RelayView::state_for(s),
                        clock,
                    );
                },
                _ => {},
            }
        },
        None => {},
    }
}

proof fn lemma_task_entered(relay: RelayView, input: Seq<char>, clock: u64)
    requires
        relay.in_order(),
    ensures
        relay.task_entered(input, State::Procedure, clock).in_order(),
{
    let tags = relay.position_tags(clock);
    lemma_task_made(relay, input, tags, false, clock);
    match relay.new_task_id(input, tags, clock) {
        Some(id) => {
            let made = relay.task_made(input, tags, false, clock);
            lemma_state_set(made, id, ""@, State::Procedure, clock);
            moving_keeps_the_order(
                made.state_set(id, ""@, State::Procedure, clock),
                Some(id),
                clock,
            );
        },
        None => {},
    }
}

proof fn lemma_matched_or_created(
    relay: RelayView,
    position: Option<EventId>,
    arg: Seq<char>,
    matching: Seq<EventId>,
    clock: u64,
)
    requires
        relay.in_order(),
    ensures
        relay.matched_or_created(position, arg, matching, clock).in_order(),
{
    let this = RelayView { view: Seq::empty(), ..relay };
    if matching.len() == 0 {
        lemma_task_made(
            this,
            arg,
            relay.position_tags_for(position, crate::tasks::now_of(clock)),
            true,
            clock,
        );
    } else {
        moving_keeps_the_order(relay, position, clock);
        moving_keeps_the_order(relay, Some(matching[0]), clock);
    }
}

proof fn lemma_state_entered(relay: RelayView, text: Seq<char>, time: Option<u64>, clock: u64)
    requires
        relay.in_order(),
    ensures
        relay.state_entered(text, time, clock).in_order(),
{
    reveal(RelayView::state_entered);
    match relay.position(clock) {
        Some(id) => {
            lemma_state_changed(relay, id, text, time, clock);
            let changed = relay.state_changed(id, text, time, clock);
            let left = RelayView { custom_time: None, ..changed };
            moving_keeps_the_order(left, left.position_parent(clock), clock);
        },
        None => {},
    }
}

proof fn lemma_state_changed(
    relay: RelayView,
    id: EventId,
    text: Seq<char>,
    time: Option<u64>,
    clock: u64,
)
    requires
        relay.in_order(),
    ensures
        relay.state_changed(id, text, time, clock).in_order(),
{
    lemma_state_set(relay, id, text, RelayView::state_for(text), clock);
    match crate::text::parted(text, ": "@) {
        Some((left, right)) => {
            match crate::task::state::state_of_name(left) {
                Some(state) => {
                    lemma_state_set(relay, id, right, state, clock);
                },
                None => {},
            }
            match time {
                Some(stamp) => {
                    lemma_held_back(relay, id, right, stamp, clock);
                },
                None => {},
            }
        },
        None => {},
    }
}

proof fn lemma_held_back(
    relay: RelayView,
    id: EventId,
    reason: Seq<char>,
    until: u64,
    clock: u64,
)
    requires
        relay.in_order(),
    ensures
        relay.held_back(id, reason, until, clock).in_order(),
{
    let state = match crate::tasks::task_map::task_of(relay.tasks, id) {
        Some(t) => t.state_at(crate::tasks::now_of(clock)),
        None => None,
    };
    let label = match state {
        Some(c) => c.label(),
        None => ""@,
    };
    lemma_state_set(relay, id, reason, State::Pending, clock);
    let pending = relay.state_set(id, reason, State::Pending, clock);
    lemma_state_set(
        RelayView { custom_time: Some(until), ..pending },
        id,
        label,
        crate::task::state::pure_state_of(state),
        clock,
    );
}

proof fn lemma_ended(relay: RelayView, comment: Seq<char>, state: State, clock: u64)
    requires
        relay.in_order(),
    ensures
        relay.ended(comment, state, clock).in_order(),
{
    reveal(RelayView::ended);
    let set = match relay.position(clock) {
        Some(id) => relay.state_set(id, comment, state, clock),
        None => relay,
    };
    match relay.position(clock) {
        Some(id) => {
            lemma_state_set(relay, id, comment, state, clock);
        },
        None => {},
    }
    moving_keeps_the_order(set, set.position_parent(clock), clock);
}

proof fn lemma_sibling_made(relay: RelayView, input: Seq<char>, clock: u64)
    requires
        relay.in_order(),
    ensures
        relay.sibling_made(input, clock).in_order(),
{
    reveal(RelayView::sibling_made);
    match relay.position(clock) {
        Some(pos) => {
            moving_keeps_the_order(relay, relay.position_parent(clock), clock);
            let up = relay.moved_up(clock);
            lemma_task_made(up, input, up.sibling_tags(pos, clock), true, clock);
        },
        None => {
            lemma_task_entered(relay, input, clock);
        },
    }
}

proof fn lemma_tasks_made(relay: RelayView, lines: Seq<Seq<char>>, clock: u64)
    requires
        relay.in_order(),
    ensures
        relay.tasks_made(lines, clock).in_order(),
    decreases lines.len(),
{
    reveal_with_fuel(RelayView::tasks_made, 2);
    if lines.len() > 0 {
        lemma_tasks_made(relay, lines.drop_last(), clock);
        let before = relay.tasks_made(lines.drop_last(), clock);
        lemma_task_made(before, lines.last(), before.position_tags(clock), true, clock);
    }
}

proof fn lemma_moves(
    relay: RelayView,
    command: CommandView,
    clock: u64,
    keys: KeysView,
    time: Option<u64>,
)
    requires
        relay.in_order(),
        command.is_move(),
    ensures
        relay.executed(command, clock, keys, time).0.in_order(),
{
    match command {
        CommandView::BackBy(steps) => {
            reveal(RelayView::moved_back_by);
            moving_keeps_the_order(relay, relay.position_back(steps as nat, clock), clock);
        },
        CommandView::BackTo(text) => {
            reveal(RelayView::found_back);
            match crate::tasks::context::first_titled(
                relay.tasks,
                relay.past(crate::tasks::now_of(clock)),
                text,
            ) {
                Some(e) => {
                    moving_keeps_the_order(
                        relay,
                        crate::tasks::durations::first_ref(e),
                        clock,
                    );
                },
                None => {},
            }
        },
        CommandView::Track(name) => {
            reveal(RelayView::tracked_by);
            match time {
                Some(t) => {
                    tracking_keeps_the_order(relay, t, relay.position(clock), clock);
                },
                None => {},
            }
        },
        CommandView::StopAt(_) => {
            reveal(RelayView::stopped);
            match time {
                Some(t) => {
                    tracking_keeps_the_order(relay, t, None, clock);
                },
                None => {},
            }
        },
        CommandView::Up(count) => {
            reveal(RelayView::moved_above);
            moving_keeps_the_order(relay, relay.above(count, clock), clock);
        },
        CommandView::Depth(count, _) => {
            reveal(RelayView::moved_if_above);
            moving_keeps_the_order(relay, relay.above(count, clock), clock);
        },
        CommandView::SearchDepth(count, _) => {
            reveal(RelayView::moved_if_above);
            moving_keeps_the_order(relay, relay.above(count, clock), clock);
        },
        CommandView::Over(count) => {
            reveal(RelayView::moved_over);
            moving_keeps_the_order(relay, relay.above(count, clock), clock);
        },
        CommandView::Enter(count, text) => {
            lemma_entered(relay, count, text, clock, keys);
        },
        CommandView::Search(count, text) => {
            lemma_found(relay, count, text, clock, keys);
        },
        _ => {
            reveal(RelayView::moved_to_root);
            moving_keeps_the_order(relay, None, clock);
        },
    }
}

proof fn lemma_entered(relay: RelayView, count: int, text: Seq<char>, clock: u64, keys: KeysView)
    requires
        relay.in_order(),
    ensures
        relay.entered(count, text, clock, keys).in_order(),
{
    reveal(RelayView::entered);
    let pos = relay.above(count, clock);
    let matching = relay.matching(crate::tasks::now_of(clock), keys, pos, text);
    lemma_matched_or_created(relay, pos, text, matching, clock);
    match relay.created_id(pos, text, matching, clock) {
        Some(id) => {
            moving_keeps_the_order(
                relay.matched_or_created(pos, text, matching, clock),
                Some(id),
                clock,
            );
        },
        None => {},
    }
}

proof fn lemma_found(relay: RelayView, count: int, text: Seq<char>, clock: u64, keys: KeysView)
    requires
        relay.in_order(),
    ensures
        relay.found(count, text, clock, keys).0.in_order(),
{
    reveal(RelayView::found);
    let pos = relay.above(count, clock);
    let ids = crate::tasks::context::searched(
        relay.tasks,
        relay.filtered(crate::tasks::now_of(clock), keys, pos, false),
        text,
    );
    moving_keeps_the_order(relay, pos, clock);
    moving_keeps_the_order(relay, Some(ids[0]), clock);
}

proof fn lemma_proceeded(relay: RelayView, clock: u64)
    requires
        relay.in_order(),
    ensures
        relay.proceeded(clock).in_order(),
{
    reveal(RelayView::proceeded);
    match relay.position(clock) {
        Some(id) => {
            lemma_state_set(relay, id, ""@, State::Procedure, clock);
            lemma_state_set(relay, id, ""@, State::Open, clock);
        },
        None => {},
    }
}

proof fn lemma_edits(
    relay: RelayView,
    command: CommandView,
    clock: u64,
    keys: KeysView,
    time: Option<u64>,
)
    requires
        relay.in_order(),
        command.is_edit(),
    ensures
        relay.executed(command, clock, keys, time).0.in_order(),
{
    match command {
        CommandView::Note(note) => {
            reveal(RelayView::noted);
            submitting_keeps_the_order(relay, relay.note_builder(note, clock), clock);
        },
        CommandView::Finish(comment) => {
            lemma_ended(relay, comment, State::Done, clock);
        },
        CommandView::Close(comment) => {
            lemma_ended(relay, comment, State::Closed, clock);
        },
        CommandView::Undo => {
            reveal(RelayView::reverted);
            undoing_keeps_the_order(relay);
        },
        CommandView::Pin => {
            reveal(RelayView::pinned);
        },
        CommandView::Procedure => {
            lemma_proceeded(relay, clock);
        },
        CommandView::Sibling(input) => {
            lemma_sibling_made(relay, input, clock);
        },
        CommandView::EnterProcedure(input) => {
            reveal(RelayView::procedure_entered);
            lemma_task_entered(relay, input, clock);
        },
        CommandView::SetState(text) => {
            lemma_state_entered(relay, text, time, clock);
        },
        CommandView::Tasks(lines) => {
            lemma_tasks_made(relay, lines, clock);
        },
        CommandView::Match(text) => {
            reveal(RelayView::matched);
            let pos = relay.position(clock);
            lemma_matched_or_created(
                relay,
                pos,
                text,
                relay.matching(crate::tasks::now_of(clock), keys, pos, text),
                clock,
            );
        },
        _ => {},
    }
}

/// Whatever command is entered, the tasks and histories stay in order.
pub proof fn commands_keep_the_order(
    relay: RelayView,
    command: CommandView,
    clock: u64,
    keys: KeysView,
    time: Option<u64>,
)
    requires
        relay.in_order(),
    ensures
        relay.executed(command, clock, keys, time).0.in_order(),
{
    if command.is_edit() {
        lemma_edits(relay, command, clock, keys, time);
    } else if command.is_move() {
        lemma_moves(relay, command, clock, keys, time);
    }
}

} // verus!
