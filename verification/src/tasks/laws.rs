//! What holds of the library as a whole.

use crate::kinds::{
    extracted_name, tracking_round_trip, tracking_view, MARKER_PROPERTY, TASK_KIND, TEXT_NOTE_KIND,
    TRACKING_KIND,
};
use crate::lists::{
    adding_keeps_a_sorted_set, has_tie, is_sorted_set, lemma_contains_placed, placed, ties, Ordered,
};
use crate::nostr::{event_id_round_trip, BuilderView, Event, EventId, EventView, TagView};
use crate::task::state::{state_kind_round_trip, state_of_kind, State};
use crate::task::{change_at, change_of, same_place, without_tie, TaskView};
use crate::tasks::children_traversal::{subtree, subtree_starts_with_the_task};
use crate::tasks::create::{id_tag, id_tags};
use crate::tasks::durations::{first_ref, ids_in};
use crate::tasks::order::{
    chronological, histories_ordered, inserting_keeps_the_order, submitting_keeps_the_order,
    tasks_ordered,
};
use crate::tasks::task_map::{
    has_task, ids_unique, lemma_task_at, lemma_task_found, task_at, task_of, TasksView,
};
use crate::tasks::{
    free_time, has_target, has_time, history_at, inserted, latest_until, lemma_history_at,
    lemma_history_found, lemma_prop_at_ids, lemma_same_ids, now_of, prop_target, with_prop_at,
    with_task, with_tracking, without_event, without_prop_at, without_task, FilterView, HistoryView,
    RelayView,
};
use vstd::prelude::*;

verus! {

// ---------------------------------------------------------------------------
// Updates

/// Whether tags make an event an update of the given task.
pub open spec fn updates(tags: Seq<TagView>, id: EventId) -> bool {
    exists|k: int| 0 <= k < tags.len() && prop_target(#[trigger] tags[k]) == Some(id)
}

proof fn lemma_updates_last(tags: Seq<TagView>, id: EventId)
    requires
        tags.len() > 0,
    ensures
        updates(tags, id) <==> updates(tags.drop_last(), id) || prop_target(tags.last()) == Some(id),
{
    let rest = tags.drop_last();
    if updates(rest, id) {
        let k = choose|k: int| 0 <= k < rest.len() && prop_target(#[trigger] rest[k]) == Some(id);
        assert(prop_target(tags[k]) == Some(id));
    }
    if prop_target(tags.last()) == Some(id) {
        assert(prop_target(tags[tags.len() - 1]) == Some(id));
    }
    if updates(tags, id) {
        let k = choose|k: int| 0 <= k < tags.len() && prop_target(#[trigger] tags[k]) == Some(id);
        if k < rest.len() {
            assert(prop_target(rest[k]) == Some(id));
        }
    }
}

proof fn lemma_unique_place(tasks: TasksView, i: int)
    requires
        ids_unique(tasks),
        0 <= i < tasks.len(),
    ensures
        task_at(tasks, tasks[i].event.id) == i,
        has_task(tasks, tasks[i].event.id),
{
    assert forall|k: int| 0 <= k < i implies (#[trigger] tasks[k]).event.id != tasks[i].event.id by {
    }
    lemma_task_at(tasks, tasks[i].event.id, i);
}

/// An update is found at exactly the known tasks that it refers to.
pub proof fn lemma_reached(tasks: TasksView, tags: Seq<TagView>, event: EventView, i: int)
    requires
        tasks_ordered(tasks),
        0 <= i < tasks.len(),
    ensures
        with_prop_at(tasks, tags, event)[i] == if updates(tags, tasks[i].event.id) {
            tasks[i].with_prop(event)
        } else {
            tasks[i]
        },
    decreases tags.len(),
{
    let id = tasks[i].event.id;
    if tags.len() > 0 {
        let rest = tags.drop_last();
        lemma_reached(tasks, rest, event, i);
        lemma_updates_last(tags, id);
        lemma_prop_at_ids(tasks, rest, event);
        let before = with_prop_at(tasks, rest, event);
        assert(ids_unique(before)) by {
            assert forall|a: int, b: int| 0 <= a < b < before.len() implies (
            #[trigger] before[a]).event.id != (#[trigger] before[b]).event.id by {
                assert(tasks[a].event.id != tasks[b].event.id);
            }
        }
        lemma_unique_place(before, i);
        match prop_target(tags.last()) {
            Some(target) => {
                lemma_task_found(before, target);
                if target == id {
                    assert(is_sorted_set::<Event>(tasks[i].props));
                    adding_keeps_a_sorted_set::<Event>(tasks[i].props, event);
                }
            },
            None => {},
        }
    }
}

/// Removing an update leaves exactly the known tasks that it refers to without it.
proof fn lemma_unreached(tasks: TasksView, tags: Seq<TagView>, event: EventView, i: int)
    requires
        ids_unique(tasks),
        0 <= i < tasks.len(),
    ensures
        without_prop_at(tasks, tags, event)[i] == if updates(tags, tasks[i].event.id) {
            tasks[i].without_prop(event)
        } else {
            tasks[i]
        },
    decreases tags.len(),
{
    let id = tasks[i].event.id;
    if tags.len() > 0 {
        let rest = tags.drop_last();
        lemma_unreached(tasks, rest, event, i);
        lemma_updates_last(tags, id);
        lemma_prop_at_ids(tasks, rest, event);
        let before = without_prop_at(tasks, rest, event);
        assert(ids_unique(before)) by {
            assert forall|a: int, b: int| 0 <= a < b < before.len() implies (
            #[trigger] before[a]).event.id != (#[trigger] before[b]).event.id by {
                assert(tasks[a].event.id != tasks[b].event.id);
            }
        }
        lemma_unique_place(before, i);
        match prop_target(tags.last()) {
            Some(target) => {
                lemma_task_found(before, target);
                if target == id {
                    lemma_without_tie_twice(tasks[i].props, event);
                }
            },
            None => {},
        }
    }
}

proof fn lemma_without_tie_twice(props: Seq<EventView>, event: EventView)
    ensures
        without_tie(without_tie(props, event), event) == without_tie(props, event),
    decreases props.len(),
{
    if props.len() > 0 {
        lemma_without_tie_twice(props.drop_last(), event);
        let p = without_tie(props.drop_last(), event);
        let r = without_tie(props, event);
        if !same_place(props.last(), event) {
            assert(r.drop_last() =~= p);
        }
    }
}

/// Nothing in a list shares the place of an event.
pub open spec fn none_in_place_of(props: Seq<EventView>, event: EventView) -> bool {
    forall|i: int| 0 <= i < props.len() ==> !same_place(#[trigger] props[i], event)
}

proof fn lemma_without_none(props: Seq<EventView>, event: EventView)
    requires
        none_in_place_of(props, event),
    ensures
        without_tie(props, event) == props,
    decreases props.len(),
{
    if props.len() > 0 {
        let rest = props.drop_last();
        assert forall|i: int| 0 <= i < rest.len() implies !same_place(
            #[trigger] rest[i],
            event,
        ) by {
            assert(!same_place(props[i], event));
        }
        lemma_without_none(rest, event);
        assert(!same_place(props[props.len() - 1], event));
        assert(rest.push(props.last()) =~= props);
    } else {
        assert(props =~= Seq::<EventView>::empty());
    }
}

proof fn lemma_placed_and_taken(props: Seq<EventView>, event: EventView)
    requires
        none_in_place_of(props, event),
    ensures
        without_tie(placed::<Event>(props, event), event) == props,
    decreases props.len(),
{
    if props.len() == 0 {
        let p = placed::<Event>(props, event);
        assert(p.drop_last() =~= Seq::<EventView>::empty());
        assert(without_tie(p.drop_last(), event) == Seq::<EventView>::empty());
        assert(props =~= Seq::<EventView>::empty());
    } else if Event::leq(props.last(), event) {
        let p = placed::<Event>(props, event);
        assert(p.drop_last() =~= props);
        lemma_without_none(props, event);
    } else {
        let rest = props.drop_last();
        assert forall|i: int| 0 <= i < rest.len() implies !same_place(
            #[trigger] rest[i],
            event,
        ) by {
            assert(!same_place(props[i], event));
        }
        lemma_placed_and_taken(rest, event);
        let q = placed::<Event>(rest, event);
        assert(q.push(props.last()).drop_last() =~= q);
        assert(!same_place(props[props.len() - 1], event));
        assert(rest.push(props.last()) =~= props);
    }
}

proof fn lemma_no_tie(props: Seq<EventView>, event: EventView)
    requires
        none_in_place_of(props, event),
    ensures
        !has_tie::<Event>(props, event),
{
    assert forall|i: int| 0 <= i < props.len() implies !ties::<Event>(#[trigger] props[i], event) by {
        assert(!same_place(props[i], event));
    }
}

// ---------------------------------------------------------------------------
// Setting states

proof fn lemma_id_tag(url: Option<Seq<char>>, id: EventId)
    ensures
        prop_target(id_tag(url, id, MARKER_PROPERTY@)) == Some(id),
{
    event_id_round_trip(id);
}

proof fn lemma_state_targets(relay: RelayView, id: EventId, comment: Seq<char>, state: State, target: EventId)
    requires
        relay.state_targets(id, state).contains(target),
    ensures
        updates(relay.state_builder(id, comment, state).tags, target),
{
    let ids = relay.state_targets(id, state);
    let marks = id_tags(relay.sender.url, ids, MARKER_PROPERTY@);
    let tags = relay.state_builder(id, comment, state).tags;
    let k = choose|k: int| 0 <= k < ids.len() && ids[k] == target;
    assert(marks[k] == id_tag(relay.sender.url, target, MARKER_PROPERTY@));
    assert(tags[k] == marks[k]);
    lemma_id_tag(relay.sender.url, target);
    assert(prop_target(tags[k]) == Some(target));
}

/// Setting a state reaches every known task that it is meant for: all of the subtree where a task
/// is closed, and the task itself otherwise. Each of them is then a task with that update, and
/// has the state from the time of the update on unless there is another update as late.
pub proof fn a_state_reaches_what_it_is_set_for(
    relay: RelayView,
    id: EventId,
    comment: Seq<char>,
    state: State,
    clock: u64,
    target: EventId,
    time: u64,
)
    requires
        relay.in_order(),
        has_task(relay.tasks, target),
        relay.state_targets(id, state).contains(target),
    ensures
        ({
            let event = relay.event_from(relay.state_builder(id, comment, state), clock);
            let before = relay.tasks[task_at(relay.tasks, target)];
            let after = relay.state_set(id, comment, state, clock);
            &&& has_task(after.tasks, target)
            &&& task_of(after.tasks, target) == Some(before.with_prop(event))
            &&& has_tie::<Event>(before.with_prop(event).props, event)
            &&& time >= event.created_at && (forall|i: int|
                0 <= i < before.props.len() ==> (#[trigger] before.props[i]).created_at
                    < event.created_at) ==> {
                &&& before.with_prop(event).is_task()
                &&& before.with_prop(event).pure_state(time) == state
            }
        }),
{
    let builder = relay.state_builder(id, comment, state);
    let event = relay.event_from(builder, clock);
    let after = relay.state_set(id, comment, state, clock);
    lemma_state_targets(relay, id, comment, state, target);
    lemma_task_found(relay.tasks, target);
    let at = task_at(relay.tasks, target);
    let before = relay.tasks[at];
    state_kind_round_trip(state, event.kind);
    let k = choose|k: int|
        0 <= k < event.tags.len() && prop_target(#[trigger] event.tags[k]) == Some(target);
    assert(has_target(relay.tasks, event.tags));
    assert(after.tasks == with_prop_at(relay.tasks, event.tags, event));
    lemma_reached(relay.tasks, event.tags, event, at);
    lemma_prop_at_ids(relay.tasks, event.tags, event);
    assert forall|i: int| 0 <= i < at implies (#[trigger] after.tasks[i]).event.id != target by {
        assert(relay.tasks[i].event.id != target);
    }
    lemma_task_at(after.tasks, target, at);
    assert(is_sorted_set::<Event>(before.props));
    adding_keeps_a_sorted_set::<Event>(before.props, event);
    if time >= event.created_at && (forall|i: int|
        0 <= i < before.props.len() ==> (#[trigger] before.props[i]).created_at
            < event.created_at) {
        assert(none_in_place_of(before.props, event));
        lemma_no_tie(before.props, event);
        lemma_placed_first(before.props, event);
        let props = before.with_prop(event).props;
        assert(props[0] == event);
        assert(change_at(props, time) == change_of(event));
        assert(state_of_kind(props[0].kind) is Some);
    }
}

/// A new task gets the status that is filtered by, and so passes that filter from then on. (The
/// status is a plain text, without tags in it.)
pub proof fn a_new_task_gets_the_status(
    relay: RelayView,
    builder: BuilderView,
    status: Seq<char>,
    clock: u64,
    time: u64,
)
    requires
        relay.in_order(),
        builder.kind == TASK_KIND,
        !has_task(relay.tasks, relay.event_from(builder, clock).id),
        status.len() > 0,
        extracted_name(status, relay.submitted(builder, clock).users) == status,
        time >= relay.submitted(builder, clock).event_from(
            relay.submitted(builder, clock).state_builder(
                relay.event_from(builder, clock).id,
                status,
                RelayView::state_for(status),
            ),
            clock,
        ).created_at,
    ensures
        ({
            let id = relay.event_from(builder, clock).id;
            let after = relay.submitted(builder, clock).state_set(
                id,
                status,
                RelayView::state_for(status),
                clock,
            );
            &&& has_task(after.tasks, id)
            &&& FilterView::State(status).matches(after.tasks[task_at(after.tasks, id)], time)
        }),
{
    let event = relay.event_from(builder, clock);
    let id = event.id;
    let made = relay.submitted(builder, clock);
    let state = RelayView::state_for(status);
    submitting_keeps_the_order(relay, builder, clock);
    lemma_task_known(relay.tasks, event);
    let at = task_at(made.tasks, id);
    assert(made.tasks[at] == TaskView::of(event));
    if state == State::Closed {
        assert(subtree(made.tasks, id).contains(id)) by {
            subtree_starts_with_the_task(made.tasks, id);
        }
    } else {
        assert(made.state_targets(id, state)[0] == id);
    }
    a_state_reaches_what_it_is_set_for(made, id, status, state, clock, id, time);
    let update = made.event_from(made.state_builder(id, status, state), clock);
    let before = TaskView::of(event);
    assert(none_in_place_of(before.props, update));
    lemma_no_tie(before.props, update);
    lemma_placed_first(before.props, update);
    let props = before.with_prop(update).props;
    assert(props[0] == update);
    assert(change_at(props, time) == change_of(update));
}

proof fn lemma_placed_first(props: Seq<EventView>, event: EventView)
    requires
        forall|i: int|
            0 <= i < props.len() ==> (#[trigger] props[i]).created_at < event.created_at,
    ensures
        placed::<Event>(props, event) == seq![event] + props,
    decreases props.len(),
{
    if props.len() == 0 {
        assert(seq![event] + props =~= seq![event]);
    } else {
        let rest = props.drop_last();
        assert forall|i: int| 0 <= i < rest.len() implies (#[trigger] rest[i]).created_at
            < event.created_at by {
            assert(props[i].created_at < event.created_at);
        }
        assert(props[props.len() - 1].created_at < event.created_at);
        lemma_placed_first(rest, event);
        assert((seq![event] + rest).push(props.last()) =~= seq![event] + props);
    }
}

// ---------------------------------------------------------------------------
// Events that come in again

proof fn lemma_inserted_twice(events: Seq<EventView>, event: EventView)
    ensures
        inserted(inserted(events, event), event) == inserted(events, event),
    decreases events.len(),
{
    let r = inserted(events, event);
    if events.len() == 0 || events.last().created_at < event.created_at {
        assert(r.drop_last().push(event) =~= r);
    } else if events.last().created_at == event.created_at {
        assert(r.drop_last().push(event) =~= r);
    } else {
        lemma_inserted_twice(events.drop_last(), event);
        assert(r.drop_last() =~= inserted(events.drop_last(), event));
    }
}

proof fn lemma_tracked_twice(history: HistoryView, event: EventView)
    ensures
        with_tracking(with_tracking(history, event), event) == with_tracking(history, event),
{
    let key = event.pubkey;
    lemma_history_found(history, key);
    let at = history_at(history, key);
    let once = with_tracking(history, event);
    assert forall|i: int| 0 <= i < at implies (#[trigger] once[i]).0 != key by {
        assert(history[i].0 != key);
    }
    lemma_history_at(once, key, at);
    if at < history.len() {
        lemma_inserted_twice(history[at].1, event);
    } else {
        let only = seq![event];
        assert(inserted(only, event) =~= only);
    }
    assert(with_tracking(once, event) =~= once);
}

/// The task that an event starts is known from then on.
proof fn lemma_task_known(tasks: TasksView, event: EventView)
    ensures
        has_task(with_task(tasks, event), event.id),
        !has_task(tasks, event.id) ==> task_at(with_task(tasks, event), event.id) == tasks.len(),
{
    lemma_task_found(tasks, event.id);
    if !has_task(tasks, event.id) {
        let r = with_task(tasks, event);
        assert forall|i: int| 0 <= i < tasks.len() implies (#[trigger] r[i]).event.id != event.id by {
            assert(tasks[i].event.id != event.id);
        }
        lemma_task_at(r, event.id, tasks.len() as int);
    }
}

proof fn lemma_targets_stay(a: TasksView, b: TasksView, tags: Seq<TagView>)
    requires
        a.len() == b.len(),
        forall|i: int| 0 <= i < a.len() ==> (#[trigger] a[i]).event == b[i].event,
    ensures
        has_target(a, tags) == has_target(b, tags),
{
    assert forall|id: EventId| has_task(a, id) == has_task(b, id) by {
        lemma_same_ids(a, b, id);
    }
    if has_target(a, tags) {
        let i = choose|i: int|
            0 <= i < tags.len() && (prop_target(#[trigger] tags[i]) matches Some(id) && has_task(
                a,
                id,
            ));
        assert(prop_target(tags[i]) matches Some(id) && has_task(b, id));
    }
    if has_target(b, tags) {
        let i = choose|i: int|
            0 <= i < tags.len() && (prop_target(#[trigger] tags[i]) matches Some(id) && has_task(
                b,
                id,
            ));
        assert(prop_target(tags[i]) matches Some(id) && has_task(a, id));
    }
}

proof fn lemma_updated_twice(tasks: TasksView, event: EventView)
    requires
        tasks_ordered(tasks),
    ensures
        with_prop_at(with_prop_at(tasks, event.tags, event), event.tags, event) == with_prop_at(
            tasks,
            event.tags,
            event,
        ),
        has_target(with_prop_at(tasks, event.tags, event), event.tags) == has_target(
            tasks,
            event.tags,
        ),
{
    let once = with_prop_at(tasks, event.tags, event);
    let twice = with_prop_at(once, event.tags, event);
    crate::tasks::order::updating_keeps_the_order(tasks, event.tags, event);
    lemma_prop_at_ids(tasks, event.tags, event);
    lemma_prop_at_ids(once, event.tags, event);
    lemma_targets_stay(once, tasks, event.tags);
    assert forall|i: int| 0 <= i < once.len() implies twice[i] == once[i] by {
        lemma_reached(tasks, event.tags, event, i);
        lemma_reached(once, event.tags, event, i);
        assert(is_sorted_set::<Event>(tasks[i].props));
        adding_keeps_a_sorted_set::<Event>(tasks[i].props, event);
    }
    assert(twice =~= once);
}

/// An event that comes in again changes no task, history or bookmark. (No event refers to itself:
/// its id is a hash of what it says.)
pub proof fn coming_in_again_changes_nothing(relay: RelayView, event: EventView)
    requires
        relay.in_order(),
        !updates(event.tags, event.id),
    ensures
        ({
            let once = relay.added(event);
            let twice = once.added(event);
            &&& twice.tasks == once.tasks
            &&& twice.history == once.history
            &&& twice.bookmarks == once.bookmarks
        }),
{
    lemma_task_known(relay.tasks, event);
    lemma_tracked_twice(relay.history, event);
    lemma_updated_twice(relay.tasks, event);
    if event.kind == TEXT_NOTE_KIND && !has_target(relay.tasks, event.tags) {
        let noted = with_task(relay.tasks, event);
        if has_target(noted, event.tags) {
            let k = choose|k: int|
                0 <= k < event.tags.len() && (prop_target(#[trigger] event.tags[k]) matches Some(
                    id,
                ) && has_task(noted, id));
            let id = prop_target(event.tags[k]).unwrap();
            assert(updates(event.tags, id));
            lemma_task_found(noted, id);
            let at = task_at(noted, id);
            if at < relay.tasks.len() {
                assert(relay.tasks[at].event.id == id);
                assert(noted[at] == relay.tasks[at]);
                lemma_task_found(relay.tasks, id);
                if !has_task(relay.tasks, id) {
                    assert(relay.tasks[at].event.id != id);
                }
                assert(has_target(relay.tasks, event.tags));
            } else {
                assert(noted[at].event.id == event.id);
            }
            assert(false);
        }
    }
}

/// Nothing that is known is ever changed or lost by what comes in: each task keeps its event and
/// all of its updates.
pub proof fn what_is_known_stays_known(relay: RelayView, event: EventView)
    requires
        relay.in_order(),
    ensures
        ({
            let after = relay.added(event).tasks;
            &&& after.len() >= relay.tasks.len()
            &&& forall|i: int|
                0 <= i < relay.tasks.len() ==> (#[trigger] after[i]).event == relay.tasks[i].event
            &&& forall|i: int, update: EventView|
                0 <= i < relay.tasks.len() && #[trigger] relay.tasks[i].props.contains(update)
                    ==> after[i].props.contains(update)
        }),
{
    let tasks = relay.tasks;
    let updated = with_prop_at(tasks, event.tags, event);
    lemma_prop_at_ids(tasks, event.tags, event);
    assert forall|i: int, update: EventView|
        0 <= i < tasks.len() && #[trigger] tasks[i].props.contains(
            update,
        ) implies updated[i].props.contains(update) by {
        lemma_reached(tasks, event.tags, event, i);
        lemma_contains_placed::<Event>(tasks[i].props, event, update);
    }
}

/// Any event can be made a task by giving it a state that is new to it.
pub proof fn a_state_makes_a_task(task: TaskView, change: EventView)
    requires
        !has_tie::<Event>(task.props, change),
        state_of_kind(change.kind) is Some,
    ensures
        task.with_prop(change).is_task(),
{
    lemma_contains_placed::<Event>(task.props, change, change);
    let props = task.with_prop(change).props;
    let k = choose|k: int| 0 <= k < props.len() && props[k] == change;
    assert(state_of_kind(props[k].kind) is Some);
}

// ---------------------------------------------------------------------------
// Undoing

impl RelayView {
    /// Nothing that is known is this event or refers to it, and the second of a tracking event is
    /// free.
    pub open spec fn is_new(self, event: EventView) -> bool {
        &&& !has_task(self.tasks, event.id)
        &&& forall|i: int|
            0 <= i < self.tasks.len() ==> none_in_place_of((#[trigger] self.tasks[i]).props, event)
        &&& none_about(self.own_events(), event)
        &&& event.kind == TRACKING_KIND ==> !has_time(self.own_events(), event.created_at)
        &&& !updates(event.tags, event.id)
    }
}

/// None of the events is the given one or refers to it.
pub open spec fn none_about(events: Seq<EventView>, event: EventView) -> bool {
    forall|i: int|
        0 <= i < events.len() ==> (#[trigger] events[i]) != event && first_ref(events[i]) != Some(
            event.id,
        )
}

proof fn lemma_without_new(events: Seq<EventView>, event: EventView)
    requires
        none_about(events, event),
    ensures
        without_event(events, event) == events,
    decreases events.len(),
{
    if events.len() > 0 {
        let rest = events.drop_last();
        assert forall|i: int| 0 <= i < rest.len() implies (#[trigger] rest[i]) != event && first_ref(
            rest[i],
        ) != Some(event.id) by {
            assert(events[i] != event);
        }
        lemma_without_new(rest, event);
        assert(events[events.len() - 1] != event);
        assert(rest.push(events.last()) =~= events);
    } else {
        assert(events =~= Seq::<EventView>::empty());
    }
}

proof fn lemma_inserted_and_taken(events: Seq<EventView>, event: EventView)
    requires
        none_about(events, event),
        !has_time(events, event.created_at),
    ensures
        without_event(inserted(events, event), event) == events,
    decreases events.len(),
{
    let r = inserted(events, event);
    if events.len() == 0 || events.last().created_at < event.created_at {
        assert(r.drop_last() =~= events);
        lemma_without_new(events, event);
    } else {
        assert(events[events.len() - 1].created_at != event.created_at);
        let rest = events.drop_last();
        assert forall|i: int| 0 <= i < rest.len() implies (#[trigger] rest[i]) != event && first_ref(
            rest[i],
        ) != Some(event.id) by {
            assert(events[i] != event);
        }
        assert(!has_time(rest, event.created_at)) by {
            assert forall|i: int| 0 <= i < rest.len() implies (#[trigger] rest[i]).created_at
                != event.created_at by {
                assert(events[i].created_at != event.created_at);
            }
        }
        lemma_inserted_and_taken(rest, event);
        assert(r.drop_last() =~= inserted(rest, event));
        assert(events[events.len() - 1] != event);
        assert(rest.push(events.last()) =~= events);
    }
}

proof fn lemma_untouched(tasks: TasksView, event: EventView)
    requires
        ids_unique(tasks),
        forall|i: int|
            0 <= i < tasks.len() ==> none_in_place_of((#[trigger] tasks[i]).props, event),
    ensures
        without_prop_at(tasks, event.tags, event) == tasks,
{
    lemma_prop_at_ids(tasks, event.tags, event);
    let r = without_prop_at(tasks, event.tags, event);
    assert forall|i: int| 0 <= i < tasks.len() implies r[i] == tasks[i] by {
        lemma_unreached(tasks, event.tags, event, i);
        assert(none_in_place_of(tasks[i].props, event));
        lemma_without_none(tasks[i].props, event);
    }
    assert(r =~= tasks);
}

proof fn lemma_update_taken(tasks: TasksView, event: EventView)
    requires
        tasks_ordered(tasks),
        forall|i: int|
            0 <= i < tasks.len() ==> none_in_place_of((#[trigger] tasks[i]).props, event),
    ensures
        without_prop_at(with_prop_at(tasks, event.tags, event), event.tags, event) == tasks,
{
    let updated = with_prop_at(tasks, event.tags, event);
    let r = without_prop_at(updated, event.tags, event);
    lemma_prop_at_ids(tasks, event.tags, event);
    lemma_prop_at_ids(updated, event.tags, event);
    crate::tasks::order::updating_keeps_the_order(tasks, event.tags, event);
    assert forall|i: int| 0 <= i < tasks.len() implies r[i] == tasks[i] by {
        lemma_reached(tasks, event.tags, event, i);
        lemma_unreached(updated, event.tags, event, i);
        assert(none_in_place_of(tasks[i].props, event));
        lemma_no_tie(tasks[i].props, event);
        lemma_placed_and_taken(tasks[i].props, event);
    }
    assert(r =~= tasks);
}

proof fn lemma_removal(relay: RelayView, event: EventView)
    requires
        relay.in_order(),
        relay.is_new(event),
        event.pubkey == relay.sender.key,
    ensures
        relay.added(event).removed(event).tasks == relay.tasks,
        relay.added(event).removed(event).own_events() == relay.own_events(),
{
    let after = relay.added(event);
    lemma_task_known(relay.tasks, event);
    lemma_task_found(relay.tasks, event.id);
    lemma_untouched(relay.tasks, event);
    lemma_update_taken(relay.tasks, event);
    let with = with_task(relay.tasks, event);
    assert(without_task(with, event.id) =~= relay.tasks);
    let updated = with_prop_at(relay.tasks, event.tags, event);
    lemma_prop_at_ids(relay.tasks, event.tags, event);
    lemma_same_ids(updated, relay.tasks, event.id);
    assert(after.removed(event).tasks == relay.tasks);
    // Histories
    let key = relay.sender.key;
    lemma_history_found(relay.history, key);
    let at = history_at(relay.history, key);
    let h = after.history;
    assert forall|i: int| 0 <= i < at implies (#[trigger] h[i]).0 != key by {
        assert(relay.history[i].0 != key);
    }
    lemma_history_at(h, key, at);
    let g = after.removed(event).history;
    assert forall|i: int| 0 <= i < at implies (#[trigger] g[i]).0 != key by {
        assert(relay.history[i].0 != key);
    }
    lemma_history_at(g, key, at);
    lemma_without_new(relay.own_events(), event);
    if event.kind == TRACKING_KIND {
        lemma_inserted_and_taken(relay.own_events(), event);
        if at == relay.history.len() {
            let only = seq![event];
            assert(only.drop_last() =~= Seq::<EventView>::empty());
            assert(without_event(only.drop_last(), event) == Seq::<EventView>::empty());
            assert(g[at].1 == without_event(only, event));
        }
    }
    assert(after.removed(event).own_events() =~= relay.own_events());
}

impl RelayView {
    /// Events are made one after another, each at its time on the clock.
    pub open spec fn all_submitted(self, made: Seq<(BuilderView, u64)>) -> RelayView
        decreases made.len(),
    {
        if made.len() == 0 {
            self
        } else {
            self.all_submitted(made.drop_last()).submitted(made.last().0, made.last().1)
        }
    }

    /// Whether each event is new when it is made, and joins those that are pending: none of them
    /// is handed over meanwhile, and no tracking takes the place of another.
    pub open spec fn all_pending(self, made: Seq<(BuilderView, u64)>) -> bool
        decreases made.len(),
    {
        made.len() == 0 || {
            let before = self.all_submitted(made.drop_last());
            let event = before.event_from(made.last().0, made.last().1);
            &&& self.all_pending(made.drop_last())
            &&& before.is_new(event)
            &&& before.sender.with_event(event, made.last().1).queue == before.sender.queue.push(
                event,
            )
        }
    }
}

proof fn lemma_removed_own(relay: RelayView, event: EventView)
    ensures
        relay.removed(event).own_events() == without_event(relay.own_events(), event),
{
    let key = relay.sender.key;
    lemma_history_found(relay.history, key);
    let at = history_at(relay.history, key);
    let h = relay.removed(event).history;
    assert forall|i: int| 0 <= i < at implies (#[trigger] h[i]).0 != key by {
        assert(relay.history[i].0 != key);
    }
    lemma_history_at(h, key, at);
}

/// What is left of the tasks and of one's own history rests on those alone.
proof fn lemma_removed_alike(a: RelayView, b: RelayView, events: Seq<EventView>)
    requires
        a.tasks == b.tasks,
        a.sender.key == b.sender.key,
        a.own_events() == b.own_events(),
    ensures
        a.all_removed(events).tasks == b.all_removed(events).tasks,
        a.all_removed(events).own_events() == b.all_removed(events).own_events(),
        a.all_removed(events).sender == a.sender,
    decreases events.len(),
{
    if events.len() > 0 {
        lemma_removed_own(a, events.last());
        lemma_removed_own(b, events.last());
        lemma_removed_alike(
            a.removed(events.last()),
            b.removed(events.last()),
            events.drop_last(),
        );
    }
}

proof fn lemma_undoing(relay: RelayView, made: Seq<(BuilderView, u64)>)
    requires
        relay.in_order(),
        relay.sender.queue.len() == 0,
        relay.all_pending(made),
    ensures
        relay.all_submitted(made).in_order(),
        relay.all_submitted(made).undone().tasks == relay.tasks,
        relay.all_submitted(made).undone().own_events() == relay.own_events(),
    decreases made.len(),
{
    if made.len() > 0 {
        let (builder, clock) = made.last();
        lemma_undoing(relay, made.drop_last());
        let before = relay.all_submitted(made.drop_last());
        let event = before.event_from(builder, clock);
        let after = before.submitted(builder, clock);
        crate::tasks::order::submitting_keeps_the_order(before, builder, clock);
        let held = RelayView { sender: before.sender.with_event(event, clock), ..before };
        assert(held.own_events() == before.own_events());
        lemma_removal(held, event);
        assert(after.sender.queue.last() == event);
        assert(after.sender.queue.drop_last() =~= before.sender.queue);
        let cleared = RelayView { sender: after.sender.cleared(), ..after };
        assert(cleared.removed(event).own_events() == after.removed(event).own_events());
        lemma_removed_alike(
            cleared.removed(event),
            RelayView { sender: before.sender.cleared(), ..before },
            before.sender.queue,
        );
    }
}

/// Undoing takes back all that is pending: the tasks with their updates and what the user has
/// tracked are as before. This is for events that are really new, with nothing else pending.
pub proof fn undoing_takes_back_all_that_is_pending(
    relay: RelayView,
    made: Seq<(BuilderView, u64)>,
)
    requires
        relay.in_order(),
        relay.sender.queue.len() == 0,
        relay.all_pending(made),
    ensures
        ({
            let after = relay.all_submitted(made).undone();
            &&& after.tasks == relay.tasks
            &&& after.own_events() == relay.own_events()
            &&& after.sender.queue == Seq::<EventView>::empty()
        }),
{
    lemma_undoing(relay, made);
    let last = relay.all_submitted(made);
    let cleared = RelayView { sender: last.sender.cleared(), ..last };
    lemma_removed_alike(cleared, cleared, last.sender.queue);
}

/// Undoing takes back what was made last: the tasks with their updates and what the user has
/// tracked are as before. This is for an event that is really new, with nothing else pending.
pub proof fn undoing_takes_back_what_was_made(relay: RelayView, builder: BuilderView, clock: u64)
    requires
        relay.in_order(),
        relay.sender.queue.len() == 0,
        relay.is_new(relay.event_from(builder, clock)),
    ensures
        ({
            let after = relay.submitted(builder, clock).undone();
            &&& after.tasks == relay.tasks
            &&& after.own_events() == relay.own_events()
            &&& after.sender.queue == Seq::<EventView>::empty()
        }),
{
    let event = relay.event_from(builder, clock);
    let made = seq![(builder, clock)];
    assert(made.drop_last() =~= Seq::<(BuilderView, u64)>::empty());
    assert(made.last() == (builder, clock));
    assert(relay.sender.queue =~= Seq::<EventView>::empty());
    assert(relay.sender.with_event(event, clock).queue =~= relay.sender.queue.push(event));
    reveal_with_fuel(RelayView::all_submitted, 2);
    reveal_with_fuel(RelayView::all_pending, 2);
    undoing_takes_back_all_that_is_pending(relay, made);
}

// ---------------------------------------------------------------------------
// Tracking

proof fn lemma_latest(events: Seq<EventView>, event: EventView)
    requires
        chronological(events),
        events.contains(event),
    ensures
        latest_until(events, event.created_at) == Some(event),
    decreases events.len(),
{
    let k = choose|k: int| 0 <= k < events.len() && events[k] == event;
    if k < events.len() - 1 {
        assert(events[k].created_at < events[events.len() - 1].created_at);
        let rest = events.drop_last();
        assert(rest[k] == event);
        assert forall|i: int, j: int| 0 <= i < j < rest.len() implies (
        #[trigger] rest[i]).created_at < (#[trigger] rest[j]).created_at by {
            assert(events[i].created_at < events[j].created_at);
        }
        lemma_latest(rest, event);
    }
}

/// The event of one's own that has come in stands in the own history.
proof fn lemma_own_tracking(relay: RelayView, event: EventView)
    requires
        histories_ordered(relay.history),
        event.kind == TRACKING_KIND,
        event.pubkey == relay.sender.key,
    ensures
        relay.added(event).own_events() == inserted(relay.own_events(), event),
        chronological(relay.own_events()),
{
    let key = relay.sender.key;
    lemma_history_found(relay.history, key);
    let at = history_at(relay.history, key);
    let h = relay.added(event).history;
    assert forall|i: int| 0 <= i < at implies (#[trigger] h[i]).0 != key by {
        assert(relay.history[i].0 != key);
    }
    lemma_history_at(h, key, at);
    if at < relay.history.len() {
        assert(chronological(relay.history[at].1));
    } else {
        assert(inserted(Seq::<EventView>::empty(), event) =~= seq![event]);
    }
}

proof fn lemma_tracking_ref(target: Option<EventId>, time: u64, relay: RelayView, clock: u64)
    ensures
        first_ref(relay.event_from(tracking_view(target).custom_created_at(time), clock)) == target,
{
    tracking_round_trip(target);
    let tags = tracking_view(target).tags;
    match target {
        Some(id) => {
            assert(tags.drop_last() =~= Seq::<TagView>::empty());
            assert(ids_in(tags.drop_last()) =~= Seq::<EventId>::empty());
            assert(tags.last() == tags[0]);
            assert(ids_in(tags) =~= seq![id]);
        },
        None => {},
    }
}

/// What is tracked from a time on is the position then.
pub proof fn tracking_is_read_back(
    relay: RelayView,
    time: u64,
    target: Option<EventId>,
    clock: u64,
)
    requires
        relay.in_order(),
        relay.custom_time is None,
    ensures
        relay.tracking_at(time, target, clock).position_at(
            relay.tracking_time(time, target),
            clock,
        ).1 == target,
{
    let t = relay.tracking_time(time, target);
    if !relay.is_tracked_at(t, target, clock) {
        let builder = relay.track_builder(time, target);
        let event = relay.event_from(builder, clock);
        let held = RelayView { sender: relay.sender.with_event(event, clock), ..relay };
        lemma_own_tracking(held, event);
        inserting_keeps_the_order(relay.own_events(), event);
        lemma_latest(inserted(relay.own_events(), event), event);
        lemma_tracking_ref(target, t, relay, clock);
    }
}

/// A task that is stopped and another that is started at the same time do not overlap: the stop
/// is recorded before the start.
pub proof fn stopping_comes_before_starting(relay: RelayView, time: u64, id: EventId)
    requires
        time > 0,
    ensures
        relay.tracking_time(time, None) < relay.tracking_time(time, Some(id)),
{
    lemma_free_time(relay.own_events(), time);
}

proof fn lemma_free_time(events: Seq<EventView>, time: u64)
    ensures
        free_time(events, time) >= time,
    decreases u64::MAX - time,
{
    if time < u64::MAX && has_time(events, time) {
        lemma_free_time(events, (time + 1) as u64);
    }
}

proof fn lemma_latest_until(events: Seq<EventView>, event: EventView, time: u64)
    requires
        chronological(events),
        events.contains(event),
        event.created_at <= time,
        forall|i: int|
            0 <= i < events.len() && (#[trigger] events[i]).created_at <= time
                ==> events[i].created_at <= event.created_at,
    ensures
        latest_until(events, time) == Some(event),
    decreases events.len(),
{
    let k = choose|k: int| 0 <= k < events.len() && events[k] == event;
    if k < events.len() - 1 {
        assert(events[k].created_at < events[events.len() - 1].created_at);
        let rest = events.drop_last();
        assert(rest[k] == event);
        assert forall|i: int, j: int| 0 <= i < j < rest.len() implies (
        #[trigger] rest[i]).created_at < (#[trigger] rest[j]).created_at by {
            assert(events[i].created_at < events[j].created_at);
        }
        assert forall|i: int|
            0 <= i < rest.len() && (#[trigger] rest[i]).created_at
                <= time implies rest[i].created_at <= event.created_at by {
            assert(events[i].created_at <= time);
        }
        lemma_latest_until(rest, event, time);
    }
}

/// Where the user moves is their position, and so is tracked. This holds unless so much has been
/// tracked for the next seconds that the move is only recorded for a time behind them.
pub proof fn moving_is_read_back(relay: RelayView, target: Option<EventId>, clock: u64)
    requires
        relay.in_order(),
        relay.custom_time is None,
        relay.move_time(clock) <= now_of(clock),
        forall|i: int|
            0 <= i < relay.own_events().len() && (#[trigger] relay.own_events()[i]).created_at
                <= now_of(clock) ==> relay.own_events()[i].created_at <= relay.move_time(clock),
    ensures
        relay.moved_to(target, clock).position(clock) == target,
{
    if target != relay.position(clock) {
        let this = RelayView { view: Seq::empty(), ..relay };
        let flushed = if relay.is_child_of_position(target, clock) {
            this
        } else {
            RelayView { sender: relay.sender.flushed(), ..this }
        };
        let time = relay.move_time(clock);
        let builder = tracking_view(target).custom_created_at(time);
        let event = flushed.event_from(builder, clock);
        let held = RelayView { sender: flushed.sender.with_event(event, clock), ..flushed };
        lemma_own_tracking(held, event);
        let events = relay.own_events();
        assert(held.own_events() == events);
        inserting_keeps_the_order(events, event);
        let all = inserted(events, event);
        crate::tasks::order::lemma_inserted_from(events, event);
        assert forall|i: int| 0 <= i < all.len() && (#[trigger] all[i]).created_at <= now_of(
            clock,
        ) implies all[i].created_at <= event.created_at by {
            if all[i] != event {
                let l = choose|l: int| 0 <= l < events.len() && events[l] == all[i];
                assert(events[l].created_at <= time);
            }
        }
        lemma_latest_until(all, event, now_of(clock));
        lemma_tracking_ref(target, time, flushed, clock);
    }
}

/// What is entered with a time is recorded with that time.
pub proof fn a_given_time_is_recorded(relay: RelayView, builder: BuilderView, time: u64, clock: u64)
    ensures
        (RelayView { custom_time: Some(time), ..relay }).event_from(builder, clock).created_at
            == time,
{
}

/// Moving in place confirms what is pending: there is nothing left to undo, and where there is a
/// relay it gets all of it.
pub proof fn moving_in_place_confirms(relay: RelayView, clock: u64)
    requires
        relay.custom_time is None,
        !crate::event_sender::all_tracking(relay.sender.queue),
    ensures
        ({
            let after = relay.moved_to(relay.position(clock), clock);
            &&& after.sender.queue == Seq::<EventView>::empty()
            &&& after.tasks == relay.tasks
            &&& after.undone().tasks == relay.tasks
            &&& relay.sender.url matches Some(url) ==> after.sender.outbox
                == relay.sender.outbox.push(
                crate::event_sender::MessageView::AddTasks(url, relay.sender.queue),
            )
        }),
{
}

/// Moving anywhere but to a child confirms what is pending as well: only the move itself can be
/// undone.
pub proof fn moving_beyond_a_child_confirms(
    relay: RelayView,
    target: Option<EventId>,
    clock: u64,
)
    requires
        relay.custom_time is None,
        !crate::event_sender::all_tracking(relay.sender.queue),
        target != relay.position(clock),
        !relay.is_child_of_position(target, clock),
    ensures
        ({
            let after = relay.moved_to(target, clock);
            &&& after.sender.queue.len() == 1
            &&& after.sender.queue[0].kind == TRACKING_KIND
            &&& relay.sender.url matches Some(url) ==> after.sender.outbox
                == relay.sender.outbox.push(
                crate::event_sender::MessageView::AddTasks(url, relay.sender.queue),
            )
        }),
{
    let flushed = RelayView {
        view: Seq::empty(),
        sender: relay.sender.flushed(),
        ..relay
    };
    let move_builder = tracking_view(target).custom_created_at(relay.move_time(clock));
    let event = flushed.event_from(move_builder, clock);
    assert(flushed.sender.queue.len() == 0);
    assert(event.kind == TRACKING_KIND);
    assert(flushed.sender.with_event(event, clock).queue =~= seq![event]);
}

} // verus!
