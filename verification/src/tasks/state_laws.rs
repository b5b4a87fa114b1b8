//! What holds of the states of tasks.

use crate::command::CommandView;
use crate::kinds::{extracted_name, extracted_tags, plain_words, MARKER_PROPERTY};
use crate::lists::{
    adding_keeps_a_sorted_set, has_tie, is_sorted_set, lemma_contains_placed, placed, ties, Ordered,
};
use crate::nostr::{event_id_round_trip, tag_is, Event, EventId, EventView};
use crate::task::state::{state_kind_round_trip, state_of_kind, state_of_name, ChangeView, State};
use crate::task::{change_at, change_of, TaskView};
use crate::tasks::children_traversal::{subtree, subtree_starts_with_the_task};
use crate::tasks::create::{id_tag, id_tags};
use crate::tasks::execute::Reply;
use crate::tasks::filter::KeysView;
use crate::tasks::laws::{a_state_reaches_what_it_is_set_for, lemma_reached};
use crate::tasks::making_laws::an_input_refers_to_no_event;
use crate::tasks::nostr_users::UsersView;
use crate::tasks::order::submitting_keeps_the_order;
use crate::tasks::search_laws::{equal_in_any_case, lemma_equal_in_any_case};
use crate::tasks::task_map::{has_task, lemma_task_found, task_at, task_of};
use crate::tasks::{now_of, prop_target, FilterView, RelayView};
use crate::text::{parted, trimmed, words};
use vstd::prelude::*;

verus! {

// ---------------------------------------------------------------------------
// The state at a time

/// Whether an update changes the state, and has done so at the given time.
pub open spec fn is_change_until(update: EventView, time: u64) -> bool {
    state_of_kind(update.kind) is Some && update.created_at <= time
}

proof fn lemma_change_at(props: Seq<EventView>, time: u64, k: int)
    requires
        0 <= k <= props.len(),
        forall|j: int| 0 <= j < k ==> !is_change_until(#[trigger] props[j], time),
        k < props.len() ==> is_change_until(props[k], time),
    ensures
        change_at(props, time) == if k < props.len() {
            change_of(props[k])
        } else {
            None
        },
    decreases props.len(),
{
    if props.len() > 0 {
        assert(k > 0 ==> !is_change_until(props[0], time));
        if k > 0 {
            let rest = props.drop_first();
            assert forall|j: int| 0 <= j < k - 1 implies !is_change_until(
                #[trigger] rest[j],
                time,
            ) by {
                assert(rest[j] == props[j + 1]);
            }
            lemma_change_at(rest, time, k - 1);
        }
    }
}

/// The state of a task at a time is the one that the latest change until then has set, called by
/// what the change says.
pub proof fn the_latest_change_sets_the_state(task: TaskView, time: u64, k: int)
    requires
        is_sorted_set::<Event>(task.props),
        0 <= k < task.props.len(),
        is_change_until(task.props[k], time),
        forall|j: int|
            0 <= j < task.props.len() && j != k && is_change_until(#[trigger] task.props[j], time)
                ==> task.props[j].created_at < task.props[k].created_at,
    ensures
        task.state_at(time) == Some(
            ChangeView {
                state: state_of_kind(task.props[k].kind).unwrap(),
                name: if task.props[k].content.len() == 0 {
                    None
                } else {
                    Some(task.props[k].content)
                },
                time: task.props[k].created_at,
            },
        ),
        task.pure_state(time).kind_of() == task.props[k].kind,
        task.is_task(),
{
    let props = task.props;
    assert forall|j: int| 0 <= j < k implies !is_change_until(#[trigger] props[j], time) by {
        assert(Event::leq(props[j], props[k]));
    }
    lemma_change_at(props, time, k);
    state_kind_round_trip(state_of_kind(props[k].kind).unwrap(), props[k].kind);
    assert(state_of_kind(props[k].kind) is Some);
}

/// Before any change a task is open. Without any it has no state and counts as open.
pub proof fn a_task_is_open_at_first(task: TaskView, time: u64)
    requires
        forall|j: int| 0 <= j < task.props.len() ==> !is_change_until(#[trigger] task.props[j], time),
    ensures
        task.pure_state(time) == State::Open,
        task.state_at(time) is Some == exists|j: int|
            0 <= j < task.props.len() && state_of_kind((#[trigger] task.props[j]).kind) is Some,
        task.state_or_default(time) == (ChangeView {
            state: State::Open,
            name: None,
            time: task.event.created_at,
        }),
{
    lemma_change_at(task.props, time, task.props.len() as int);
}

proof fn lemma_latest_prop(task: TaskView, event: EventView, time: u64)
    requires
        is_sorted_set::<Event>(task.props),
        is_change_until(event, time),
        forall|i: int|
            0 <= i < task.props.len() && (#[trigger] task.props[i]).created_at <= time
                ==> task.props[i].created_at < event.created_at,
    ensures
        is_sorted_set::<Event>(task.with_prop(event).props),
        task.with_prop(event).state_at(time) == change_of(event),
        task.with_prop(event).props.contains(event),
        task.with_prop(event).is_task(),
{
    let with = task.with_prop(event);
    adding_keeps_a_sorted_set::<Event>(task.props, event);
    assert(!has_tie::<Event>(task.props, event)) by {
        assert forall|i: int| 0 <= i < task.props.len() implies !ties::<Event>(
            #[trigger] task.props[i],
            event,
        ) by {
            assert(task.props[i].created_at <= time ==> task.props[i].created_at
                < event.created_at);
        }
    }
    lemma_contains_placed::<Event>(task.props, event, event);
    let k = choose|k: int| 0 <= k < with.props.len() && with.props[k] == event;
    assert forall|j: int|
        0 <= j < with.props.len() && j != k && is_change_until(
            #[trigger] with.props[j],
            time,
        ) implies with.props[j].created_at < with.props[k].created_at by {
        assert(with.props.contains(with.props[j]));
        if with.props[j] == event {
            assert(!ties::<Event>(with.props[j], with.props[k])) by {
                if j < k {
                    assert(!ties::<Event>(with.props[j], with.props[k]));
                } else {
                    assert(!ties::<Event>(with.props[k], with.props[j]));
                }
            }
            Event::leq_total(event, event);
        } else {
            assert(task.props.contains(with.props[j]));
            let i = choose|i: int| 0 <= i < task.props.len() && task.props[i] == with.props[j];
            assert(task.props[i].created_at <= time);
        }
    }
    the_latest_change_sets_the_state(with, time, k);
}

// ---------------------------------------------------------------------------
// Setting states

proof fn lemma_set(
    relay: RelayView,
    id: EventId,
    comment: Seq<char>,
    state: State,
    clock: u64,
    target: EventId,
)
    requires
        relay.in_order(),
        has_task(relay.tasks, target),
        target == id || (state == State::Closed && subtree(relay.tasks, id).contains(target)),
    ensures
        relay.state_set(id, comment, state, clock).in_order(),
        task_of(relay.state_set(id, comment, state, clock).tasks, target) == Some(
            relay.tasks[task_at(relay.tasks, target)].with_prop(
                relay.event_from(relay.state_builder(id, comment, state), clock),
            ),
        ),
        is_sorted_set::<Event>(relay.tasks[task_at(relay.tasks, target)].props),
{
    let builder = relay.state_builder(id, comment, state);
    submitting_keeps_the_order(relay, builder, clock);
    if state == State::Closed {
        subtree_starts_with_the_task(relay.tasks, id);
    } else {
        assert(relay.state_targets(id, state)[0] == id);
    }
    a_state_reaches_what_it_is_set_for(relay, id, comment, state, clock, target, 0);
    lemma_task_found(relay.tasks, target);
}

/// A state that is set is the state of the task from then on, called by the comment without the
/// tags in it; closing a task closes all of its subtree as well. (Changes that are yet to come
/// are kept.)
pub proof fn a_state_that_is_set_holds(
    relay: RelayView,
    id: EventId,
    comment: Seq<char>,
    state: State,
    clock: u64,
    target: EventId,
    time: u64,
)
    requires
        relay.in_order(),
        has_task(relay.tasks, target),
        target == id || (state == State::Closed && subtree(relay.tasks, id).contains(target)),
        ({
            let at = match relay.custom_time {
                Some(t) => t,
                None => clock,
            };
            let props = relay.tasks[task_at(relay.tasks, target)].props;
            at <= time && forall|i: int|
                0 <= i < props.len() && (#[trigger] props[i]).created_at <= time
                    ==> props[i].created_at < at
        }),
    ensures
        ({
            let name = extracted_name(comment, relay.users);
            let after = task_of(relay.state_set(id, comment, state, clock).tasks, target);
            &&& after is Some
            &&& after.unwrap().is_task()
            &&& after.unwrap().pure_state(time) == state
            &&& after.unwrap().state_or_default(time).label() == if name.len() == 0 {
                state.text()
            } else {
                name
            }
            &&& after.unwrap().last_update(time) == match relay.custom_time {
                Some(t) => t,
                None => clock,
            }
        }),
{
    let event = relay.event_from(relay.state_builder(id, comment, state), clock);
    lemma_set(relay, id, comment, state, clock, target);
    state_kind_round_trip(state, event.kind);
    lemma_latest_prop(relay.tasks[task_at(relay.tasks, target)], event, time);
}

/// Setting the state of a task leaves all others as they are, unless it closes their parent.
pub proof fn a_state_is_set_for_no_other(
    relay: RelayView,
    id: EventId,
    comment: Seq<char>,
    state: State,
    clock: u64,
    i: int,
)
    requires
        relay.in_order(),
        0 <= i < relay.tasks.len(),
        relay.tasks[i].event.id != id,
        state == State::Closed ==> !subtree(relay.tasks, id).contains(relay.tasks[i].event.id),
    ensures
        relay.state_set(id, comment, state, clock).tasks[i] == relay.tasks[i],
{
    let event = relay.event_from(relay.state_builder(id, comment, state), clock);
    let other = relay.tasks[i].event.id;
    let ids = relay.state_targets(id, state);
    let marks = id_tags(relay.sender.url, ids, MARKER_PROPERTY@);
    let rest = extracted_tags(comment, relay.users);
    an_input_refers_to_no_event(comment, relay.users);
    assert(event.tags =~= marks + rest);
    assert forall|k: int| 0 <= k < event.tags.len() implies prop_target(#[trigger] event.tags[k])
        != Some(other) by {
        if k < marks.len() {
            assert(event.tags[k] == id_tag(relay.sender.url, ids[k], MARKER_PROPERTY@));
            event_id_round_trip(ids[k]);
            assert(ids.contains(ids[k]));
        } else {
            assert(event.tags[k] == rest[k - marks.len()]);
            assert(!tag_is(rest[k - marks.len()], "e"@));
        }
    }
    lemma_reached(relay.tasks, event.tags, event, i);
    state_kind_round_trip(state, event.kind);
}

// ---------------------------------------------------------------------------
// Deferring

proof fn lemma_nothing_extracted(users: UsersView)
    ensures
        extracted_name(""@, users) == ""@,
{
    reveal_strlit("");
    let none = words(""@, false);
    assert(none =~= Seq::<Seq<char>>::empty());
    assert(plain_words(none, users) =~= Seq::<Seq<char>>::empty());
    assert(extracted_name(""@, users) =~= ""@);
}

proof fn lemma_state_texts(state: State)
    ensures
        state.text().len() > 0,
{
    reveal_strlit("Open");
    reveal_strlit("Done");
    reveal_strlit("Closed");
    reveal_strlit("Pending");
    reveal_strlit("Procedure");
}

/// The label of the present state has no tags in it that the program would take for such.
pub open spec fn keeps_label(task: TaskView, now: u64) -> bool {
    forall|users: UsersView|
        task.state_at(now) is Some ==> #[trigger] extracted_name(
            task.state_or_default(now).label(),
            users,
        ) == task.state_or_default(now).label()
}

/// A task that is deferred is pending for the reason given, and from the time given on it has the
/// same state again as before, called by the same name.
pub proof fn a_deferred_task_comes_back_as_it_was(
    relay: RelayView,
    id: EventId,
    reason: Seq<char>,
    until: u64,
    clock: u64,
    time: u64,
)
    requires
        relay.in_order(),
        has_task(relay.tasks, id),
        keeps_label(relay.tasks[task_at(relay.tasks, id)], now_of(clock)),
        ({
            let at = match relay.custom_time {
                Some(t) => t,
                None => clock,
            };
            let props = relay.tasks[task_at(relay.tasks, id)].props;
            at < until && forall|i: int|
                0 <= i < props.len() ==> (#[trigger] props[i]).created_at < until
        }),
    ensures
        ({
            let at = match relay.custom_time {
                Some(t) => t,
                None => clock,
            };
            let before = relay.tasks[task_at(relay.tasks, id)];
            let after = task_of(relay.held_back(id, reason, until, clock).tasks, id);
            let now = now_of(clock);
            &&& after is Some
            &&& time >= until ==> {
                &&& after.unwrap().pure_state(time) == before.pure_state(now)
                &&& after.unwrap().state_or_default(time).label() == before.state_or_default(
                    now,
                ).label()
                &&& after.unwrap().last_update(time) == until
            }
            &&& at <= time < until && (forall|i: int|
                0 <= i < before.props.len() ==> (#[trigger] before.props[i]).created_at < at) ==> {
                let name = extracted_name(reason, relay.users);
                &&& after.unwrap().pure_state(time) == State::Pending
                &&& after.unwrap().state_or_default(time).label() == if name.len() == 0 {
                    State::Pending.text()
                } else {
                    name
                }
            }
        }),
{
    let now = now_of(clock);
    let before = relay.tasks[task_at(relay.tasks, id)];
    let state = before.state_at(now);
    let label = match state {
        Some(c) => c.label(),
        None => ""@,
    };
    let pause = relay.event_from(relay.state_builder(id, reason, State::Pending), clock);
    lemma_set(relay, id, reason, State::Pending, clock, id);
    let pending = relay.state_set(id, reason, State::Pending, clock);
    let paused = before.with_prop(pause);
    lemma_task_found(pending.tasks, id);
    assert(pending.tasks[task_at(pending.tasks, id)] == paused);
    let later = RelayView { custom_time: Some(until), ..pending };
    let back = before.pure_state(now);
    let resume = later.event_from(later.state_builder(id, label, back), clock);
    lemma_set(later, id, label, back, clock, id);
    let after = paused.with_prop(resume);
    assert(task_of(relay.held_back(id, reason, until, clock).tasks, id) == Some(after));
    state_kind_round_trip(State::Pending, pause.kind);
    state_kind_round_trip(back, resume.kind);
    adding_keeps_a_sorted_set::<Event>(before.props, pause);
    assert forall|i: int| 0 <= i < paused.props.len() implies (
    #[trigger] paused.props[i]).created_at < until by {
        assert(paused.props.contains(paused.props[i]));
        if paused.props[i] != pause {
            assert(before.props.contains(paused.props[i]));
            let k = choose|k: int| 0 <= k < before.props.len() && before.props[k] == paused.props[i];
            assert(before.props[k].created_at < until);
        }
    }
    lemma_nothing_extracted(later.users);
    lemma_state_texts(back);
    lemma_state_texts(State::Open);
    reveal_strlit("");
    if time >= until {
        lemma_latest_prop(paused, resume, time);
        assert(extracted_name(label, later.users) == label);
        if state is Some {
            assert(label == before.state_or_default(now).label());
        }
        lemma_label_kept(before, now);
    }
    if pause.created_at <= time < until && (forall|i: int|
        0 <= i < before.props.len() ==> (#[trigger] before.props[i]).created_at
            < pause.created_at) {
        lemma_latest_prop(before, pause, time);
        let k = choose|k: int| 0 <= k < paused.props.len() && paused.props[k] == pause;
        lemma_not_yet(paused, resume, time);
    }
}

/// A name that a state was given is not empty.
proof fn lemma_label_kept(task: TaskView, now: u64)
    ensures
        task.state_or_default(now).label().len() > 0,
{
    lemma_change_names(task.props, now);
    lemma_state_texts(task.state_or_default(now).state);
}

proof fn lemma_change_names(props: Seq<EventView>, time: u64)
    ensures
        change_at(props, time) matches Some(c) ==> (c.name matches Some(name) ==> name.len() > 0),
    decreases props.len(),
{
    if props.len() > 0 {
        lemma_change_names(props.drop_first(), time);
    }
}

/// A change that is yet to come leaves the state as it is, where there is one.
proof fn lemma_not_yet(task: TaskView, event: EventView, time: u64)
    requires
        is_sorted_set::<Event>(task.props),
        event.created_at > time,
        change_at(task.props, time) is Some,
    ensures
        task.with_prop(event).state_at(time) == task.state_at(time),
{
    let with = task.with_prop(event);
    if !has_tie::<Event>(task.props, event) {
        lemma_placed_later(task.props, event, time);
    }
}

proof fn lemma_change_push(props: Seq<EventView>, last: EventView, time: u64)
    ensures
        change_at(props.push(last), time) == match change_at(props, time) {
            Some(c) => Some(c),
            None => if is_change_until(last, time) {
                change_of(last)
            } else {
                None
            },
        },
    decreases props.len(),
{
    let all = props.push(last);
    if props.len() == 0 {
        assert(all.drop_first() =~= Seq::<EventView>::empty());
        assert(change_at(all.drop_first(), time) is None);
    } else {
        lemma_change_push(props.drop_first(), last, time);
        assert(all.drop_first() =~= props.drop_first().push(last));
        assert(all[0] == props[0]);
    }
}

proof fn lemma_placed_later(props: Seq<EventView>, event: EventView, time: u64)
    requires
        event.created_at > time,
    ensures
        change_at(placed::<Event>(props, event), time) == change_at(props, time),
    decreases props.len(),
{
    if props.len() == 0 {
        lemma_change_push(props, event, time);
        assert(placed::<Event>(props, event) =~= props.push(event));
    } else if Event::leq(props.last(), event) {
        lemma_change_push(props, event, time);
    } else {
        let rest = props.drop_last();
        lemma_placed_later(rest, event, time);
        lemma_change_push(rest, props.last(), time);
        lemma_change_push(placed::<Event>(rest, event), props.last(), time);
        assert(rest.push(props.last()) =~= props);
    }
}

// ---------------------------------------------------------------------------
// Commands

/// Moving changes no task.
pub proof fn moving_changes_no_task(relay: RelayView, target: Option<EventId>, clock: u64)
    ensures
        relay.moved_to(target, clock).tasks == relay.tasks,
        relay.moved_to(target, clock).bookmarks == relay.bookmarks,
        relay.moved_to(target, clock).custom_time == relay.custom_time,
        relay.moved_to(target, clock).tags == relay.tags,
        relay.moved_to(target, clock).tags_excluded == relay.tags_excluded,
        relay.moved_to(target, clock).state == relay.state,
        relay.moved_to(target, clock).priority == relay.priority,
        relay.moved_to(target, clock).keys == relay.keys,
{
}

/// Finishing or closing sets the state of the active task, with the comment, and moves to its
/// parent.
pub proof fn ending_sets_the_state_and_moves_up(
    relay: RelayView,
    comment: Seq<char>,
    clock: u64,
    keys: KeysView,
    id: EventId,
)
    requires
        relay.position(clock) == Some(id),
    ensures
        ({
            let done = relay.executed(CommandView::Finish(comment), clock, keys, None).0;
            let closed = relay.executed(CommandView::Close(comment), clock, keys, None).0;
            &&& done.tasks == relay.state_set(id, comment, State::Done, clock).tasks
            &&& closed.tasks == relay.state_set(id, comment, State::Closed, clock).tasks
            &&& relay.custom_time is None ==> {
                let set = relay.state_set(id, comment, State::Done, clock);
                done.own_events() == set.moved_to(set.parent_of(Some(id)), clock).own_events()
            }
            &&& relay.custom_time is None ==> {
                let set = relay.state_set(id, comment, State::Closed, clock);
                closed.own_events() == set.moved_to(set.parent_of(Some(id)), clock).own_events()
            }
            &&& relay.custom_time is Some ==> done.own_events() == relay.own_events()
                && closed.own_events() == relay.own_events()
        }),
{
    reveal(RelayView::ended);
    let set = relay.state_set(id, comment, State::Done, clock);
    assert(set.position(clock) == relay.position(clock));
    let shut = relay.state_set(id, comment, State::Closed, clock);
    assert(shut.position(clock) == relay.position(clock));
}

/// Setting a status for the active task: a known state before a colon is that state called by the
/// rest, a time there defers the task, and any other text is the name of its state. Then the task
/// is left for its parent.
pub proof fn a_status_is_set_from_the_text(
    relay: RelayView,
    text: Seq<char>,
    time: Option<u64>,
    clock: u64,
    keys: KeysView,
    id: EventId,
)
    requires
        relay.position(clock) == Some(id),
    ensures
        ({
            let named = match state_of_name(text) {
                Some(state) => state,
                None => State::Open,
            };
            let changed = match parted(text, ": "@) {
                Some((left, right)) => match (state_of_name(left), time) {
                    (Some(state), _) => relay.state_set(id, right, state, clock),
                    (None, Some(until)) => relay.held_back(id, right, until, clock),
                    (None, None) => relay.state_set(id, text, named, clock),
                },
                None => relay.state_set(id, text, named, clock),
            };
            let (after, reply) = relay.executed(CommandView::SetState(text), clock, keys, time);
            &&& reply == Reply::Show
            &&& after.tasks == changed.tasks
            &&& after.custom_time is None
            &&& after.own_events() == (RelayView { custom_time: None, ..changed }).moved_to(
                changed.parent_of(Some(id)),
                clock,
            ).own_events()
        }),
{
    reveal(RelayView::state_entered);
    let changed = relay.state_changed(id, text, time, clock);
    assert(changed.own_events() == relay.own_events());
    assert((RelayView { custom_time: None, ..changed }).position(clock) == Some(id));
}

// ---------------------------------------------------------------------------
// Filtering by state

/// By default the unfinished tasks are shown. A status filters for the tasks whose state, or what
/// it is called, is that text in any case.
pub proof fn a_status_filters_by_state_or_name(task: TaskView, label: Seq<char>, now: u64)
    ensures
        FilterView::All.matches(task, now),
        FilterView::Default.matches(task, now) == (task.pure_state(now) != State::Done
            && task.pure_state(now) != State::Closed),
        FilterView::State(label).matches(task, now) == (task.state_at(now) is Some && {
            let change = task.state_or_default(now);
            equal_in_any_case(change.label(), label) || equal_in_any_case(
                change.state.text(),
                label,
            )
        }),
{
    let change = task.state_or_default(now);
    lemma_equal_in_any_case(change.label(), label);
    lemma_equal_in_any_case(change.state.text(), label);
}

/// A state is told with what it is called behind it, unless that says no more than the state.
pub proof fn a_state_is_told_with_its_name(change: ChangeView)
    ensures
        change.name is None ==> change.text() == change.state.text() && change.label()
            == change.state.text(),
        change.name matches Some(name) ==> {
            &&& change.label() == name
            &&& equal_in_any_case(trimmed(name), change.state.text()) ==> change.text()
                == change.state.text()
            &&& !equal_in_any_case(trimmed(name), change.state.text()) ==> change.text()
                == change.state.text() + ": "@ + trimmed(name)
        },
{
    match change.name {
        Some(name) => {
            lemma_equal_in_any_case(trimmed(name), change.state.text());
        },
        None => {},
    }
}

/// The name of a state is read in any case.
pub proof fn states_are_named_in_any_case(a: Seq<char>, b: Seq<char>)
    requires
        equal_in_any_case(a, b),
    ensures
        state_of_name(a) == state_of_name(b),
{
    lemma_equal_in_any_case(a, b);
}

} // verus!
