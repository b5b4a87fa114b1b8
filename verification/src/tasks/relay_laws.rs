//! What holds of events that come in or are pending, of bookmarks and of columns.

use crate::command::CommandView;
use crate::event_sender::{
    any_stale, is_stale, is_tracking, lemma_without_tracking, without_tracking, MessageView,
    SenderView,
};
use crate::kinds::{tracking_view, BOOKMARKS_KIND, TASK_KIND};
use crate::nostr::{event_id_round_trip, EventId, EventView};
use crate::task::state::state_of_kind;
use crate::task::TaskView;
use crate::tasks::context::column_toggled;
use crate::tasks::create::pin_tags;
use crate::tasks::durations::ids_in;
use crate::tasks::execute::Reply;
use crate::tasks::filter::KeysView;
use crate::tasks::laws::{lemma_reached, updates};
use crate::tasks::nostr_users::found_users;
use crate::tasks::order::adding_keeps_the_order;
use crate::tasks::task_map::{has_task, lemma_task_at, lemma_task_found, task_at};
use crate::tasks::{
    free_time, has_target, has_time, lemma_prop_at_ids, prop_target, with_prop_at, FilterView,
    RelayView,
};
use vstd::prelude::*;

verus! {

// ---------------------------------------------------------------------------
// Events that come in

/// An update that comes in before its task finds it later: once both are there and what could not
/// be placed is tried again, the task has the update.
pub proof fn an_early_update_finds_its_task(relay: RelayView, update: EventView, event: EventView)
    requires
        relay.in_order(),
        relay.overflow.len() == 0,
        state_of_kind(update.kind) is Some,
        !has_target(relay.tasks, update.tags),
        updates(update.tags, event.id),
        event.kind == TASK_KIND,
        !has_task(relay.tasks, event.id),
    ensures
        ({
            let after = relay.added(update).added(event).overflow_processed();
            &&& has_task(after.tasks, event.id)
            &&& after.tasks[task_at(after.tasks, event.id)].event == event
            &&& after.tasks[task_at(after.tasks, event.id)].props == seq![update]
            &&& after.overflow.len() == 0
        }),
{
    let first = relay.added(update);
    assert(first.overflow =~= seq![update]);
    assert(first.tasks == relay.tasks);
    let second = first.added(event);
    let tasks = relay.tasks.push(TaskView::of(event));
    assert(second.tasks == tasks);
    adding_keeps_the_order(relay, update);
    adding_keeps_the_order(first, event);
    let at = relay.tasks.len() as int;
    lemma_task_found(relay.tasks, event.id);
    assert forall|i: int| 0 <= i < at implies (#[trigger] tasks[i]).event.id != event.id by {
        assert(relay.tasks[i].event.id != event.id);
    }
    lemma_task_at(tasks, event.id, at);
    let k = choose|k: int|
        0 <= k < update.tags.len() && prop_target(#[trigger] update.tags[k]) == Some(event.id);
    assert(has_target(tasks, update.tags));
    assert(second.overflow.last() == update);
    let rest = RelayView { overflow: second.overflow.drop_last(), ..second };
    let placed = with_prop_at(tasks, update.tags, update);
    assert(rest.prop_added(update) == Some(RelayView { tasks: placed, ..rest }));
    reveal_with_fuel(RelayView::overflow_processed, 2);
    let after = second.overflow_processed();
    assert(after.tasks == placed);
    lemma_reached(tasks, update.tags, update, at);
    lemma_prop_at_ids(tasks, update.tags, update);
    assert forall|i: int| 0 <= i < at implies (#[trigger] placed[i]).event.id != event.id by {
        assert(tasks[i].event.id != event.id);
    }
    lemma_task_at(placed, event.id, at);
    let none = TaskView::of(event).props;
    assert(none.len() == 0);
    assert(TaskView::of(event).with_prop(update).props =~= seq![update]);
}

// ---------------------------------------------------------------------------
// Pending events

/// What is pending can be undone for a minute: while none of it is older than that, or from the
/// future, a new event joins it and nothing is handed over.
pub proof fn pending_events_wait_for_a_minute(sender: SenderView, event: EventView, clock: u64)
    requires
        clock >= 60,
        forall|i: int|
            0 <= i < sender.queue.len() ==> clock - 60 <= (#[trigger] sender.queue[i]).created_at
                <= clock,
    ensures
        sender.with_event(event, clock).outbox == sender.outbox,
        !is_tracking(event) ==> sender.with_event(event, clock).queue == sender.queue.push(event),
        event.created_at <= clock - 60 ==> sender.with_event(event, clock).queue
            == sender.queue.push(event),
{
    assert(!any_stale(sender.queue, clock)) by {
        assert forall|i: int| 0 <= i < sender.queue.len() implies !is_stale(
            #[trigger] sender.queue[i],
            clock,
        ) by {
            assert(clock - 60 <= sender.queue[i].created_at <= clock);
        }
    }
}

/// Once an event is pending for more than a minute, or is from the future, all that is pending
/// is handed over before the next event joins.
pub proof fn pending_events_are_handed_over_after_a_minute(
    sender: SenderView,
    event: EventView,
    clock: u64,
    i: int,
)
    requires
        0 <= i < sender.queue.len(),
        sender.queue[i].created_at + 60 < clock || sender.queue[i].created_at > clock,
    ensures
        sender.url matches Some(url) ==> sender.with_event(event, clock).outbox
            == sender.outbox.push(MessageView::AddTasks(url, sender.queue)),
        sender.with_event(event, clock).queue == seq![event],
{
    assert(is_stale(sender.queue[i], clock));
    assert(any_stale(sender.queue, clock));
    let r = sender.with_event(event, clock).queue;
    assert(without_tracking(Seq::<EventView>::empty()) =~= Seq::<
        EventView,
    >::empty());
    assert(r =~= seq![event]);
}

/// Mere tracking is not handed over on the way: it waits for an event that says more.
pub proof fn mere_tracking_waits(sender: SenderView)
    requires
        forall|i: int| 0 <= i < sender.queue.len() ==> (#[trigger] sender.queue[i]).kind == 1650,
    ensures
        sender.flushed() == sender,
{
}

/// Moving to a child of the active task confirms nothing: all that was pending and is no tracking
/// can still be undone, and nothing is handed over while it is fresh.
pub proof fn moving_to_a_child_confirms_nothing(
    relay: RelayView,
    id: EventId,
    clock: u64,
    e: EventView,
)
    requires
        relay.custom_time is None,
        relay.position(clock) != Some(id),
        has_task(relay.tasks, id),
        relay.tasks[task_at(relay.tasks, id)].parent() == relay.position(clock),
        !any_stale(relay.sender.queue, clock),
        relay.sender.queue.contains(e),
        !is_tracking(e),
    ensures
        relay.moved_to(Some(id), clock).sender.queue.contains(e),
        relay.moved_to(Some(id), clock).sender.outbox == relay.sender.outbox,
{
    let this = RelayView { view: Seq::empty(), ..relay };
    let builder = tracking_view(Some(id)).custom_created_at(relay.move_time(clock));
    let event = this.event_from(builder, clock);
    assert(relay.is_child_of_position(Some(id), clock));
    let after = relay.sender.with_event(event, clock);
    let kept = after.queue.drop_last();
    lemma_without_tracking(relay.sender.queue, e);
    assert(kept =~= relay.sender.queue || kept =~= without_tracking(relay.sender.queue));
    let k = choose|k: int| 0 <= k < kept.len() && kept[k] == e;
    assert(after.queue[k] == e);
}

// ---------------------------------------------------------------------------
// Tracking

/// A start is recorded at the first free second from the given one on, and a stop in the second
/// before it.
pub proof fn tracking_is_recorded_at_a_free_second(relay: RelayView, time: u64, id: EventId)
    ensures
        ({
            let at = relay.tracking_time(time, Some(id));
            &&& at >= time
            &&& forall|t: u64|
                time <= t < at ==> #[trigger] has_time(relay.own_events(), t)
            &&& at < u64::MAX ==> !has_time(relay.own_events(), at)
        }),
        time > 0 ==> relay.tracking_time(time, None) == time - 1,
        relay.tracking_time(0, None) == 0,
{
    lemma_free(relay.own_events(), time);
}

proof fn lemma_free(events: Seq<EventView>, time: u64)
    ensures
        ({
            let at = free_time(events, time);
            &&& at >= time
            &&& forall|t: u64| time <= t < at ==> #[trigger] has_time(events, t)
            &&& at < u64::MAX ==> !has_time(events, at)
        }),
    decreases u64::MAX - time,
{
    if time < u64::MAX && has_time(events, time) {
        lemma_free(events, (time + 1) as u64);
    }
}

/// Entering a time tracks the position from then on, and stopping at one stops it there; each
/// says so unless it changes nothing.
pub proof fn a_time_is_tracked_from_or_stopped_at(
    relay: RelayView,
    text: Seq<char>,
    time: u64,
    clock: u64,
    keys: KeysView,
)
    requires
        found_users(relay.users, text).len() == 0,
    ensures
        ({
            let started = relay.executed(CommandView::Track(text), clock, keys, Some(time));
            let stopped = relay.executed(CommandView::StopAt(text), clock, keys, Some(time));
            &&& started.0 == relay.tracking_at(time, relay.position(clock), clock)
            &&& stopped.0 == relay.tracking_at(time, None, clock)
            &&& relay.executed(CommandView::Track(text), clock, keys, None).0 == relay
            &&& relay.executed(CommandView::StopAt(text), clock, keys, None).0 == relay
        }),
{
    reveal(RelayView::tracked_by);
    reveal(RelayView::stopped);
}

/// A move is recorded now or, where the next seconds are taken, after them: never before.
pub proof fn a_move_is_recorded_now(relay: RelayView, clock: u64)
    ensures
        relay.move_time(clock) >= clock,
        relay.own_events().len() == 0 ==> relay.move_time(clock) == clock,
        relay.own_events().len() > 0 && relay.own_events().last().created_at <= clock && clock
            < u64::MAX ==> relay.move_time(clock) == clock + 1,
{
}

// ---------------------------------------------------------------------------
// Bookmarks

proof fn lemma_pins(ids: Seq<EventId>)
    ensures
        ids_in(pin_tags(ids)) == ids,
    decreases ids.len(),
{
    let tags = pin_tags(ids);
    if ids.len() > 0 {
        lemma_pins(ids.drop_last());
        assert(tags.drop_last() =~= pin_tags(ids.drop_last()));
        event_id_round_trip(ids.last());
        assert(tags.last() == seq!["e"@, ids.last().text()]);
        assert(ids.drop_last().push(ids.last()) =~= ids);
    } else {
        assert(ids_in(tags) =~= ids);
    }
}

/// The bookmarks that are told to the relay are read back from the event: whoever has the same
/// key has the same bookmarks once it comes in.
pub proof fn bookmarks_are_read_back(relay: RelayView, other: RelayView, clock: u64)
    requires
        other.sender.key == relay.sender.key,
    ensures
        ({
            let event = relay.pin_builder().signed(relay.sender.key, clock);
            &&& event.kind == BOOKMARKS_KIND
            &&& other.added(event).bookmarks == relay.bookmarks
            &&& other.added(event).tasks == other.tasks
        }),
{
    lemma_pins(relay.bookmarks);
    let event = relay.pin_builder().signed(relay.sender.key, clock);
    assert(event.tags =~= pin_tags(relay.bookmarks));
}

/// Pinning changes whether the active task is bookmarked and nothing else of the tasks; without an
/// active task the bookmarked ones are in view.
pub proof fn pinning_changes_the_bookmark(relay: RelayView, clock: u64, keys: KeysView)
    requires
        relay.bookmarks.no_duplicates(),
    ensures
        ({
            let after = relay.executed(CommandView::Pin, clock, keys, None).0;
            &&& after.tasks == relay.tasks
            &&& after.own_events() == relay.own_events()
            &&& match relay.position(clock) {
                Some(id) => after.bookmarks.contains(id) == !relay.bookmarks.contains(id) && forall|
                    x: EventId,
                |
                    x != id ==> #[trigger] after.bookmarks.contains(x) == relay.bookmarks.contains(x),
                None => after.view == relay.bookmarks && after.bookmarks == relay.bookmarks,
            }
        }),
{
    reveal(RelayView::pinned);
    match relay.position(clock) {
        Some(id) => {
            crate::tasks::filter_laws::toggling_changes_one_bookmark(relay.bookmarks, id);
        },
        None => {},
    }
}

// ---------------------------------------------------------------------------
// Columns and sorting

proof fn lemma_column(columns: Seq<Seq<char>>, property: Seq<char>)
    ensures
        columns.contains(property) ==> exists|i: int|
            0 <= i < columns.len() && columns[i] == property && (forall|j: int|
                0 <= j < i ==> #[trigger] columns[j] != property) && column_toggled(
                columns,
                property,
            ) == #[trigger] columns.remove(i),
        !columns.contains(property) ==> column_toggled(columns, property) == columns.push(property),
    decreases columns.len(),
{
    if columns.len() > 0 {
        let rest = columns.drop_first();
        if columns[0] == property {
            assert(columns.remove(0) =~= rest);
        } else {
            lemma_column(rest, property);
            let r = seq![columns[0]] + column_toggled(rest, property);
            if columns.contains(property) {
                let c = choose|c: int| 0 <= c < columns.len() && columns[c] == property;
                assert(rest[c - 1] == property);
                let i = choose|i: int|
                    0 <= i < rest.len() && rest[i] == property && (forall|j: int|
                        0 <= j < i ==> #[trigger] rest[j] != property) && column_toggled(
                        rest,
                        property,
                    ) == #[trigger] rest.remove(i);
                assert(columns.remove(i + 1) =~= r);
                assert forall|j: int| 0 <= j < i + 1 implies #[trigger] columns[j] != property by {
                    if j > 0 {
                        assert(columns[j] == rest[j - 1]);
                    }
                }
                assert(columns[i + 1] == property);
            } else {
                assert(!rest.contains(property)) by {
                    if rest.contains(property) {
                        let c = choose|c: int| 0 <= c < rest.len() && rest[c] == property;
                        assert(columns[c + 1] == property);
                    }
                }
                assert(r =~= columns.push(property));
            }
        }
    } else {
        assert(columns.push(property) =~= seq![property]);
    }
}

/// Naming a property takes its column out if there is one, and puts one behind the others if not;
/// all other columns stay in order.
pub proof fn a_named_column_is_added_or_removed(
    relay: RelayView,
    property: Seq<char>,
    clock: u64,
    keys: KeysView,
)
    ensures
        ({
            let after = relay.executed(CommandView::ToggleColumn(property), clock, keys, None).0;
            if relay.properties.contains(property) {
                exists|i: int|
                    0 <= i < relay.properties.len() && relay.properties[i] == property
                        && after.properties == #[trigger] relay.properties.remove(i)
            } else {
                after.properties == relay.properties.push(property)
            }
        }),
{
    lemma_column(relay.properties, property);
}

/// A column is added at the place that is given, or removed from there if it is the same.
pub proof fn a_column_is_put_at_its_place(
    relay: RelayView,
    property: Seq<char>,
    index: int,
    clock: u64,
    keys: KeysView,
)
    requires
        0 <= index <= relay.properties.len(),
    ensures
        ({
            let after = relay.executed(
                CommandView::ToggleColumnAt(property, index),
                clock,
                keys,
                None,
            ).0.properties;
            if index < relay.properties.len() && relay.properties[index] == property {
                after == relay.properties.remove(index)
            } else {
                after.len() == relay.properties.len() + 1 && after[index] == property
                    && after.remove(index) == relay.properties
            }
        }),
        index < relay.properties.len() ==> relay.executed(
            CommandView::RemoveColumn(index),
            clock,
            keys,
            None,
        ).0.properties == relay.properties.remove(index),
{
    let put = relay.properties.insert(index, property);
    assert(put.remove(index) =~= relay.properties);
}

/// The property that is sorted by last is the first to sort by, before those that were, and there
/// are four at most.
pub proof fn the_last_sorting_comes_first(
    relay: RelayView,
    property: Seq<char>,
    properties: Seq<Seq<char>>,
    clock: u64,
    keys: KeysView,
)
    ensures
        ({
            let after = relay.executed(
                CommandView::SortFirstBy(property),
                clock,
                keys,
                None,
            ).0.sorting;
            &&& after[0] == property
            &&& after.len() == if relay.sorting.len() < 4 {
                relay.sorting.len() + 1
            } else {
                4
            }
            &&& forall|i: int| 0 < i < after.len() ==> #[trigger] after[i] == relay.sorting[i - 1]
        }),
        relay.executed(CommandView::SortBy(properties), clock, keys, None).0.sorting == properties,
{
}

// ---------------------------------------------------------------------------
// Commands

/// Undoing takes back what is pending, and an empty command hands it over.
pub proof fn pending_events_are_undone_or_confirmed(relay: RelayView, clock: u64, keys: KeysView)
    ensures
        relay.executed(CommandView::Undo, clock, keys, None).0 == (RelayView {
            custom_time: None,
            ..relay.undone()
        }),
        relay.executed(CommandView::Show, clock, keys, None).0 == (RelayView {
            sender: relay.sender.force_flushed(),
            ..relay
        }),
{
    reveal(RelayView::reverted);
}

/// The commands for tags add and remove those that they name, and clearing takes all filters off.
pub proof fn tags_are_changed_by_commands(
    relay: RelayView,
    tag: Seq<char>,
    clock: u64,
    keys: KeysView,
)
    ensures
        relay.executed(CommandView::AddTag(tag), clock, keys, None).0 == (RelayView {
            custom_time: None,
            ..relay.tag_added(tag)
        }),
        relay.executed(CommandView::RemoveTag(tag), clock, keys, None).0 == (RelayView {
            custom_time: None,
            ..relay.tag_removed(tag)
        }),
        ({
            let after = relay.executed(CommandView::ClearFilters, clock, keys, None).0;
            &&& after.tags.len() == 0
            &&& after.tags_excluded.len() == 0
            &&& after.priority is None
            &&& after.state == FilterView::Default
            &&& after.keys == relay.own_keys
            &&& after.view.len() == 0
            &&& after.tasks == relay.tasks
        }),
{
}

/// The name of a user lists their times and tracks nothing.
pub proof fn the_times_of_a_user_are_listed(
    relay: RelayView,
    text: Seq<char>,
    time: Option<u64>,
    clock: u64,
    keys: KeysView,
)
    requires
        found_users(relay.users, text).len() > 0,
    ensures
        relay.executed(CommandView::Track(text), clock, keys, time) == (
            relay,
            Reply::TimesOf(found_users(relay.users, text)[0]),
        ),
{
    reveal(RelayView::tracked_by);
}

/// Commands that only list something leave everything as it is.
pub proof fn listing_changes_nothing(relay: RelayView, clock: u64, keys: KeysView, limit: int)
    requires
        0 <= limit <= usize::MAX,
    ensures
        relay.executed(CommandView::Columns, clock, keys, None) == (relay, Reply::Columns),
        relay.executed(CommandView::Places, clock, keys, None) == (relay, Reply::Places),
        relay.executed(CommandView::Times(limit), clock, keys, None) == (
            relay,
            Reply::Times(limit as usize),
        ),
        relay.executed(CommandView::ListTags, clock, keys, None).0 == relay,
        relay.current_task(clock) is Some ==> relay.executed(
            CommandView::Changes,
            clock,
            keys,
            None,
        ) == (relay, Reply::Changes),
{
}

} // verus!
