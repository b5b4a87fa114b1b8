//! What holds of moving through the history and the tree of tasks.

use crate::command::CommandView;
use crate::nostr::{EventId, EventView};
use crate::tasks::context::{first_titled, past_events, refers_to_titled};
use crate::tasks::durations::first_ref;
use crate::tasks::filter::KeysView;
use crate::tasks::laws::moving_is_read_back;
use crate::tasks::order::chronological;
use crate::tasks::search_laws::{equal_in_any_case, lemma_equal_in_any_case};
use crate::tasks::task_map::{has_task, task_at, task_of, TasksView};
use crate::tasks::{latest_until, now_of, FilterView, RelayView};
use crate::text::{has_part, lower, stands_at};
use vstd::prelude::*;

verus! {

// ---------------------------------------------------------------------------
// History

/// Whether an event has another id than the one before.
pub open spec fn is_another(events: Seq<EventView>, i: int) -> bool {
    events[i].id != events[i - 1].id
}

/// Whether the first `count` events are those until now, and none of them is followed by one of
/// the same id.
pub open spec fn are_past(events: Seq<EventView>, now: u64, count: nat) -> bool {
    &&& count <= events.len()
    &&& forall|i: int| 0 <= i < count ==> (#[trigger] events[i]).created_at <= now
    &&& forall|i: int| count <= i < events.len() ==> (#[trigger] events[i]).created_at > now
    &&& forall|i: int| 0 < i < count ==> #[trigger] is_another(events, i)
}

pub proof fn lemma_past(events: Seq<EventView>, now: u64, count: nat, from: nat)
    requires
        are_past(events, now, count),
    ensures
        past_events(events, now, from).len() == if from < count {
            count - from
        } else {
            0
        },
        forall|i: int|
            0 <= i < past_events(events, now, from).len() ==> #[trigger] past_events(
                events,
                now,
                from,
            )[i] == events[count - 1 - i],
    decreases events.len() - from,
{
    if from < events.len() {
        lemma_past(events, now, count, from + 1);
        let later = past_events(events, now, from + 1);
        if from + 1 < count {
            assert(later.last() == events[from as int + 1]);
            assert(is_another(events, from as int + 1));
        }
        assert(from < count ==> events[from as int].created_at <= now);
        assert(from >= count ==> events[from as int].created_at > now);
        let past = past_events(events, now, from);
        if from < count {
            assert(past == later.push(events[from as int]));
        }
    }
}

proof fn lemma_latest_past(events: Seq<EventView>, now: u64, count: nat)
    requires
        are_past(events, now, count),
    ensures
        latest_until(events, now) == if count > 0 {
            Some(events[count - 1])
        } else {
            None
        },
    decreases events.len(),
{
    if events.len() > count {
        let rest = events.drop_last();
        assert(events[events.len() - 1].created_at > now);
        assert forall|i: int| count <= i < rest.len() implies (#[trigger] rest[i]).created_at
            > now by {
            assert(events[i].created_at > now);
        }
        assert forall|i: int| 0 <= i < count implies (#[trigger] rest[i]).created_at <= now by {
            assert(events[i].created_at <= now);
        }
        assert forall|i: int| 0 < i < count implies #[trigger] is_another(rest, i) by {
            assert(is_another(events, i));
        }
        lemma_latest_past(rest, now, count);
    } else if count > 0 {
        assert(events[count - 1].created_at <= now);
    }
}

/// Going back by some steps gives the position that exactly so many changes until now have come
/// after; going back by none gives the present one, and beyond the first there is none.
pub proof fn going_back_counts_the_changes(relay: RelayView, steps: nat, clock: u64, count: nat)
    requires
        are_past(relay.own_events(), now_of(clock), count),
    ensures
        relay.position_back(steps, clock) == if steps < count {
            first_ref(relay.own_events()[count - 1 - steps])
        } else {
            None
        },
        relay.position_back(0, clock) == relay.position(clock),
{
    let events = relay.own_events();
    lemma_past(events, now_of(clock), count, 0);
    lemma_latest_past(events, now_of(clock), count);
    let past = relay.past(now_of(clock));
    if steps < count {
        assert(past[steps as int] == events[count - 1 - steps]);
    }
    if count > 0 {
        assert(past[0] == events[count - 1]);
    }
}

/// One more change puts what was so many steps back one step further.
pub proof fn a_change_puts_the_past_one_step_back(
    events: Seq<EventView>,
    event: EventView,
    now: u64,
    steps: nat,
)
    requires
        chronological(events),
        events.len() > 0 ==> events.last().created_at <= now && events.last().id != event.id,
        event.created_at <= now,
        are_past(events, now, events.len()),
        steps < events.len(),
    ensures
        past_events(events.push(event), now, 0)[0] == event,
        past_events(events.push(event), now, 0)[steps as int + 1] == past_events(events, now, 0)[
            steps as int
        ],
{
    let all = events.push(event);
    assert(are_past(all, now, all.len())) by {
        assert forall|i: int| 0 < i < all.len() implies #[trigger] is_another(all, i) by {
            if i < events.len() {
                assert(is_another(events, i));
            }
        }
    }
    lemma_past(events, now, events.len(), 0);
    lemma_past(all, now, all.len(), 0);
}

/// The command to go back moves to the position that so many changes have come after.
pub proof fn the_command_goes_back(
    relay: RelayView,
    steps: nat,
    clock: u64,
    keys: KeysView,
    count: nat,
)
    requires
        relay.in_order(),
        relay.custom_time is None,
        are_past(relay.own_events(), now_of(clock), count),
        steps < count,
        relay.move_time(clock) <= now_of(clock),
        forall|i: int|
            0 <= i < relay.own_events().len() && (#[trigger] relay.own_events()[i]).created_at
                <= now_of(clock) ==> relay.own_events()[i].created_at <= relay.move_time(clock),
    ensures
        relay.executed(CommandView::BackBy(steps as int), clock, keys, None).0.position(clock)
            == first_ref(relay.own_events()[count - 1 - steps]),
{
    reveal(RelayView::moved_back_by);
    going_back_counts_the_changes(relay, steps, clock, count);
    moving_is_read_back(relay, relay.position_back(steps, clock), clock);
    let moved = relay.moved_to(relay.position_back(steps, clock), clock);
    assert((RelayView { custom_time: None, ..moved }).own_events() == moved.own_events());
}

/// Whether the text stands somewhere in the title of the task that an event refers to.
pub open spec fn is_titled(tasks: TasksView, event: EventView, text: Seq<char>) -> bool {
    first_ref(event) matches Some(id) && (task_of(tasks, id) matches Some(t) && exists|at: int|
        0 <= at && at + text.len() <= t.title().len() && equal_in_any_case(
            #[trigger] t.title().subrange(at, at + text.len()),
            text,
        ))
}

proof fn lemma_titled(tasks: TasksView, event: EventView, text: Seq<char>)
    ensures
        refers_to_titled(tasks, event, text) == is_titled(
            tasks,
            event,
            text,
        ),
{
    match first_ref(event) {
        Some(id) => match task_of(tasks, id) {
            Some(t) => {
                let title = t.title();
                if has_part(lower(title), lower(text)) {
                    let at = choose|at: int| stands_at(lower(title), lower(text), at);
                    let part = title.subrange(at, at + text.len());
                    assert(lower(part) =~= lower(title).subrange(at, at + text.len()));
                    lemma_equal_in_any_case(part, text);
                }
                if exists|at: int|
                    0 <= at && at + text.len() <= title.len() && equal_in_any_case(
                        #[trigger] title.subrange(at, at + text.len()),
                        text,
                    ) {
                    let at = choose|at: int|
                        0 <= at && at + text.len() <= title.len() && equal_in_any_case(
                            #[trigger] title.subrange(at, at + text.len()),
                            text,
                        );
                    let part = title.subrange(at, at + text.len());
                    lemma_equal_in_any_case(part, text);
                    assert(lower(part) =~= lower(title).subrange(at, at + text.len()));
                    assert(stands_at(lower(title), lower(text), at));
                }
            },
            None => {},
        },
        None => {},
    }
}

proof fn lemma_first_titled(tasks: TasksView, events: Seq<EventView>, text: Seq<char>)
    ensures
        match first_titled(tasks, events, text) {
            Some(e) => exists|k: int|
                0 <= k < events.len() && #[trigger] events[k] == e && is_titled(tasks, e, text)
                    && forall|j: int|
                    0 <= j < k ==> !is_titled(tasks, #[trigger] events[j], text),
            None => forall|k: int|
                0 <= k < events.len() ==> !is_titled(tasks, #[trigger] events[k], text),
        },
    decreases events.len(),
{
    if events.len() > 0 {
        lemma_titled(tasks, events[0], text);
        let rest = events.drop_first();
        if is_titled(tasks, events[0], text) {
            assert(events[0] == events[0]);
        } else {
            lemma_first_titled(tasks, rest, text);
            match first_titled(tasks, rest, text) {
                Some(e) => {
                    let k = choose|k: int|
                        0 <= k < rest.len() && #[trigger] rest[k] == e && is_titled(tasks, e, text)
                            && forall|j: int|
                            0 <= j < k ==> !is_titled(tasks, #[trigger] rest[j], text);
                    assert(events[k + 1] == e);
                    assert forall|j: int| 0 <= j < k + 1 implies !is_titled(
                        tasks,
                        #[trigger] events[j],
                        text,
                    ) by {
                        if j > 0 {
                            assert(events[j] == rest[j - 1]);
                        }
                    }
                },
                None => {
                    assert forall|k: int| 0 <= k < events.len() implies !is_titled(
                        tasks,
                        #[trigger] events[k],
                        text,
                    ) by {
                        if k > 0 {
                            assert(events[k] == rest[k - 1]);
                        }
                    }
                },
            }
        }
    }
}

/// Going back to a text moves to the latest task until now that has it in its title, in any case.
pub proof fn going_back_to_a_text_takes_the_latest(
    relay: RelayView,
    text: Seq<char>,
    clock: u64,
    keys: KeysView,
    count: nat,
    k: int,
)
    requires
        are_past(relay.own_events(), now_of(clock), count),
        0 <= k < count,
        is_titled(relay.tasks, relay.own_events()[k], text),
        forall|j: int|
            k < j < count ==> !is_titled(relay.tasks, #[trigger] relay.own_events()[j], text),
    ensures
        relay.executed(CommandView::BackTo(text), clock, keys, None).0 == (RelayView {
            custom_time: None,
            ..relay.moved_to(first_ref(relay.own_events()[k]), clock)
        }),
{
    reveal(RelayView::found_back);
    let events = relay.own_events();
    let past = relay.past(now_of(clock));
    lemma_past(events, now_of(clock), count, 0);
    lemma_first_titled(relay.tasks, past, text);
    let i = count - 1 - k;
    assert(past[i] == events[k]);
    match first_titled(relay.tasks, past, text) {
        Some(e) => {
            let f = choose|f: int|
                0 <= f < past.len() && #[trigger] past[f] == e && is_titled(relay.tasks, e, text)
                    && forall|j: int|
                    0 <= j < f ==> !is_titled(relay.tasks, #[trigger] past[j], text);
            assert(past[f] == events[count - 1 - f]);
            if f < i {
                assert(!is_titled(relay.tasks, events[count - 1 - f], text));
            }
            if f > i {
                assert(!is_titled(relay.tasks, past[i], text));
            }
        },
        None => {},
    }
}

/// Where no task of the history has the text in its title, going back to it changes nothing.
pub proof fn going_back_to_an_unknown_text_changes_nothing(
    relay: RelayView,
    text: Seq<char>,
    clock: u64,
    keys: KeysView,
    count: nat,
)
    requires
        are_past(relay.own_events(), now_of(clock), count),
        forall|j: int|
            0 <= j < count ==> !is_titled(relay.tasks, #[trigger] relay.own_events()[j], text),
    ensures
        relay.executed(CommandView::BackTo(text), clock, keys, None).0 == relay,
{
    reveal(RelayView::found_back);
    let events = relay.own_events();
    let past = relay.past(now_of(clock));
    lemma_past(events, now_of(clock), count, 0);
    lemma_first_titled(relay.tasks, past, text);
    match first_titled(relay.tasks, past, text) {
        Some(e) => {
            let f = choose|f: int|
                0 <= f < past.len() && #[trigger] past[f] == e && is_titled(relay.tasks, e, text);
            assert(past[f] == events[count - 1 - f]);
        },
        None => {},
    }
}

// ---------------------------------------------------------------------------
// Parents

/// Whether an id is that of the parent of the known task before.
pub open spec fn is_parent_before(tasks: TasksView, ids: Seq<EventId>, i: int) -> bool {
    has_task(tasks, ids[i - 1]) && tasks[task_at(tasks, ids[i - 1])].parent() == Some(ids[i])
}

/// Whether each of the ids is that of the parent of the known task before.
pub open spec fn is_way_up(tasks: TasksView, ids: Seq<EventId>) -> bool {
    forall|i: int| 0 < i < ids.len() ==> #[trigger] is_parent_before(tasks, ids, i)
}

/// Going up by some levels gives the last of so many parents.
pub proof fn going_up_takes_the_parents(relay: RelayView, ids: Seq<EventId>)
    requires
        ids.len() > 0,
        is_way_up(relay.tasks, ids),
    ensures
        relay.up(Some(ids[0]), (ids.len() - 1) as nat) == Some(ids.last()),
        relay.parent_of(Some(ids.last())) is None ==> relay.up(Some(ids[0]), ids.len()) is None,
    decreases ids.len(),
{
    if ids.len() > 1 {
        let rest = ids.drop_first();
        assert forall|i: int| 0 < i < rest.len() implies #[trigger] is_parent_before(
            relay.tasks,
            rest,
            i,
        ) by {
            assert(is_parent_before(relay.tasks, ids, i + 1));
            assert(ids[i + 1] == rest[i]);
            assert(ids[i] == rest[i - 1]);
        }
        assert(is_parent_before(relay.tasks, ids, 1));
        assert(relay.parent_of(Some(ids[0])) == Some(ids[1]));
        going_up_takes_the_parents(relay, rest);
        assert(rest[0] == ids[1] && rest.last() == ids.last());
    } else {
        assert(relay.up(relay.parent_of(Some(ids[0])), 0) == relay.parent_of(Some(ids[0])));
    }
}

/// Dots and slashes move up by so many parents.
pub proof fn dots_and_slashes_move_up(relay: RelayView, count: int, clock: u64, keys: KeysView)
    ensures
        ({
            let moved = relay.moved_to(relay.up(relay.position(clock), count as nat), clock);
            let dots = relay.executed(CommandView::Up(count), clock, keys, None).0;
            let slashes = relay.executed(CommandView::Over(count), clock, keys, None).0;
            &&& dots.own_events() == moved.own_events()
            &&& dots.tasks == moved.tasks
            &&& slashes == (RelayView { custom_time: None, ..moved })
        }),
{
    reveal(RelayView::moved_above);
    reveal(RelayView::moved_over);
}

/// A single dot clears all filters, and several leave them.
pub proof fn a_single_dot_clears_the_filters(
    relay: RelayView,
    count: int,
    clock: u64,
    keys: KeysView,
)
    ensures
        ({
            let after = relay.executed(CommandView::Up(count), clock, keys, None).0;
            if count == 0 {
                &&& after.tags.len() == 0
                &&& after.tags_excluded.len() == 0
                &&& after.priority is None
                &&& after.keys == relay.own_keys
                &&& after.view.len() == 0
                &&& after.state == FilterView::Default
            } else {
                &&& after.tags == relay.tags
                &&& after.tags_excluded == relay.tags_excluded
                &&& after.priority == relay.priority
                &&& after.keys == relay.keys
                &&& after.state == relay.state
            }
        }),
{
    reveal(RelayView::moved_above);
}

/// A single slash goes to the root, and so does stopping.
pub proof fn a_single_slash_goes_to_the_root(relay: RelayView, clock: u64, keys: KeysView)
    ensures
        ({
            let moved = RelayView { custom_time: None, ..relay.moved_to(None, clock) };
            &&& relay.executed(CommandView::Root, clock, keys, None).0 == moved
            &&& relay.executed(CommandView::Stop, clock, keys, None).0 == moved
        }),
{
    reveal(RelayView::moved_to_root);
}

/// A number behind dots sets how deep to show, and behind slashes how deep to search; the
/// position stays where the dots lead to it.
pub proof fn a_number_sets_a_depth(
    relay: RelayView,
    count: int,
    depth: int,
    clock: u64,
    keys: KeysView,
)
    requires
        0 <= depth <= usize::MAX,
    ensures
        ({
            let up = relay.up(relay.position(clock), count as nat);
            let shown = relay.executed(CommandView::Depth(count, depth), clock, keys, None).0;
            let searched = relay.executed(
                CommandView::SearchDepth(count, depth),
                clock,
                keys,
                None,
            ).0;
            &&& shown.view_depth == depth
            &&& shown.search_depth == relay.search_depth
            &&& searched.search_depth == depth
            &&& searched.view_depth == relay.view_depth
            &&& searched.view.len() == 0
            &&& up == relay.position(clock) ==> shown.own_events() == relay.own_events()
                && searched.own_events() == relay.own_events()
            &&& up != relay.position(clock) ==> shown.own_events() == relay.moved_to(
                up,
                clock,
            ).own_events()
        }),
{
    reveal(RelayView::moved_if_above);
}

} // verus!
