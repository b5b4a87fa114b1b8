//! What holds of what a task says of itself, and of the commands that make tasks.

use crate::command::CommandView;
use crate::hashtag::{hashtag_of, hashtag_order_agrees_with_equality, hashtags_in, Hashtag};
use crate::kinds::{event_ref, extracted_name, MARKER_PARENT, PRIO};
use crate::lists::{adding_keeps_a_sorted_set, is_sorted_set, sorted_set, ties};
use crate::nostr::{tag_is, EventId, EventView, TagView};
use crate::task::state::State;
use crate::task::{
    marked, other_tags, other_tags_of, participant, participants_in, prio_in, prio_of, refs_in,
    TaskView,
};
use crate::tasks::execute::trimmed_all;
use crate::tasks::filter::KeysView;
use crate::tasks::laws::a_new_task_gets_the_status;
use crate::tasks::nostr_users::UsersView;
use crate::tasks::search_laws::{equal_in_any_case, lemma_equal_in_any_case};
use crate::tasks::selection::word_begins_with;
use crate::tasks::task_map::{has_task, task_at};
use crate::tasks::view_laws::is_tagged;
use crate::tasks::{now_of, FilterView, RelayView};
use crate::text::{byte_len, trimmed, unsigned_value};
use vstd::prelude::*;

verus! {

// ---------------------------------------------------------------------------
// Parents

/// Whether a tag refers to a parent: it has the marker of one, or none.
pub open spec fn is_parent_ref(tag: TagView, id: EventId) -> bool {
    event_ref(tag) matches Some(r) && r.id == id && (r.marker is None || r.marker == Some(
        MARKER_PARENT@,
    ))
}

pub open spec fn is_any_parent_ref(tag: TagView) -> bool {
    event_ref(tag) matches Some(r) && (r.marker is None || r.marker == Some(MARKER_PARENT@))
}

proof fn lemma_parents(tags: Seq<TagView>)
    ensures
        marked(refs_in(tags), MARKER_PARENT@).len() == tags.filter(
            |t: TagView| is_any_parent_ref(t),
        ).len(),
        forall|k: int|
            0 <= k < marked(refs_in(tags), MARKER_PARENT@).len() ==> is_parent_ref(
                tags.filter(|t: TagView| is_any_parent_ref(t))[k],
                #[trigger] marked(refs_in(tags), MARKER_PARENT@)[k],
            ),
    decreases tags.len(),
{
    reveal(Seq::filter);
    let pred = |t: TagView| is_any_parent_ref(t);
    if tags.len() > 0 {
        let rest = tags.drop_last();
        lemma_parents(rest);
        let before = marked(refs_in(rest), MARKER_PARENT@);
        match event_ref(tags.last()) {
            Some(r) => {
                let all = refs_in(tags);
                assert(all.drop_last() =~= refs_in(rest));
                assert(tags.filter(pred) == if is_any_parent_ref(tags.last()) {
                    rest.filter(pred).push(tags.last())
                } else {
                    rest.filter(pred)
                });
            },
            None => {},
        }
        let r = marked(refs_in(tags), MARKER_PARENT@);
        let f = tags.filter(pred);
        assert forall|k: int| 0 <= k < r.len() implies is_parent_ref(f[k], #[trigger] r[k]) by {
            if k < before.len() {
                assert(r[k] == before[k]);
                assert(f[k] == rest.filter(pred)[k]);
            }
        }
    }
}

/// The parent of a task is what the first reference of its event to a parent is to; without one
/// the task stands at the root.
pub proof fn the_first_reference_is_to_the_parent(event: EventView)
    ensures
        ({
            let to = event.tags.filter(|t: TagView| is_any_parent_ref(t));
            match TaskView::of(event).parent() {
                Some(id) => to.len() > 0 && is_parent_ref(to[0], id),
                None => to.len() == 0,
            }
        }),
{
    lemma_parents(event.tags);
    let ids = marked(refs_in(event.tags), MARKER_PARENT@);
    if ids.len() > 0 {
        assert(is_parent_ref(event.tags.filter(|t: TagView| is_any_parent_ref(t))[0], ids[0]));
    }
}

// ---------------------------------------------------------------------------
// Priority

/// Whether tags set that priority, with the first tag of that kind that has a content.
pub open spec fn sets_priority(tags: Seq<TagView>, k: int, value: Seq<char>) -> bool {
    &&& 0 <= k < tags.len()
    &&& tag_is(tags[k], PRIO@) && tags[k].len() > 1 && tags[k][1] == value
    &&& forall|j: int| 0 <= j < k ==> !(tag_is(#[trigger] tags[j], PRIO@) && tags[j].len() > 1)
}

proof fn lemma_prio_in(tags: Seq<TagView>, k: int, value: Seq<char>)
    ensures
        sets_priority(tags, k, value) ==> prio_in(tags) == Some(value),
        (forall|j: int|
            0 <= j < tags.len() ==> !(tag_is(#[trigger] tags[j], PRIO@) && tags[j].len() > 1))
            ==> prio_in(tags) is None,
    decreases tags.len(),
{
    if tags.len() > 0 {
        let rest = tags.drop_first();
        lemma_prio_in(rest, k - 1, value);
        if sets_priority(tags, k, value) && k > 0 {
            assert(!(tag_is(tags[0], PRIO@) && tags[0].len() > 1));
            assert forall|j: int| 0 <= j < k - 1 implies !(tag_is(#[trigger] rest[j], PRIO@)
                && rest[j].len() > 1) by {
                assert(rest[j] == tags[j + 1]);
            }
            assert(sets_priority(rest, k - 1, value));
        }
        if forall|j: int|
            0 <= j < tags.len() ==> !(tag_is(#[trigger] tags[j], PRIO@) && tags[j].len() > 1) {
            assert(!(tag_is(tags[0], PRIO@) && tags[0].len() > 1));
            assert forall|j: int| 0 <= j < rest.len() implies !(tag_is(#[trigger] rest[j], PRIO@)
                && rest[j].len() > 1) by {
                assert(rest[j] == tags[j + 1]);
            }
        }
    }
}

proof fn lemma_prio_of(events: Seq<EventView>, i: int)
    requires
        0 <= i <= events.len(),
        forall|j: int| 0 <= j < i ==> prio_in((#[trigger] events[j]).tags) is None,
        i < events.len() ==> prio_in(events[i].tags) is Some,
    ensures
        prio_of(events) == if i < events.len() {
            prio_in(events[i].tags)
        } else {
            None
        },
    decreases events.len(),
{
    if events.len() > 0 && i > 0 {
        let rest = events.drop_first();
        assert(prio_in(events[0].tags) is None);
        assert forall|j: int| 0 <= j < i - 1 implies prio_in((#[trigger] rest[j]).tags) is None by {
            assert(rest[j] == events[j + 1]);
        }
        lemma_prio_of(rest, i - 1);
    }
}

/// The priority of a task is what its newest update with one sets, whatever older updates and its
/// own event set.
pub proof fn the_newest_priority_counts(task: TaskView, i: int, k: int, value: Seq<char>)
    requires
        0 <= i < task.props.len(),
        sets_priority(task.props[i].tags, k, value),
        forall|j: int, l: int|
            0 <= j < i && 0 <= l < (#[trigger] task.props[j]).tags.len() ==> !(tag_is(
                #[trigger] task.props[j].tags[l],
                PRIO@,
            ) && task.props[j].tags[l].len() > 1),
    ensures
        task.priority_text() == Some(value),
        unsigned_value(value, 65535) matches Some(n) ==> task.priority() == Some(n as u16),
{
    lemma_prio_in(task.props[i].tags, k, value);
    assert forall|j: int| 0 <= j < i implies prio_in((#[trigger] task.props[j]).tags) is None by {
        let tags = task.props[j].tags;
        assert forall|l: int| 0 <= l < tags.len() implies !(tag_is(#[trigger] tags[l], PRIO@)
            && tags[l].len() > 1) by {
            assert(task.props[j].tags[l] == tags[l]);
        }
        lemma_prio_in(tags, 0, value);
    }
    lemma_prio_of(task.props, i);
}

/// Without an update that sets a priority, that of the event counts.
pub proof fn ones_own_priority_counts(task: TaskView, k: int, value: Seq<char>)
    requires
        sets_priority(task.event.tags, k, value),
        forall|j: int, l: int|
            0 <= j < task.props.len() && 0 <= l < (#[trigger] task.props[j]).tags.len() ==> !(
            tag_is(#[trigger] task.props[j].tags[l], PRIO@) && task.props[j].tags[l].len() > 1),
    ensures
        task.priority_text() == Some(value),
{
    lemma_prio_in(task.event.tags, k, value);
    assert forall|j: int| 0 <= j < task.props.len() implies prio_in(
        (#[trigger] task.props[j]).tags,
    ) is None by {
        let tags = task.props[j].tags;
        assert forall|l: int| 0 <= l < tags.len() implies !(tag_is(#[trigger] tags[l], PRIO@)
            && tags[l].len() > 1) by {
            assert(task.props[j].tags[l] == tags[l]);
        }
        lemma_prio_in(tags, 0, value);
    }
    lemma_prio_of(task.props, task.props.len() as int);
}

// ---------------------------------------------------------------------------
// Owners and hashtags

proof fn lemma_participants(tags: Seq<TagView>, k: int)
    requires
        0 <= k <= tags.len(),
        forall|j: int| 0 <= j < k ==> participant(#[trigger] tags[j]) is None,
        k < tags.len() ==> participant(tags[k]) is Some,
    ensures
        k == tags.len() ==> participants_in(tags).len() == 0,
        k < tags.len() ==> participants_in(tags).len() > 0 && Some(participants_in(tags)[0])
            == participant(tags[k]),
    decreases tags.len(),
{
    if tags.len() > 0 {
        let rest = tags.drop_last();
        assert forall|j: int| 0 <= j < k && j < rest.len() implies participant(
            #[trigger] rest[j],
        ) is None by {
            assert(rest[j] == tags[j]);
        }
        if k < rest.len() {
            lemma_participants(rest, k);
        } else {
            lemma_participants(rest, rest.len() as int);
            assert(k == tags.len() ==> participant(tags[tags.len() - 1]) is None);
        }
    }
}

/// A task belongs to the first whom its tags assign it to, those of its newest update first, and
/// without any to the one who made it.
pub proof fn a_task_belongs_to_its_assignee(task: TaskView, k: int)
    requires
        0 <= k <= task.all_tags().len(),
        forall|j: int| 0 <= j < k ==> participant(#[trigger] task.all_tags()[j]) is None,
        k < task.all_tags().len() ==> participant(task.all_tags()[k]) is Some,
    ensures
        task.owner() == if k < task.all_tags().len() {
            participant(task.all_tags()[k]).unwrap()
        } else {
            task.event.pubkey
        },
        task.assignee() == if k < task.all_tags().len() {
            participant(task.all_tags()[k])
        } else {
            None
        },
{
    lemma_participants(task.all_tags(), k);
}

proof fn lemma_other_tags(tags: Seq<TagView>)
    ensures
        other_tags(tags) == tags.filter(|t: TagView| !tag_is(t, "e"@) && !tag_is(t, "E"@)),
    decreases tags.len(),
{
    reveal(Seq::filter);
    if tags.len() > 0 {
        lemma_other_tags(tags.drop_last());
    } else {
        assert(tags =~= Seq::<TagView>::empty());
    }
}

/// The tags of a task are those of its updates, the newest first, and then its own; references
/// are left out.
pub proof fn tags_come_from_updates_and_the_event(task: TaskView)
    requires
        task.props.len() > 0,
    ensures
        ({
            let newest = task.props[0].tags.filter(
                |t: TagView| !tag_is(t, "e"@) && !tag_is(t, "E"@),
            );
            let older = TaskView { props: task.props.drop_first(), ..task };
            task.all_tags() == newest + older.all_tags()
        }),
{
    lemma_other_tags(task.props[0].tags);
    lemma_other_of(task.props);
    let older = TaskView { props: task.props.drop_first(), ..task };
    let a = other_tags(task.props[0].tags);
    assert(a + other_tags_of(older.props) + task.tags =~= a + (other_tags_of(older.props)
        + task.tags));
}

proof fn lemma_other_of(events: Seq<EventView>)
    requires
        events.len() > 0,
    ensures
        other_tags_of(events) == other_tags(events[0].tags) + other_tags_of(events.drop_first()),
    decreases events.len(),
{
    let first = other_tags(events[0].tags);
    if events.len() == 1 {
        assert(events.drop_last() =~= Seq::<EventView>::empty());
        assert(events.drop_first() =~= Seq::<EventView>::empty());
        assert(other_tags_of(events.drop_last()) =~= Seq::<TagView>::empty());
        assert(Seq::<TagView>::empty() + first =~= first + Seq::<TagView>::empty());
        assert(events.last() == events[0]);
    } else {
        let front = events.drop_last();
        lemma_other_of(front);
        let rest = events.drop_first();
        assert(front.drop_first() =~= rest.drop_last());
        assert(rest.last() == events.last());
        let last = other_tags(events.last().tags);
        let middle = other_tags_of(rest.drop_last());
        assert(first + middle + last =~= first + (middle + last));
    }
}

proof fn lemma_hashtags(tags: Seq<TagView>, h: Seq<char>)
    ensures
        hashtags_in(tags).contains(h) <==> exists|i: int|
            0 <= i < tags.len() && hashtag_of(#[trigger] tags[i]) == Some(h),
    decreases tags.len(),
{
    if tags.len() > 0 {
        let rest = tags.drop_last();
        lemma_hashtags(rest, h);
        let before = hashtags_in(rest);
        let r = hashtags_in(tags);
        if r.contains(h) {
            let j = choose|j: int| 0 <= j < r.len() && r[j] == h;
            if j < before.len() {
                assert(before[j] == h);
                let i = choose|i: int| 0 <= i < rest.len() && hashtag_of(#[trigger] rest[i]) == Some(h);
                assert(tags[i] == rest[i]);
            } else {
                assert(tags[tags.len() - 1] == tags.last());
            }
        }
        if exists|i: int| 0 <= i < tags.len() && hashtag_of(#[trigger] tags[i]) == Some(h) {
            let i = choose|i: int| 0 <= i < tags.len() && hashtag_of(#[trigger] tags[i]) == Some(h);
            if i < rest.len() {
                assert(rest[i] == tags[i]);
                let j = choose|j: int| 0 <= j < before.len() && before[j] == h;
                assert(r[j] == h);
            } else {
                assert(r.last() == h);
            }
        }
    }
}

/// The hashtags of a task are the contents of all its tags of the kind t, without space around
/// them.
pub proof fn hashtags_are_the_tags_of_their_kind(task: TaskView, h: Seq<char>)
    ensures
        task.hashtags().contains(h) <==> exists|i: int|
            0 <= i < task.all_tags().len() && is_hashtag_for(#[trigger] task.all_tags()[i], h),
{
    let tags = task.all_tags();
    lemma_hashtags(tags, h);
    if task.hashtags().contains(h) {
        let i = choose|i: int| 0 <= i < tags.len() && hashtag_of(#[trigger] tags[i]) == Some(h);
        assert(is_hashtag_for(task.all_tags()[i], h));
    }
    if exists|i: int|
        0 <= i < task.all_tags().len() && is_hashtag_for(#[trigger] task.all_tags()[i], h) {
        let i = choose|i: int|
            0 <= i < task.all_tags().len() && is_hashtag_for(#[trigger] task.all_tags()[i], h);
        assert(hashtag_of(tags[i]) == Some(h));
    }
}

/// Whether a tag is a hashtag of that content.
pub open spec fn is_hashtag_for(tag: TagView, h: Seq<char>) -> bool {
    (tag_is(tag, "t"@) || tag_is(tag, "T"@)) && tag.len() > 1 && trimmed(tag[1]) == h
}

// ---------------------------------------------------------------------------
// Setting tags

proof fn lemma_hashtag_set(s: Seq<Seq<char>>)
    ensures
        is_sorted_set::<Hashtag>(sorted_set::<Hashtag>(s)),
        forall|x: Seq<char>| #[trigger] sorted_set::<Hashtag>(s).contains(x) ==> s.contains(x),
        forall|i: int|
            0 <= i < s.len() ==> is_tagged(sorted_set::<Hashtag>(s), #[trigger] s[i]),
    decreases s.len(),
{
    if s.len() > 0 {
        let rest = s.drop_last();
        lemma_hashtag_set(rest);
        let before = sorted_set::<Hashtag>(rest);
        let r = sorted_set::<Hashtag>(s);
        adding_keeps_a_sorted_set::<Hashtag>(before, s.last());
        assert forall|x: Seq<char>| #[trigger] r.contains(x) implies s.contains(x) by {
            if before.contains(x) {
                let k = choose|k: int| 0 <= k < rest.len() && rest[k] == x;
                assert(s[k] == x);
            } else {
                assert(s[s.len() - 1] == x);
            }
        }
        assert forall|i: int| 0 <= i < s.len() implies is_tagged(r, #[trigger] s[i]) by {
            if i < rest.len() {
                assert(rest[i] == s[i]);
                let k = choose|k: int|
                    0 <= k < before.len() && equal_in_any_case(#[trigger] before[k], s[i]);
                assert(r.contains(before[k]));
                let j = choose|j: int| 0 <= j < r.len() && r[j] == before[k];
                assert(equal_in_any_case(r[j], s[i]));
            } else {
                let j = choose|j: int| 0 <= j < r.len() && ties::<Hashtag>(#[trigger] r[j], s.last());
                hashtag_order_agrees_with_equality(r[j], s.last());
                lemma_equal_in_any_case(r[j], s.last());
                assert(equal_in_any_case(r[j], s[i]));
            }
        }
    }
}

/// Setting tags filters by exactly those, in any case, whatever was filtered by before; setting
/// none stops filtering by tags, and where there were none, filtering tags out.
pub proof fn the_tags_that_are_set_are_filtered_by(
    relay: RelayView,
    tags: Seq<Seq<char>>,
    clock: u64,
    keys: KeysView,
)
    ensures
        ({
            let after = relay.executed(CommandView::Tags(tags), clock, keys, None).0;
            &&& forall|i: int|
                0 <= i < tags.len() ==> is_tagged(after.tags, trimmed(#[trigger] tags[i]))
            &&& forall|k: int|
                0 <= k < after.tags.len() ==> exists|i: int|
                    #![trigger tags[i]]
                    0 <= i < tags.len() && #[trigger] after.tags[k] == trimmed(tags[i])
            &&& tags.len() == 0 ==> after.tags.len() == 0
            &&& tags.len() == 0 && relay.tags.len() == 0 ==> after.tags_excluded.len() == 0
            &&& tags.len() > 0 || relay.tags.len() > 0 ==> after.tags_excluded
                == relay.tags_excluded
        }),
{
    let all = trimmed_all(tags);
    lemma_hashtag_set(all);
    let after = relay.executed(CommandView::Tags(tags), clock, keys, None).0;
    assert forall|i: int| 0 <= i < tags.len() implies is_tagged(
        after.tags,
        trimmed(#[trigger] tags[i]),
    ) by {
        assert(all[i] == trimmed(tags[i]));
    }
    assert forall|k: int| 0 <= k < after.tags.len() implies exists|i: int|
        #![trigger tags[i]]
        0 <= i < tags.len() && #[trigger] after.tags[k] == trimmed(tags[i]) by {
        if tags.len() == 0 && relay.tags.len() == 0 {
            assert(after.tags.len() == 0);
        } else {
            let set = sorted_set::<Hashtag>(all);
            assert(after.tags == set);
            assert(set.contains(set[k]));
            let i = choose|i: int| 0 <= i < all.len() && all[i] == set[k];
            assert(after.tags[k] == trimmed(tags[i]));
        }
    }
    if tags.len() == 0 {
        assert(all.len() == 0);
        assert(sorted_set::<Hashtag>(all).len() == 0);
    }
}

// ---------------------------------------------------------------------------
// Making tasks

/// A task that is made while a status is filtered by gets that status, and so stays in view; without
/// such a filter it is simply a new task. (The status is a plain text, without tags in it.)
pub proof fn a_task_that_is_made_gets_the_status(
    relay: RelayView,
    input: Seq<char>,
    tags: Seq<TagView>,
    status: Seq<char>,
    clock: u64,
    id: EventId,
    time: u64,
)
    requires
        relay.in_order(),
        relay.new_task_id(input, tags, clock) == Some(id),
        !has_task(relay.tasks, id),
        status.len() > 0,
        forall|users: UsersView| #[trigger] extracted_name(status, users) == status,
        time >= match relay.custom_time {
            Some(t) => t,
            None => clock,
        },
    ensures
        ({
            let after = relay.task_made(input, tags, true, clock).tasks;
            &&& relay.state == FilterView::State(status) ==> has_task(after, id)
                && FilterView::State(status).matches(after[task_at(after, id)], time)
            &&& !(relay.state is State) ==> after.len() == relay.tasks.len() + 1
                && after.last().event.id == id && after.last().state_at(time) is None
        }),
{
    let builder = relay.new_task_builder(input, tags).unwrap();
    let made = relay.submitted(builder, clock);
    let event = relay.event_from(builder, clock);
    assert(event.id == id);
    assert(made.tasks == relay.tasks.push(TaskView::of(event)));
    if relay.state == FilterView::State(status) {
        assert(extracted_name(status, made.users) == status);
        a_new_task_gets_the_status(relay, builder, status, clock, time);
    }
}

/// Entering a text goes to the one task that it means, or makes a task of that name and goes
/// there.
pub proof fn a_task_is_entered_or_made(
    relay: RelayView,
    count: int,
    text: Seq<char>,
    clock: u64,
    keys: KeysView,
)
    ensures
        ({
            let pos = relay.up(relay.position(clock), count as nat);
            let ids = relay.matching(now_of(clock), keys, pos, text);
            let after = relay.executed(CommandView::Enter(count, text), clock, keys, None).0;
            &&& ids.len() == 1 ==> after == (RelayView {
                custom_time: None,
                ..relay.moved_to(Some(ids[0]), clock)
            })
            &&& ids.len() > 1 ==> after.view == ids && after.tasks == relay.tasks
            &&& ids.len() == 0 && byte_len(text) < 3 ==> after.tasks
                == relay.tasks && after.history == relay.history
            &&& ids.len() == 0 && byte_len(text) >= 3 && extracted_name(
                trimmed(text),
                relay.users,
            ).len() > 0 ==> {
                let tags = relay.position_tags_for(pos, now_of(clock));
                let this = RelayView { view: Seq::empty(), ..relay };
                let made = this.task_made(text, tags, true, clock);
                after == (RelayView {
                    custom_time: None,
                    ..made.moved_to(relay.new_task_id(text, tags, clock), clock)
                })
            }
        }),
{
    reveal(RelayView::entered);
    let pos = relay.up(relay.position(clock), count as nat);
    let this = RelayView { view: Seq::empty(), ..relay };
    let tags = relay.position_tags_for(pos, now_of(clock));
    assert(this.new_task_builder(text, tags) == relay.new_task_builder(text, tags));
}

/// Several lines make a task of each: as many tasks more as there are lines with a name in them
/// whose task is new.
pub proof fn lines_make_tasks_one_by_one(
    relay: RelayView,
    lines: Seq<Seq<char>>,
    line: Seq<char>,
    clock: u64,
)
    ensures
        ({
            let before = relay.tasks_made(lines, clock);
            relay.tasks_made(lines.push(line), clock) == before.task_made(
                line,
                before.position_tags(clock),
                true,
                clock,
            )
        }),
        relay.tasks_made(Seq::empty(), clock) == relay,
{
    reveal(RelayView::tasks_made);
    assert(lines.push(line).drop_last() =~= lines);
    assert(lines.push(line).last() == line);
}

/// A procedure that is entered is a task with that state, and the active one from then on. A task
/// after the active one is made at its level, after moving up.
pub proof fn a_procedure_is_made_and_entered(
    relay: RelayView,
    input: Seq<char>,
    clock: u64,
    keys: KeysView,
    id: EventId,
)
    requires
        relay.new_task_id(input, relay.position_tags(clock), clock) == Some(id),
    ensures
        ({
            let after = relay.executed(CommandView::EnterProcedure(input), clock, keys, None).0;
            let made = relay.task_made(input, relay.position_tags(clock), false, clock);
            let set = made.state_set(id, ""@, State::Procedure, clock);
            after == (RelayView { custom_time: None, ..set.moved_to(Some(id), clock) })
        }),
        relay.position(clock) is None ==> relay.executed(
            CommandView::Sibling(input),
            clock,
            keys,
            None,
        ) == relay.executed(CommandView::EnterProcedure(input), clock, keys, None),
{
    reveal(RelayView::procedure_entered);
    reveal(RelayView::sibling_made);
}

/// A task that is to follow the active one is made after moving to the parent of that one, and
/// depends on it.
pub proof fn a_sibling_is_made_after_moving_up(
    relay: RelayView,
    input: Seq<char>,
    clock: u64,
    keys: KeysView,
    pos: EventId,
)
    requires
        relay.position(clock) == Some(pos),
    ensures
        ({
            let up = relay.moved_to(relay.parent_of(Some(pos)), clock);
            relay.executed(CommandView::Sibling(input), clock, keys, None).0 == (RelayView {
                custom_time: None,
                ..up.task_made(input, up.sibling_tags(pos, clock), true, clock)
            })
        }),
{
    reveal(RelayView::sibling_made);
}

// ---------------------------------------------------------------------------
// Times of commands

/// A time behind a command is the time of what it does, and leaves the command as it is without
/// it; what is no time belongs to the command.
pub proof fn a_time_behind_a_command_is_taken(
    relay: RelayView,
    left: Seq<char>,
    right: Seq<char>,
    time: Option<u64>,
)
    requires
        left.len() > 0,
        left[0] != '@',
        !left.contains('@'),
    ensures
        ({
            let text = left + seq!['@'] + right;
            let (after, command) = relay.command_taken(text, time);
            match time {
                Some(t) => after == (RelayView { custom_time: Some(t), ..relay }) && command
                    == crate::command::command_of(left),
                None => after == relay && command == crate::command::command_of(text),
            }
        }),
{
    let text = left + seq!['@'] + right;
    reveal_strlit("@");
    let at = "@"@;
    crate::text_laws::a_text_is_parted_at_the_first_part(text, at);
    assert(text[0] == left[0]);
    let place = left.len() as int;
    assert(crate::text::stands_at(text, at, place)) by {
        assert(text.subrange(place, place + 1) =~= at);
    }
    match crate::text::parted(text, at) {
        Some((l, r)) => {
            if l.len() < place {
                assert(text[l.len() as int] == '@') by {
                    assert((l + at + r)[l.len() as int] == at[0]);
                }
                assert(left.contains(left[l.len() as int]));
            }
            if l.len() > place {
                assert(!crate::text::stands_at(text, at, place));
            }
            assert(l =~= left) by {
                assert forall|i: int| 0 <= i < place implies l[i] == left[i] by {
                    assert((l + at + r)[i] == l[i]);
                    assert(text[i] == left[i]);
                }
            }
        },
        None => {
            assert(crate::text::has_part(text, at));
        },
    }
}

/// The case of letters does not matter for the beginning of a word.
pub proof fn words_are_matched_in_any_case(task: TaskView, a: Seq<char>, b: Seq<char>)
    requires
        equal_in_any_case(a, b),
    ensures
        word_begins_with(task, a) == word_begins_with(task, b),
{
    lemma_equal_in_any_case(a, b);
}

} // verus!
