//! What holds of the text that tasks and notes are entered by.

use crate::command::CommandView;
use crate::kinds::{
    embedded_hashtags, extracted_name, extracted_tags, hash_words, listed_hashtags, mark_at,
    plain_words, prio_tag, word_tag, word_tags, MARKER_PROPERTY, TEXT_NOTE_KIND,
};
use crate::lists::{adding_keeps_a_sorted_set, is_sorted_set, lemma_contains_placed, ties};
use crate::nostr::{event_id_round_trip, public_key_of, Event, EventId, EventView, TagView};
use crate::task::state::State;
use crate::task::{notes_in, TaskView};
use crate::tasks::create::{id_tag, newest};
use crate::tasks::filter::KeysView;
use crate::tasks::laws::{lemma_reached, updates};
use crate::tasks::making_laws::{decimal_round_trip, lemma_sorted_set_members};
use crate::tasks::nostr_users::{found_users, UsersView};
use crate::tasks::task_map::{
    has_task, lemma_task_at, lemma_task_found, task_at, task_of, TasksView,
};
use crate::tasks::{
    has_target, lemma_prop_at_ids, now_of, prop_target, with_prop_at, FilterView, RelayView,
};
use crate::text::{decimal, is_digit, joined, trimmed, unsigned_value, without_leading, words};
use vstd::prelude::*;

verus! {

// ---------------------------------------------------------------------------
// Words that stand for tags

/// An at sign before a key or the name of a user assigns a task to them.
pub proof fn an_at_sign_assigns(word: Seq<char>, users: UsersView)
    requires
        word.len() > 0,
        word[0] == '@',
    ensures
        public_key_of(word.skip(1)) matches Some(key) ==> word_tag(word, users) == Some(
            seq!["p"@, key.text()],
        ),
        public_key_of(word.skip(1)) is None && found_users(users, word.skip(1)).len() > 0
            ==> word_tag(word, users) == Some(
            seq!["p"@, found_users(users, word.skip(1))[0].text()],
        ),
        public_key_of(word.skip(1)) is None && found_users(users, word.skip(1)).len() == 0
            ==> word_tag(word, users) is None,
{
}

proof fn lemma_decimal_len(n: nat)
    ensures
        n < 10 <==> decimal(n).len() == 1,
        decimal(n).len() > 0,
{
    if n >= 10 {
        decimal_round_trip(n / 10);
        assert(decimal(n) == decimal(n / 10).push((('0' as u32) + n % 10) as char));
    }
}

/// An asterisk before a number sets the priority to it, or to tens where it is a single digit; a
/// lone asterisk sets a high one.
pub proof fn an_asterisk_sets_the_priority(n: nat, users: UsersView)
    requires
        n <= 0xffff,
    ensures
        word_tag(seq!['*'] + decimal(n), users) == Some(
            prio_tag(
                if n < 10 {
                    (10 * n) as u16
                } else {
                    n as u16
                },
            ),
        ),
        word_tag(seq!['*'], users) == Some(prio_tag(85)),
{
    let word = seq!['*'] + decimal(n);
    decimal_round_trip(n);
    lemma_decimal_len(n);
    assert(word.skip(1) =~= decimal(n));
    let d = decimal(n);
    assert(is_digit(d[0]));
    assert(unsigned_value(d, 0xffff) == Some(n as int));
}

/// Any other word stands for no tag by itself.
pub proof fn other_words_are_plain(word: Seq<char>, users: UsersView)
    requires
        word.len() == 0 || (word[0] != '@' && word[0] != '*'),
    ensures
        word_tag(word, users) is None,
{
}

// ---------------------------------------------------------------------------
// Names and tags

proof fn lemma_plain_words(ws: Seq<Seq<char>>, users: UsersView)
    ensures
        plain_words(ws, users) == ws.filter(|w: Seq<char>| word_tag(w, users) is None),
    decreases ws.len(),
{
    reveal(Seq::filter);
    if ws.len() > 0 {
        lemma_plain_words(ws.drop_last(), users);
    } else {
        assert(ws =~= Seq::<Seq<char>>::empty());
    }
}

proof fn lemma_mark(ws: Seq<Seq<char>>, k: int)
    requires
        0 <= k <= ws.len(),
        forall|i: int| 0 <= i < k ==> #[trigger] ws[i] != "#"@,
        k < ws.len() ==> ws[k] == "#"@,
    ensures
        mark_at(ws) == k,
    decreases ws.len(),
{
    if ws.len() > 0 && k > 0 {
        let rest = ws.drop_first();
        assert(ws[0] != "#"@);
        assert forall|i: int| 0 <= i < k - 1 implies #[trigger] rest[i] != "#"@ by {
            assert(rest[i] == ws[i + 1]);
        }
        lemma_mark(rest, k - 1);
    }
}

/// The words of an input that stand for no tag by themselves.
pub open spec fn words_left(input: Seq<char>, users: UsersView) -> Seq<Seq<char>> {
    words(input, false).filter(|w: Seq<char>| word_tag(w, users) is None)
}

/// Whether `k` is the place of the first lone hash among the words, or their end.
pub open spec fn is_first_mark(ws: Seq<Seq<char>>, k: int) -> bool {
    &&& 0 <= k <= ws.len()
    &&& forall|i: int| 0 <= i < k ==> #[trigger] ws[i] != "#"@
    &&& k < ws.len() ==> ws[k] == "#"@
}

/// The name of a task is made of the words up to a lone hash that stand for no tag by themselves,
/// with a space between each two.
pub proof fn the_name_is_what_comes_before_the_tags(input: Seq<char>, users: UsersView, k: int)
    requires
        is_first_mark(words_left(input, users), k),
    ensures
        extracted_name(input, users) == joined(words_left(input, users).take(k), " "@),
{
    lemma_plain_words(words(input, false), users);
    lemma_mark(words_left(input, users), k);
}

proof fn lemma_hash_words_members(ws: Seq<Seq<char>>, t: TagView)
    ensures
        hash_words(ws).contains(t) <==> exists|i: int|
            0 <= i < ws.len() && (#[trigger] ws[i]).len() > 0 && ws[i][0] == '#' && t == seq![
                "t"@,
                without_leading(ws[i], '#'),
            ],
    decreases ws.len(),
{
    if ws.len() > 0 {
        let rest = ws.drop_last();
        lemma_hash_words_members(rest, t);
        let before = hash_words(rest);
        let r = hash_words(ws);
        if r.contains(t) {
            let j = choose|j: int| 0 <= j < r.len() && r[j] == t;
            if j < before.len() {
                assert(before[j] == t);
                let i = choose|i: int|
                    0 <= i < rest.len() && (#[trigger] rest[i]).len() > 0 && rest[i][0] == '#' && t
                        == seq!["t"@, without_leading(rest[i], '#')];
                assert(ws[i] == rest[i]);
            } else {
                assert(ws[ws.len() - 1] == ws.last());
            }
        }
        if exists|i: int|
            0 <= i < ws.len() && (#[trigger] ws[i]).len() > 0 && ws[i][0] == '#' && t == seq![
                "t"@,
                without_leading(ws[i], '#'),
            ] {
            let i = choose|i: int|
                0 <= i < ws.len() && (#[trigger] ws[i]).len() > 0 && ws[i][0] == '#' && t == seq![
                    "t"@,
                    without_leading(ws[i], '#'),
                ];
            if i < rest.len() {
                assert(rest[i] == ws[i]);
                let j = choose|j: int| 0 <= j < before.len() && before[j] == t;
                assert(r[j] == t);
            } else {
                assert(r.last() == t);
            }
        }
    }
}

proof fn lemma_listed_members(ws: Seq<Seq<char>>, t: TagView)
    ensures
        listed_hashtags(ws).contains(t) <==> exists|i: int|
            0 <= i < ws.len() && #[trigger] ws[i] != "#"@ && t == seq!["t"@, ws[i]],
    decreases ws.len(),
{
    if ws.len() > 0 {
        let rest = ws.drop_last();
        lemma_listed_members(rest, t);
        let before = listed_hashtags(rest);
        let r = listed_hashtags(ws);
        if r.contains(t) {
            let j = choose|j: int| 0 <= j < r.len() && r[j] == t;
            if j < before.len() {
                assert(before[j] == t);
                let i = choose|i: int|
                    0 <= i < rest.len() && #[trigger] rest[i] != "#"@ && t == seq!["t"@, rest[i]];
                assert(ws[i] == rest[i]);
            } else {
                assert(ws[ws.len() - 1] == ws.last());
            }
        }
        if exists|i: int|
            0 <= i < ws.len() && #[trigger] ws[i] != "#"@ && t == seq!["t"@, ws[i]] {
            let i = choose|i: int|
                0 <= i < ws.len() && #[trigger] ws[i] != "#"@ && t == seq!["t"@, ws[i]];
            if i < rest.len() {
                assert(rest[i] == ws[i]);
                let j = choose|j: int| 0 <= j < before.len() && before[j] == t;
                assert(r[j] == t);
            } else {
                assert(r.last() == t);
            }
        }
    }
}

proof fn lemma_word_tags_members(ws: Seq<Seq<char>>, users: UsersView, t: TagView)
    ensures
        word_tags(ws, users).contains(t) <==> exists|i: int|
            0 <= i < ws.len() && word_tag(#[trigger] ws[i], users) == Some(t),
    decreases ws.len(),
{
    if ws.len() > 0 {
        let rest = ws.drop_last();
        lemma_word_tags_members(rest, users, t);
        let before = word_tags(rest, users);
        let r = word_tags(ws, users);
        if r.contains(t) {
            let j = choose|j: int| 0 <= j < r.len() && r[j] == t;
            if j < before.len() {
                assert(before[j] == t);
                let i = choose|i: int|
                    0 <= i < rest.len() && word_tag(#[trigger] rest[i], users) == Some(t);
                assert(ws[i] == rest[i]);
            } else {
                assert(ws[ws.len() - 1] == ws.last());
            }
        }
        if exists|i: int| 0 <= i < ws.len() && word_tag(#[trigger] ws[i], users) == Some(t) {
            let i = choose|i: int|
                0 <= i < ws.len() && word_tag(#[trigger] ws[i], users) == Some(t);
            if i < rest.len() {
                assert(rest[i] == ws[i]);
                let j = choose|j: int| 0 <= j < before.len() && before[j] == t;
                assert(r[j] == t);
            } else {
                assert(r.last() == t);
            }
        }
    }
}

/// Whether a word starts with a hash and stands for that hashtag, without hashes before it.
pub open spec fn is_hash_word(word: Seq<char>, t: TagView) -> bool {
    word.len() > 0 && word[0] == '#' && t == seq!["t"@, without_leading(word, '#')]
}

/// The tags in an input are the hashtags within its name, the words behind a lone hash as
/// hashtags, and what words stand for by themselves, and no others.
pub proof fn the_tags_are_those_in_the_input(
    input: Seq<char>,
    users: UsersView,
    k: int,
    t: TagView,
)
    requires
        is_first_mark(words_left(input, users), k),
    ensures
        extracted_tags(input, users).contains(t) == {
            let left = words_left(input, users);
            let named = words(joined(left.take(k), " "@), false);
            ||| exists|i: int| 0 <= i < named.len() && is_hash_word(#[trigger] named[i], t)
            ||| exists|i: int| k < i < left.len() && #[trigger] left[i] != "#"@ && t == seq![
                "t"@,
                left[i],
            ]
            ||| exists|i: int|
                0 <= i < words(input, false).len() && word_tag(
                    #[trigger] words(input, false)[i],
                    users,
                ) == Some(t)
        },
{
    let left = words_left(input, users);
    the_name_is_what_comes_before_the_tags(input, users, k);
    lemma_plain_words(words(input, false), users);
    lemma_mark(left, k);
    let name = extracted_name(input, users);
    let named = words(name, false);
    let a = embedded_hashtags(name);
    let b = listed_hashtags(left.skip(k));
    let c = word_tags(words(input, false), users);
    lemma_sorted_set_members(a + b + c);
    lemma_hash_words_members(named, t);
    lemma_listed_members(left.skip(k), t);
    lemma_word_tags_members(words(input, false), users, t);
    let all = a + b + c;
    assert(all.contains(t) == (a.contains(t) || b.contains(t) || c.contains(t))) by {
        if a.contains(t) {
            let i = choose|i: int| 0 <= i < a.len() && a[i] == t;
            assert(all[i] == t);
        }
        if b.contains(t) {
            let i = choose|i: int| 0 <= i < b.len() && b[i] == t;
            assert(all[a.len() + i] == t);
        }
        if c.contains(t) {
            let i = choose|i: int| 0 <= i < c.len() && c[i] == t;
            assert(all[a.len() + b.len() + i] == t);
        }
        if all.contains(t) {
            let i = choose|i: int| 0 <= i < all.len() && all[i] == t;
            if i < a.len() {
                assert(a[i] == t);
            } else if i < a.len() + b.len() {
                assert(b[i - a.len()] == t);
            } else {
                assert(c[i - a.len() - b.len()] == t);
            }
        }
    }
    if a.contains(t) {
        let i = choose|i: int|
            0 <= i < named.len() && (#[trigger] named[i]).len() > 0 && named[i][0] == '#' && t
                == seq!["t"@, without_leading(named[i], '#')];
        assert(is_hash_word(named[i], t));
    }
    if exists|i: int| 0 <= i < named.len() && is_hash_word(#[trigger] named[i], t) {
        let i = choose|i: int| 0 <= i < named.len() && is_hash_word(#[trigger] named[i], t);
        assert(named[i].len() > 0 && named[i][0] == '#');
    }
    let behind = left.skip(k);
    if b.contains(t) {
        let i = choose|i: int|
            0 <= i < behind.len() && #[trigger] behind[i] != "#"@ && t == seq!["t"@, behind[i]];
        assert(left[k + i] == behind[i]);
    }
    if exists|i: int| k < i < left.len() && #[trigger] left[i] != "#"@ && t == seq!["t"@, left[i]] {
        let i = choose|i: int|
            k < i < left.len() && #[trigger] left[i] != "#"@ && t == seq!["t"@, left[i]];
        assert(behind[i - k] == left[i]);
    }
}

// ---------------------------------------------------------------------------
// Procedures

/// The step that a new one follows is the latest subtask.
pub proof fn the_previous_step_is_the_latest(tasks: TasksView, at: Seq<int>)
    ensures
        newest(tasks, at) is None == (at.len() == 0),
        newest(tasks, at) matches Some(n) ==> at.contains(n) && forall|k: int|
            0 <= k < at.len() ==> tasks[#[trigger] at[k]].event.created_at
                <= tasks[n].event.created_at,
    decreases at.len(),
{
    if at.len() > 0 {
        let rest = at.drop_last();
        the_previous_step_is_the_latest(tasks, rest);
        let n = newest(tasks, at).unwrap();
        assert(at.contains(n)) by {
            if n == at.last() {
                assert(at[at.len() - 1] == n);
            } else {
                let k = choose|k: int| 0 <= k < rest.len() && rest[k] == n;
                assert(at[k] == n);
            }
        }
        assert forall|k: int| 0 <= k < at.len() implies tasks[#[trigger] at[k]].event.created_at
            <= tasks[n].event.created_at by {
            if k < rest.len() {
                assert(at[k] == rest[k]);
            }
        }
    }
}

/// The active task becomes a procedure, and open again if it is one. Without an active task,
/// procedures are filtered for.
pub proof fn a_task_is_made_a_procedure_and_back(relay: RelayView, clock: u64, keys: KeysView)
    ensures
        ({
            let after = relay.executed(CommandView::Procedure, clock, keys, None).0;
            match relay.position(clock) {
                Some(id) => {
                    let is_one = task_of(relay.tasks, id) matches Some(t) && t.pure_state(
                        now_of(clock),
                    ) == State::Procedure;
                    after.tasks == relay.state_set(
                        id,
                        ""@,
                        if is_one {
                            State::Open
                        } else {
                            State::Procedure
                        },
                        clock,
                    ).tasks
                },
                None => after.state == FilterView::State("Procedure"@) && after.tasks
                    == relay.tasks,
            }
        }),
{
    reveal(RelayView::proceeded);
}

// ---------------------------------------------------------------------------
// Notes

/// A note that is entered at a task becomes an update of it with the text as its content.
pub proof fn a_note_is_kept_with_the_active_task(
    relay: RelayView,
    note: Seq<char>,
    clock: u64,
    keys: KeysView,
    id: EventId,
)
    requires
        relay.in_order(),
        relay.position(clock) == Some(id),
        has_task(relay.tasks, id),
        relay.tasks[task_at(relay.tasks, id)].is_task(),
        forall|i: int|
            0 <= i < relay.tasks[task_at(relay.tasks, id)].props.len() ==> (
            #[trigger] relay.tasks[task_at(relay.tasks, id)].props[i]).created_at
                != match relay.custom_time {
                Some(t) => t,
                None => clock,
            },
    ensures
        ({
            let after = relay.executed(CommandView::Note(note), clock, keys, None).0;
            let before = relay.tasks[task_at(relay.tasks, id)];
            &&& after.tasks.len() == relay.tasks.len()
            &&& has_task(after.tasks, id)
            &&& exists|e: EventView| #[trigger]
                after.tasks[task_at(after.tasks, id)].props.contains(e) && e.kind == TEXT_NOTE_KIND
                    && e.pubkey == relay.sender.key && e.content == extracted_name(
                    trimmed(note),
                    relay.users,
                )
            &&& forall|e: EventView|
                before.props.contains(e) ==> #[trigger] after.tasks[task_at(
                    after.tasks,
                    id,
                )].props.contains(e)
        }),
{
    reveal(RelayView::noted);
    let builder = relay.note_builder(note, clock);
    let event = relay.event_from(builder, clock);
    let at = task_at(relay.tasks, id);
    let before = relay.tasks[at];
    lemma_task_found(relay.tasks, id);
    assert(relay.on_task(clock));
    let mark = id_tag(relay.sender.url, id, MARKER_PROPERTY@);
    event_id_round_trip(id);
    let last = event.tags.len() - 1;
    assert(event.tags[last] == mark);
    assert(prop_target(event.tags[last]) == Some(id));
    assert(updates(event.tags, id));
    assert(has_target(relay.tasks, event.tags));
    let after = relay.submitted(builder, clock);
    assert(after.tasks == with_prop_at(relay.tasks, event.tags, event));
    lemma_reached(relay.tasks, event.tags, event, at);
    lemma_prop_at_ids(relay.tasks, event.tags, event);
    assert forall|i: int| 0 <= i < at implies (#[trigger] after.tasks[i]).event.id != id by {
        assert(relay.tasks[i].event.id != id);
    }
    lemma_task_at(after.tasks, id, at);
    assert(is_sorted_set::<Event>(before.props));
    adding_keeps_a_sorted_set::<Event>(before.props, event);
    let props = before.with_prop(event).props;
    assert(after.tasks[task_at(after.tasks, id)].props == props);
    assert forall|i: int| 0 <= i < before.props.len() implies !ties::<Event>(
        #[trigger] before.props[i],
        event,
    ) by {
        assert(before.props[i].created_at != event.created_at);
    }
    lemma_contains_placed::<Event>(before.props, event, event);
    let shown = relay.executed(CommandView::Note(note), clock, keys, None).0;
    assert(shown.tasks == after.tasks);
    assert(shown.tasks[task_at(shown.tasks, id)].props.contains(event));
    assert(event.kind == TEXT_NOTE_KIND);
}

proof fn lemma_notes_members(props: Seq<EventView>, text: Seq<char>)
    ensures
        notes_in(props).contains(text) <==> trimmed(text).len() > 0 && exists|i: int|
            0 <= i < props.len() && (#[trigger] props[i]).kind == TEXT_NOTE_KIND
                && props[i].content == text,
    decreases props.len(),
{
    if props.len() > 0 {
        let rest = props.drop_last();
        lemma_notes_members(rest, text);
        let before = notes_in(rest);
        let r = notes_in(props);
        if r.contains(text) {
            let j = choose|j: int| 0 <= j < r.len() && r[j] == text;
            if j < before.len() {
                assert(before[j] == text);
                let i = choose|i: int|
                    0 <= i < rest.len() && (#[trigger] rest[i]).kind == TEXT_NOTE_KIND
                        && rest[i].content == text;
                assert(props[i] == rest[i]);
            } else {
                assert(props[props.len() - 1] == props.last());
            }
        }
        if trimmed(text).len() > 0 && exists|i: int|
            0 <= i < props.len() && (#[trigger] props[i]).kind == TEXT_NOTE_KIND
                && props[i].content == text {
            let i = choose|i: int|
                0 <= i < props.len() && (#[trigger] props[i]).kind == TEXT_NOTE_KIND
                    && props[i].content == text;
            if i < rest.len() {
                assert(rest[i] == props[i]);
                let j = choose|j: int| 0 <= j < before.len() && before[j] == text;
                assert(r[j] == text);
            } else {
                assert(r.last() == text);
            }
        }
    }
}

/// The description of a task has all its notes that say something, and nothing else.
pub proof fn the_description_has_all_notes(task: TaskView, text: Seq<char>)
    ensures
        notes_in(task.props).contains(text) <==> trimmed(text).len() > 0 && exists|i: int|
            0 <= i < task.props.len() && (#[trigger] task.props[i]).kind == TEXT_NOTE_KIND
                && task.props[i].content == text,
{
    lemma_notes_members(task.props, text);
}

} // verus!
