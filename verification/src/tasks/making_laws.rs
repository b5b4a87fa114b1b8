//! What holds of the tasks that are made.

use crate::hashtag::{hashtag_of, hashtags_in, same_hashtag};
use crate::kinds::{
    embedded_hashtags, event_ref, extracted_name, extracted_tags, hash_words, listed_hashtags,
    mark_at, plain_words, prio_tag, word_tags, MARKER_DEPENDS, MARKER_PARENT, PRIO,
};
use crate::lists::{adding_keeps_a_sorted_set, is_sorted_set, sorted_set, ties};
use crate::nostr::{
    event_id_round_trip, lowercase, public_key_round_trip, tag_is, EventId, EventView, PublicKey,
    Tag, TagView,
};
use crate::task::state::State;
use crate::task::{
    marked, non_refs_in, other_tags_of, participant, participants_in, prio_in, refs_in, TaskView,
};
use crate::tasks::create::{event_tag, has_kind, hashtag_tags, id_tag, newest};
use crate::tasks::filter::has_hashtag;
use crate::tasks::nostr_users::UsersView;
use crate::tasks::task_map::{children, task_of};
use crate::tasks::{now_of, prop_target, RelayView};
use crate::text::{
    all_digits, decimal, digits_value, is_digit, lemma_texts_leq_total, trimmed, unsigned_value,
    words,
};
use vstd::prelude::*;

verus! {

// ---------------------------------------------------------------------------
// Kinds of tags

/// None of the tags is of the kind.
pub open spec fn none_of_kind(tags: Seq<TagView>, kind: Seq<char>) -> bool {
    forall|i: int| 0 <= i < tags.len() ==> !tag_is(#[trigger] tags[i], kind)
}

pub proof fn lemma_kinds()
    ensures
        "t"@ != "e"@,
        "p"@ != "e"@,
        PRIO@ != "e"@,
        "t"@ != "p"@,
        "e"@ != "p"@,
        PRIO@ != "p"@,
        "t"@ != PRIO@,
        "e"@ != PRIO@,
        "p"@ != PRIO@,
{
    reveal_strlit("t");
    reveal_strlit("e");
    reveal_strlit("p");
    reveal_strlit("priority");
    assert("t"@[0] == 't' && "e"@[0] == 'e' && "p"@[0] == 'p');
    assert("priority"@.len() == 8 && "p"@.len() == 1 && "t"@.len() == 1 && "e"@.len() == 1);
}

proof fn lemma_none_of_kind_together(a: Seq<TagView>, b: Seq<TagView>, kind: Seq<char>)
    requires
        none_of_kind(a, kind),
        none_of_kind(b, kind),
    ensures
        none_of_kind(a + b, kind),
{
    let r = a + b;
    assert forall|i: int| 0 <= i < r.len() implies !tag_is(#[trigger] r[i], kind) by {
        if i < a.len() {
            assert(r[i] == a[i]);
        } else {
            assert(r[i] == b[i - a.len()]);
        }
    }
}

pub proof fn lemma_sorted_set_members(s: Seq<TagView>)
    ensures
        is_sorted_set::<Tag>(sorted_set::<Tag>(s)),
        forall|x: TagView| #[trigger] sorted_set::<Tag>(s).contains(x) <==> s.contains(x),
    decreases s.len(),
{
    if s.len() > 0 {
        let rest = s.drop_last();
        lemma_sorted_set_members(rest);
        let before = sorted_set::<Tag>(rest);
        let r = sorted_set::<Tag>(s);
        adding_keeps_a_sorted_set::<Tag>(before, s.last());
        assert forall|x: TagView| #[trigger] r.contains(x) <==> s.contains(x) by {
            if s.contains(x) {
                let k = choose|k: int| 0 <= k < s.len() && s[k] == x;
                if k < rest.len() {
                    assert(rest[k] == x);
                    assert(before.contains(x));
                } else {
                    let j = choose|j: int| 0 <= j < r.len() && ties::<Tag>(#[trigger] r[j], x);
                    lemma_texts_leq_total(r[j], x);
                    assert(r[j] == x);
                }
            }
            if r.contains(x) {
                if before.contains(x) {
                    let k = choose|k: int| 0 <= k < rest.len() && rest[k] == x;
                    assert(s[k] == x);
                } else {
                    assert(s[s.len() - 1] == x);
                }
            }
        }
    }
}

proof fn lemma_sorted_set_kinds(s: Seq<TagView>, kind: Seq<char>)
    requires
        none_of_kind(s, kind),
    ensures
        none_of_kind(sorted_set::<Tag>(s), kind),
{
    lemma_sorted_set_members(s);
    let r = sorted_set::<Tag>(s);
    assert forall|i: int| 0 <= i < r.len() implies !tag_is(#[trigger] r[i], kind) by {
        assert(r.contains(r[i]));
        let k = choose|k: int| 0 <= k < s.len() && s[k] == r[i];
        assert(!tag_is(s[k], kind));
    }
}

proof fn lemma_hash_words(ws: Seq<Seq<char>>)
    ensures
        none_of_kind(hash_words(ws), "e"@),
    decreases ws.len(),
{
    lemma_kinds();
    if ws.len() > 0 {
        lemma_hash_words(ws.drop_last());
        let before = hash_words(ws.drop_last());
        let r = hash_words(ws);
        assert forall|i: int| 0 <= i < r.len() implies !tag_is(#[trigger] r[i], "e"@) by {
            if i < before.len() {
                assert(r[i] == before[i]);
            }
        }
    }
}

proof fn lemma_listed_hashtags(ws: Seq<Seq<char>>)
    ensures
        none_of_kind(listed_hashtags(ws), "e"@),
    decreases ws.len(),
{
    lemma_kinds();
    if ws.len() > 0 {
        lemma_listed_hashtags(ws.drop_last());
        let before = listed_hashtags(ws.drop_last());
        let r = listed_hashtags(ws);
        assert forall|i: int| 0 <= i < r.len() implies !tag_is(#[trigger] r[i], "e"@) by {
            if i < before.len() {
                assert(r[i] == before[i]);
            }
        }
    }
}

proof fn lemma_word_tags(ws: Seq<Seq<char>>, users: UsersView)
    ensures
        none_of_kind(word_tags(ws, users), "e"@),
    decreases ws.len(),
{
    lemma_kinds();
    if ws.len() > 0 {
        lemma_word_tags(ws.drop_last(), users);
        let before = word_tags(ws.drop_last(), users);
        let r = word_tags(ws, users);
        assert forall|i: int| 0 <= i < r.len() implies !tag_is(#[trigger] r[i], "e"@) by {
            if i < before.len() {
                assert(r[i] == before[i]);
            }
        }
    }
}

/// The tags in an input refer to no event.
pub proof fn an_input_refers_to_no_event(input: Seq<char>, users: UsersView)
    ensures
        none_of_kind(extracted_tags(input, users), "e"@),
{
    let plain = plain_words(words(input, false), users);
    let name = extracted_name(input, users);
    lemma_hash_words(words(name, false));
    lemma_listed_hashtags(plain.skip(mark_at(plain)));
    lemma_word_tags(words(input, false), users);
    let a = embedded_hashtags(name);
    let b = listed_hashtags(plain.skip(mark_at(plain)));
    let c = word_tags(words(input, false), users);
    lemma_none_of_kind_together(a, b, "e"@);
    lemma_none_of_kind_together(a + b, c, "e"@);
    lemma_sorted_set_kinds(a + b + c, "e"@);
}

// ---------------------------------------------------------------------------
// References

proof fn lemma_refs_together(a: Seq<TagView>, b: Seq<TagView>)
    ensures
        refs_in(a + b) == refs_in(a) + refs_in(b),
    decreases b.len(),
{
    if b.len() == 0 {
        assert(a + b =~= a);
        assert(refs_in(a) + refs_in(b) =~= refs_in(a));
    } else {
        let r = a + b;
        lemma_refs_together(a, b.drop_last());
        assert(r.drop_last() =~= a + b.drop_last());
        assert(r.last() == b.last());
        assert(refs_in(r) =~= refs_in(a) + refs_in(b));
    }
}

proof fn lemma_no_refs(tags: Seq<TagView>)
    requires
        none_of_kind(tags, "e"@),
    ensures
        refs_in(tags) == Seq::<(Seq<char>, EventId)>::empty(),
        non_refs_in(tags) == tags,
    decreases tags.len(),
{
    if tags.len() > 0 {
        let rest = tags.drop_last();
        assert forall|i: int| 0 <= i < rest.len() implies !tag_is(#[trigger] rest[i], "e"@) by {
            assert(!tag_is(tags[i], "e"@));
        }
        lemma_no_refs(rest);
        assert(!tag_is(tags[tags.len() - 1], "e"@));
        assert(rest.push(tags.last()) =~= tags);
    } else {
        assert(tags =~= Seq::<TagView>::empty());
    }
}

proof fn lemma_hashtag_tags(tags: Seq<Seq<char>>)
    ensures
        none_of_kind(hashtag_tags(tags), "e"@),
        none_of_kind(hashtag_tags(tags), "p"@),
        none_of_kind(hashtag_tags(tags), PRIO@),
{
    lemma_kinds();
}

/// A new task refers to what it is placed by and to nothing else.
proof fn lemma_new_refs(relay: RelayView, input: Seq<char>, given: Seq<TagView>)
    requires
        relay.new_task_builder(input, given) is Some,
    ensures
        refs_in(relay.new_task_builder(input, given).unwrap().tags) == refs_in(given),
{
    let own = extracted_tags(trimmed(input), relay.users);
    let tags = own + given;
    let h = hashtag_tags(relay.tags);
    let p = relay.prio_tags(tags);
    let a = relay.assignee_tags(tags);
    lemma_kinds();
    an_input_refers_to_no_event(trimmed(input), relay.users);
    lemma_hashtag_tags(relay.tags);
    lemma_no_refs(own);
    lemma_no_refs(h);
    lemma_no_refs(p);
    lemma_no_refs(a);
    lemma_refs_together(own, given);
    lemma_refs_together(h, tags);
    lemma_refs_together(h + tags, p);
    lemma_refs_together(h + tags + p, a);
    let all = relay.new_task_builder(input, given).unwrap().tags;
    assert(all =~= h + tags + p + a);
    assert(refs_in(all) =~= refs_in(given));
}

proof fn lemma_id_ref(url: Option<Seq<char>>, id: EventId, marker: Seq<char>)
    ensures
        refs_in(seq![id_tag(url, id, marker)]) == seq![(marker, id)],
{
    event_id_round_trip(id);
    let tags = seq![id_tag(url, id, marker)];
    assert(tags.drop_last() =~= Seq::<TagView>::empty());
    assert(refs_in(tags.drop_last()) =~= Seq::<(Seq<char>, EventId)>::empty());
    assert(tags.last() == id_tag(url, id, marker));
    assert(refs_in(tags) =~= seq![(marker, id)]);
}

proof fn lemma_event_ref(url: Option<Seq<char>>, event: EventView, marker: Seq<char>)
    ensures
        refs_in(seq![event_tag(url, event, marker)]) == seq![(marker, event.id)],
{
    event_id_round_trip(event.id);
    let tags = seq![event_tag(url, event, marker)];
    assert(tags.drop_last() =~= Seq::<TagView>::empty());
    assert(refs_in(tags.drop_last()) =~= Seq::<(Seq<char>, EventId)>::empty());
    assert(tags.last() == event_tag(url, event, marker));
    assert(refs_in(tags) =~= seq![(marker, event.id)]);
}

proof fn lemma_marked_one(marker: Seq<char>, id: EventId, wanted: Seq<char>)
    ensures
        marked(seq![(marker, id)], wanted) == if marker == wanted {
            seq![id]
        } else {
            Seq::<EventId>::empty()
        },
{
    let refs = seq![(marker, id)];
    assert(refs.drop_last() =~= Seq::<(Seq<char>, EventId)>::empty());
    assert(marked(refs.drop_last(), wanted) =~= Seq::<EventId>::empty());
    assert(refs.last() == (marker, id));
    if marker == wanted {
        assert(marked(refs, wanted) =~= seq![id]);
    }
}

proof fn lemma_marked_two(
    a: (Seq<char>, EventId),
    b: (Seq<char>, EventId),
    wanted: Seq<char>,
)
    ensures
        marked(seq![a, b], wanted) == marked(seq![a], wanted) + marked(seq![b], wanted),
{
    let refs = seq![a, b];
    assert(refs.drop_last() =~= seq![a]);
    assert(refs.last() == b);
    lemma_marked_one(b.0, b.1, wanted);
    assert(marked(refs, wanted) =~= marked(seq![a], wanted) + marked(seq![b], wanted));
}

proof fn lemma_markers()
    ensures
        MARKER_PARENT@ != MARKER_DEPENDS@,
{
    reveal_strlit("parent");
    reveal_strlit("depends");
    assert("parent"@.len() == 6 && "depends"@.len() == 7);
}

impl RelayView {
    /// What a new task below the position depends on: the latest subtask of a procedure.
    pub open spec fn previous_step(self, position: Option<EventId>, now: u64) -> Seq<EventId> {
        match position {
            Some(pos) => match task_of(self.tasks, pos) {
                Some(task) => if task.pure_state(now) == State::Procedure {
                    match newest(self.tasks, children(self.tasks, Some(pos))) {
                        Some(i) => seq![self.tasks[i].event.id],
                        None => Seq::empty(),
                    }
                } else {
                    Seq::empty()
                },
                None => Seq::empty(),
            },
            None => Seq::empty(),
        }
    }
}

/// The active task is the parent of a new one. Below a procedure the new task depends on the
/// latest step, and elsewhere on nothing.
pub proof fn a_new_task_is_placed_below_the_active_one(relay: RelayView, input: Seq<char>, clock: u64)
    requires
        relay.new_task_builder(input, relay.position_tags(clock)) is Some,
    ensures
        ({
            let builder = relay.new_task_builder(input, relay.position_tags(clock)).unwrap();
            let task = TaskView::of(relay.event_from(builder, clock));
            &&& task.parent() == relay.position(clock)
            &&& marked(task.refs, MARKER_DEPENDS@) == relay.previous_step(
                relay.position(clock),
                now_of(clock),
            )
        }),
{
    let given = relay.position_tags(clock);
    lemma_new_refs(relay, input, given);
    lemma_markers();
    let url = relay.sender.url;
    match relay.position(clock) {
        Some(pos) => {
            lemma_id_ref(url, pos, MARKER_PARENT@);
            lemma_marked_one(MARKER_PARENT@, pos, MARKER_PARENT@);
            lemma_marked_one(MARKER_PARENT@, pos, MARKER_DEPENDS@);
            let parent = seq![id_tag(url, pos, MARKER_PARENT@)];
            if relay.previous_step(Some(pos), now_of(clock)).len() > 0 {
                let step = newest(relay.tasks, children(relay.tasks, Some(pos))).unwrap();
                let event = relay.tasks[step].event;
                let depends = seq![event_tag(url, event, MARKER_DEPENDS@)];
                lemma_event_ref(url, event, MARKER_DEPENDS@);
                lemma_refs_together(parent, depends);
                assert(given =~= parent + depends);
                assert(refs_in(given) =~= seq![
                    (MARKER_PARENT@, pos),
                    (MARKER_DEPENDS@, event.id),
                ]);
                lemma_marked_one(MARKER_DEPENDS@, event.id, MARKER_PARENT@);
                lemma_marked_one(MARKER_DEPENDS@, event.id, MARKER_DEPENDS@);
                lemma_marked_two(
                    (MARKER_PARENT@, pos),
                    (MARKER_DEPENDS@, event.id),
                    MARKER_PARENT@,
                );
                lemma_marked_two(
                    (MARKER_PARENT@, pos),
                    (MARKER_DEPENDS@, event.id),
                    MARKER_DEPENDS@,
                );
            }
        },
        None => {},
    }
}

/// A task that is made to follow another depends on it.
pub proof fn a_sibling_depends_on_the_task_it_follows(
    relay: RelayView,
    input: Seq<char>,
    pos: EventId,
    clock: u64,
)
    requires
        relay.new_task_builder(input, relay.sibling_tags(pos, clock)) is Some,
    ensures
        ({
            let builder = relay.new_task_builder(input, relay.sibling_tags(pos, clock)).unwrap();
            let task = TaskView::of(relay.event_from(builder, clock));
            &&& task.parent() == relay.position(clock)
            &&& marked(task.refs, MARKER_DEPENDS@) == seq![pos]
        }),
{
    let given = relay.sibling_tags(pos, clock);
    lemma_new_refs(relay, input, given);
    lemma_markers();
    let url = relay.sender.url;
    let depends = seq![id_tag(url, pos, MARKER_DEPENDS@)];
    lemma_id_ref(url, pos, MARKER_DEPENDS@);
    lemma_marked_one(MARKER_DEPENDS@, pos, MARKER_PARENT@);
    lemma_marked_one(MARKER_DEPENDS@, pos, MARKER_DEPENDS@);
    match relay.position(clock) {
        Some(par) => {
            lemma_id_ref(url, par, MARKER_PARENT@);
            lemma_marked_one(MARKER_PARENT@, par, MARKER_PARENT@);
            lemma_marked_one(MARKER_PARENT@, par, MARKER_DEPENDS@);
            let parent = seq![id_tag(url, par, MARKER_PARENT@)];
            lemma_refs_together(parent, depends);
            assert(given =~= parent + depends);
            assert(refs_in(given) =~= seq![(MARKER_PARENT@, par), (MARKER_DEPENDS@, pos)]);
            lemma_marked_two((MARKER_PARENT@, par), (MARKER_DEPENDS@, pos), MARKER_PARENT@);
            lemma_marked_two((MARKER_PARENT@, par), (MARKER_DEPENDS@, pos), MARKER_DEPENDS@);
            assert(Seq::<EventId>::empty() + seq![pos] =~= seq![pos]);
        },
        None => {
            assert(given =~= depends);
        },
    }
}

// ---------------------------------------------------------------------------
// Context

/// The digits of a number denote it.
pub proof fn decimal_round_trip(n: nat)
    ensures
        all_digits(decimal(n)),
        decimal(n).len() > 0,
        digits_value(decimal(n)) == n,
    decreases n,
{
    if n < 10 {
        let d = decimal(n);
        assert(d.drop_last() =~= Seq::<char>::empty());
        assert(d.last() == (('0' as u32) + n) as char);
        assert(digits_value(d.drop_last()) == 0);
    } else {
        decimal_round_trip(n / 10);
        let d = decimal(n);
        assert(d.drop_last() =~= decimal(n / 10));
        assert(d.last() == (('0' as u32) + n % 10) as char);
        assert forall|i: int| 0 <= i < d.len() implies is_digit(#[trigger] d[i]) by {
            if i < d.len() - 1 {
                assert(d[i] == decimal(n / 10)[i]);
            }
        }
    }
}

proof fn lemma_prio_behind(a: Seq<TagView>, b: Seq<TagView>)
    requires
        none_of_kind(a, PRIO@),
    ensures
        prio_in(a + b) == prio_in(b),
    decreases a.len(),
{
    if a.len() == 0 {
        assert(a + b =~= b);
    } else {
        let rest = a.drop_first();
        assert(!tag_is(a[0], PRIO@));
        assert forall|i: int| 0 <= i < rest.len() implies !tag_is(#[trigger] rest[i], PRIO@) by {
            assert(!tag_is(a[i + 1], PRIO@));
        }
        lemma_prio_behind(rest, b);
        assert((a + b).drop_first() =~= rest + b);
    }
}

/// A new task has the priority that is filtered by, unless the input sets one.
pub proof fn a_new_task_has_the_priority(relay: RelayView, name: Seq<char>, tags: Seq<TagView>, clock: u64)
    requires
        !has_kind(tags, PRIO@),
    ensures
        relay.matches_priority(
            TaskView::of(relay.event_from(relay.task_builder(name, tags), clock)),
        ),
        relay.priority matches Some(p) ==> TaskView::of(
            relay.event_from(relay.task_builder(name, tags), clock),
        ).priority() == Some(p),
{
    let event = relay.event_from(relay.task_builder(name, tags), clock);
    match relay.priority {
        Some(p) => {
            let h = hashtag_tags(relay.tags);
            let prio = relay.prio_tags(tags);
            let a = relay.assignee_tags(tags);
            lemma_hashtag_tags(relay.tags);
            assert forall|i: int| 0 <= i < tags.len() implies !tag_is(
                #[trigger] tags[i],
                PRIO@,
            ) by {
            }
            lemma_none_of_kind_together(h, tags, PRIO@);
            lemma_prio_behind(h + tags, prio + a);
            assert(event.tags =~= (h + tags) + (prio + a));
            assert((prio + a)[0] == prio_tag(p));
            assert(prio_in(event.tags) == Some(decimal(p as nat)));
            decimal_round_trip(p as nat);
            let d = decimal(p as nat);
            assert(is_digit(d[0]));
            assert(unsigned_value(d, 0xffff) == Some(p as int));
        },
        None => {},
    }
}

proof fn lemma_participants(tags: Seq<TagView>, key: PublicKey)
    requires
        forall|i: int|
            0 <= i < tags.len() ==> participant(#[trigger] tags[i]) is None || participant(tags[i])
                == Some(key),
    ensures
        forall|i: int|
            0 <= i < participants_in(tags).len() ==> #[trigger] participants_in(tags)[i] == key,
        (exists|i: int| 0 <= i < tags.len() && participant(#[trigger] tags[i]) == Some(key))
            ==> participants_in(tags).len() > 0,
    decreases tags.len(),
{
    if tags.len() > 0 {
        let rest = tags.drop_last();
        assert forall|i: int| 0 <= i < rest.len() implies participant(#[trigger] rest[i]) is None
            || participant(rest[i]) == Some(key) by {
            assert(participant(tags[i]) is None || participant(tags[i]) == Some(key));
        }
        lemma_participants(rest, key);
        let before = participants_in(rest);
        let r = participants_in(tags);
        assert(participant(tags[tags.len() - 1]) is None || participant(tags.last()) == Some(key));
        assert forall|i: int| 0 <= i < r.len() implies #[trigger] r[i] == key by {
            if i < before.len() {
                assert(r[i] == before[i]);
            }
        }
        if exists|i: int| 0 <= i < tags.len() && participant(#[trigger] tags[i]) == Some(key) {
            let i = choose|i: int| 0 <= i < tags.len() && participant(#[trigger] tags[i]) == Some(key);
            if i < rest.len() {
                assert(participant(rest[i]) == Some(key));
            }
        }
    }
}

proof fn lemma_non_refs_members(tags: Seq<TagView>)
    ensures
        forall|x: TagView| #[trigger]
            non_refs_in(tags).contains(x) <==> tags.contains(x) && event_ref(x) is None,
    decreases tags.len(),
{
    if tags.len() > 0 {
        let rest = tags.drop_last();
        lemma_non_refs_members(rest);
        let before = non_refs_in(rest);
        let r = non_refs_in(tags);
        assert forall|x: TagView| #[trigger] r.contains(x) <==> tags.contains(x) && event_ref(
            x,
        ) is None by {
            if tags.contains(x) && event_ref(x) is None {
                let k = choose|k: int| 0 <= k < tags.len() && tags[k] == x;
                if k < rest.len() {
                    assert(rest[k] == x);
                    assert(before.contains(x));
                    let j = choose|j: int| 0 <= j < before.len() && before[j] == x;
                    assert(r[j] == x);
                } else {
                    assert(r[r.len() - 1] == x);
                }
            }
            if r.contains(x) {
                let j = choose|j: int| 0 <= j < r.len() && r[j] == x;
                if j < before.len() {
                    assert(before[j] == x);
                    assert(before.contains(x));
                    let k = choose|k: int| 0 <= k < rest.len() && rest[k] == x;
                    assert(tags[k] == x);
                } else {
                    assert(tags[tags.len() - 1] == x);
                }
            }
        }
    }
}

/// The tags of a new task are those of its event that refer to no other.
pub proof fn lemma_new_tags(event: EventView)
    ensures
        forall|x: TagView| #[trigger]
            TaskView::of(event).all_tags().contains(x) <==> event.tags.contains(x) && event_ref(
                x,
            ) is None,
{
    let task = TaskView::of(event);
    assert(other_tags_of(task.props) =~= Seq::<TagView>::empty());
    assert(task.all_tags() =~= task.tags);
    lemma_non_refs_members(event.tags);
    lemma_sorted_set_members(non_refs_in(event.tags));
}

/// A new task is assigned to the first user who is filtered by, else to the one who makes it,
/// unless the input names one.
pub proof fn a_new_task_is_assigned(relay: RelayView, name: Seq<char>, tags: Seq<TagView>, clock: u64)
    requires
        !has_kind(tags, "p"@),
    ensures
        relay.matches_keys(TaskView::of(relay.event_from(relay.task_builder(name, tags), clock))),
        TaskView::of(relay.event_from(relay.task_builder(name, tags), clock)).assignee() == Some(
            relay.assignee(),
        ),
        TaskView::of(relay.event_from(relay.task_builder(name, tags), clock)).assignee() == Some(
            if relay.keys.len() > 0 {
                relay.keys[0]
            } else {
                relay.sender.key
            },
        ),
{
    let event = relay.event_from(relay.task_builder(name, tags), clock);
    let task = TaskView::of(event);
    let key = relay.assignee();
    let mark: TagView = seq!["p"@, key.text()];
    let h = hashtag_tags(relay.tags);
    let prio = relay.prio_tags(tags);
    let a = relay.assignee_tags(tags);
    lemma_kinds();
    public_key_round_trip(key);
    lemma_hashtag_tags(relay.tags);
    assert(event.tags =~= h + tags + prio + a);
    assert(a[0] == mark);
    let last = event.tags.len() - 1;
    assert(event.tags[last] == mark);
    lemma_new_tags(event);
    let all = task.all_tags();
    assert(event.tags.contains(mark));
    assert(!tag_is(mark, "e"@));
    assert(all.contains(mark));
    assert forall|i: int| 0 <= i < all.len() implies participant(#[trigger] all[i]) is None
        || participant(all[i]) == Some(key) by {
        assert(all.contains(all[i]));
        let k = choose|k: int| 0 <= k < event.tags.len() && event.tags[k] == all[i];
        if k < h.len() {
            assert(event.tags[k] == h[k]);
            assert(!tag_is(h[k], "p"@));
        } else if k < h.len() + tags.len() {
            assert(event.tags[k] == tags[k - h.len()]);
            assert(!tag_is(tags[k - h.len()], "p"@));
        } else if k < last {
            assert(event.tags[k] == prio[k - h.len() - tags.len()]);
        }
    }
    let at = choose|i: int| 0 <= i < all.len() && all[i] == mark;
    assert(participant(all[at]) == Some(key));
    lemma_participants(all, key);
    assert(task.participants()[0] == key);
    if relay.keys.len() > 0 {
        assert(relay.concerns(task, relay.keys[0]));
    }
}

pub proof fn lemma_hashtag_members(tags: Seq<TagView>, tag: TagView)
    requires
        tags.contains(tag),
        hashtag_of(tag) is Some,
    ensures
        hashtags_in(tags).contains(hashtag_of(tag).unwrap()),
    decreases tags.len(),
{
    let rest = tags.drop_last();
    let r = hashtags_in(tags);
    let k = choose|k: int| 0 <= k < tags.len() && tags[k] == tag;
    if k < rest.len() {
        assert(rest[k] == tag);
        lemma_hashtag_members(rest, tag);
        let before = hashtags_in(rest);
        let j = choose|j: int| 0 <= j < before.len() && before[j] == hashtag_of(tag).unwrap();
        assert(r[j] == before[j]);
    } else {
        assert(r[r.len() - 1] == hashtag_of(tag).unwrap());
    }
}

/// A new task has the hashtags that are filtered by, as far as writing them in lower case leaves
/// them the same.
pub proof fn a_new_task_has_the_hashtags(
    relay: RelayView,
    name: Seq<char>,
    tags: Seq<TagView>,
    clock: u64,
    i: int,
)
    requires
        0 <= i < relay.tags.len(),
        same_hashtag(trimmed(lowercase(relay.tags[i])), relay.tags[i]),
    ensures
        has_hashtag(
            TaskView::of(relay.event_from(relay.task_builder(name, tags), clock)).hashtags(),
            relay.tags[i],
        ),
{
    let event = relay.event_from(relay.task_builder(name, tags), clock);
    let task = TaskView::of(event);
    let h = hashtag_tags(relay.tags);
    let mark: TagView = seq!["t"@, lowercase(relay.tags[i])];
    lemma_kinds();
    assert(h[i] == mark);
    assert(event.tags =~= h + (tags + relay.prio_tags(tags) + relay.assignee_tags(tags)));
    assert(event.tags[i] == mark);
    lemma_new_tags(event);
    assert(event.tags.contains(mark));
    assert(!tag_is(mark, "e"@));
    let all = task.all_tags();
    assert(all.contains(mark));
    assert(tag_is(mark, "t"@));
    assert(hashtag_of(mark) == Some(trimmed(lowercase(relay.tags[i]))));
    lemma_hashtag_members(all, mark);
    let found = hashtags_in(all);
    let k = choose|k: int| 0 <= k < found.len() && found[k] == trimmed(lowercase(relay.tags[i]));
    assert(same_hashtag(task.hashtags()[k], relay.tags[i]));
}

/// A new task takes on the context that it is made in: it passes the filters for users, priority
/// and hashtags that are set, if the input sets none of its own that are filtered out.
pub proof fn a_new_task_takes_on_the_context(
    relay: RelayView,
    name: Seq<char>,
    tags: Seq<TagView>,
    clock: u64,
    now: u64,
)
    requires
        !has_kind(tags, PRIO@),
        !has_kind(tags, "p"@),
        !(relay.state is State),
        forall|i: int|
            0 <= i < relay.tags.len() ==> same_hashtag(
                trimmed(lowercase(#[trigger] relay.tags[i])),
                relay.tags[i],
            ),
        forall|i: int|
            0 <= i < relay.tags_excluded.len() ==> !has_hashtag(
                TaskView::of(relay.event_from(relay.task_builder(name, tags), clock)).hashtags(),
                #[trigger] relay.tags_excluded[i],
            ),
    ensures
        relay.filter(
            TaskView::of(relay.event_from(relay.task_builder(name, tags), clock)),
            now,
        ),
{
    let task = TaskView::of(relay.event_from(relay.task_builder(name, tags), clock));
    a_new_task_has_the_priority(relay, name, tags, clock);
    a_new_task_is_assigned(relay, name, tags, clock);
    assert forall|i: int| 0 <= i < relay.tags.len() implies has_hashtag(
        task.hashtags(),
        #[trigger] relay.tags[i],
    ) by {
        a_new_task_has_the_hashtags(relay, name, tags, clock, i);
    }
    assert(task.state_at(now) is None);
}

/// A user who is named in the input is the assignee of the new task, whoever is filtered by.
pub proof fn a_named_user_is_assigned(
    relay: RelayView,
    name: Seq<char>,
    tags: Seq<TagView>,
    clock: u64,
    key: PublicKey,
    at: int,
)
    requires
        0 <= at < tags.len(),
        tags[at] == seq!["p"@, key.text()],
        forall|i: int| 0 <= i < tags.len() && tag_is(#[trigger] tags[i], "p"@) ==> tags[i]
            == seq!["p"@, key.text()],
    ensures
        TaskView::of(relay.event_from(relay.task_builder(name, tags), clock)).assignee() == Some(
            key,
        ),
        TaskView::of(relay.event_from(relay.task_builder(name, tags), clock)).owner() == key,
{
    let event = relay.event_from(relay.task_builder(name, tags), clock);
    let task = TaskView::of(event);
    let mark: TagView = seq!["p"@, key.text()];
    let h = hashtag_tags(relay.tags);
    let prio = relay.prio_tags(tags);
    let a = relay.assignee_tags(tags);
    lemma_kinds();
    public_key_round_trip(key);
    lemma_hashtag_tags(relay.tags);
    assert(tag_is(tags[at], "p"@));
    assert(has_kind(tags, "p"@));
    assert(a.len() == 0);
    assert(event.tags =~= h + tags + prio);
    assert(event.tags[h.len() + at] == mark);
    lemma_new_tags(event);
    let all = task.all_tags();
    assert(event.tags.contains(mark));
    assert(!tag_is(mark, "e"@));
    assert(all.contains(mark));
    assert forall|i: int| 0 <= i < all.len() implies participant(#[trigger] all[i]) is None
        || participant(all[i]) == Some(key) by {
        assert(all.contains(all[i]));
        let k = choose|k: int| 0 <= k < event.tags.len() && event.tags[k] == all[i];
        if k < h.len() {
            assert(event.tags[k] == h[k]);
            assert(!tag_is(h[k], "p"@));
        } else if k < h.len() + tags.len() {
            assert(event.tags[k] == tags[k - h.len()]);
            if tag_is(tags[k - h.len()], "p"@) {
                assert(tags[k - h.len()] == mark);
            }
        } else {
            assert(event.tags[k] == prio[k - h.len() - tags.len()]);
        }
    }
    let j = choose|i: int| 0 <= i < all.len() && all[i] == mark;
    assert(participant(all[j]) == Some(key));
    lemma_participants(all, key);
    assert(task.participants()[0] == key);
}

/// A priority that is set in the input is that of the new task, whatever is filtered by.
pub proof fn a_given_priority_is_taken(
    relay: RelayView,
    name: Seq<char>,
    tags: Seq<TagView>,
    clock: u64,
    value: Seq<char>,
)
    requires
        prio_in(tags) == Some(value),
    ensures
        TaskView::of(
            relay.event_from(relay.task_builder(name, tags), clock),
        ).priority_text() == Some(value),
{
    let event = relay.event_from(relay.task_builder(name, tags), clock);
    let h = hashtag_tags(relay.tags);
    lemma_hashtag_tags(relay.tags);
    let rest = relay.prio_tags(tags) + relay.assignee_tags(tags);
    assert(event.tags =~= h + (tags + rest));
    lemma_prio_behind(h, tags + rest);
    lemma_prio_before(tags, rest);
}

proof fn lemma_prio_before(a: Seq<TagView>, b: Seq<TagView>)
    requires
        prio_in(a) is Some,
    ensures
        prio_in(a + b) == prio_in(a),
    decreases a.len(),
{
    if a.len() > 0 {
        assert((a + b)[0] == a[0]);
        if !(tag_is(a[0], PRIO@) && a[0].len() > 1) {
            lemma_prio_before(a.drop_first(), b);
            assert((a + b).drop_first() =~= a.drop_first() + b);
        }
    }
}

/// A note that is entered away from any task starts an activity: it lies below the position, and
/// says what was entered.
pub proof fn a_note_elsewhere_starts_an_activity(relay: RelayView, note: Seq<char>, clock: u64)
    requires
        match relay.position(clock) {
            Some(id) => match task_of(relay.tasks, id) {
                Some(t) => !t.is_task(),
                None => true,
            },
            None => true,
        },
    ensures
        ({
            let event = relay.event_from(relay.note_builder(note, clock), clock);
            &&& event.kind == 1
            &&& event.content == extracted_name(trimmed(note), relay.users)
            &&& TaskView::of(event).parent() == relay.position(clock)
            &&& !TaskView::of(event).is_task()
        }),
{
    let own = extracted_tags(trimmed(note), relay.users);
    let h = hashtag_tags(relay.tags);
    let place = relay.position_tag(MARKER_PARENT@, clock);
    let event = relay.event_from(relay.note_builder(note, clock), clock);
    assert(event.tags =~= own + h + place);
    an_input_refers_to_no_event(trimmed(note), relay.users);
    lemma_hashtag_tags(relay.tags);
    lemma_no_refs(own);
    lemma_no_refs(h);
    lemma_refs_together(own, h);
    lemma_refs_together(own + h, place);
    match relay.position(clock) {
        Some(pos) => {
            assert(place =~= seq![id_tag(relay.sender.url, pos, MARKER_PARENT@)]);
            lemma_id_ref(relay.sender.url, pos, MARKER_PARENT@);
            lemma_marked_one(MARKER_PARENT@, pos, MARKER_PARENT@);
            assert(refs_in(event.tags) =~= seq![(MARKER_PARENT@, pos)]);
        },
        None => {
            assert(place =~= Seq::<TagView>::empty());
            assert(refs_in(place) =~= Seq::<(Seq<char>, EventId)>::empty());
            assert(refs_in(event.tags) =~= Seq::<(Seq<char>, EventId)>::empty());
        },
    }
}

/// A reference without a marker, or marked as a property, makes an event an update of the task; a
/// reference to a parent or to a dependency does not.
pub proof fn only_properties_are_updates(tag: TagView, id: EventId)
    requires
        event_ref(tag) matches Some(r) && r.id == id,
    ensures
        event_ref(tag).unwrap().marker is None ==> prop_target(tag) == Some(id),
        event_ref(tag).unwrap().marker == Some("property"@) ==> prop_target(tag) == Some(id),
        event_ref(tag).unwrap().marker == Some("parent"@) ==> prop_target(tag) is None,
        event_ref(tag).unwrap().marker == Some("depends"@) ==> prop_target(tag) is None,
{
    reveal_strlit("property");
    reveal_strlit("parent");
    reveal_strlit("depends");
    assert("property"@.len() == 8 && "parent"@.len() == 6 && "depends"@.len() == 7);
}

} // verus!
