//! What holds of searching for tasks and of matching them by name.

use crate::command::CommandView;
use crate::kinds::{extracted_name, TASK_KIND};
use crate::nostr::{event_id_of, BuilderView, EventId};
use crate::task::state::State;
use crate::task::TaskView;
use crate::tasks::context::{has_capital, mentions, searched};
use crate::tasks::filter::{any_hashtag_has, KeysView};
use crate::tasks::selection::{
    all_open, begun, direct, first_named, first_open_named, fuzzy, is_named, is_open_named,
    word_begins_with,
};
use crate::tasks::task_map::{
    ancestors, ancestors_within, has_task, ids_at, ids_unique, lemma_task_at, lemma_task_found,
    task_at, task_of, TasksView,
};
use crate::tasks::{lemma_prop_at_ids, now_of, FilterView, RelayView};
use crate::text::{byte_len, has_part, lower, lower_char, stands_at, trimmed};
use vstd::prelude::*;

verus! {

// ---------------------------------------------------------------------------
// Text in text

pub open spec fn is_capital(c: char) -> bool {
    'A' <= c && c <= 'Z'
}

/// Whether a character is the other one, or a capital letter and the other one its small form.
pub open spec fn is_or_becomes(c: char, small: char) -> bool {
    if is_capital(c) {
        small as int == c as int + 32
    } else {
        small == c
    }
}

/// Whether a text can be read at a place of another one: as it is written, or with the capital
/// letters there taken as small ones.
pub open spec fn reads_at(s: Seq<char>, text: Seq<char>, at: int, any_case: bool) -> bool {
    &&& 0 <= at
    &&& at + text.len() <= s.len()
    &&& forall|k: int|
        0 <= k < text.len() ==> if any_case {
            is_or_becomes(s[at + k], #[trigger] text[k])
        } else {
            s[at + k] == text[k]
        }
}

/// Whether two texts differ in nothing but the case of letters.
pub open spec fn equal_in_any_case(a: Seq<char>, b: Seq<char>) -> bool {
    &&& a.len() == b.len()
    &&& forall|k: int|
        0 <= k < a.len() ==> #[trigger] a[k] == b[k] || is_capital(a[k]) && is_or_becomes(
            a[k],
            b[k],
        ) || is_capital(b[k]) && is_or_becomes(b[k], a[k])
}

proof fn lemma_lower_char(c: char, small: char)
    ensures
        lower_char(c) == small <==> is_or_becomes(c, small),
        !is_capital(lower_char(c)),
{
}

pub proof fn lemma_reads_at(s: Seq<char>, text: Seq<char>, at: int, any_case: bool)
    ensures
        reads_at(s, text, at, any_case) == stands_at(
            if any_case {
                lower(s)
            } else {
                s
            },
            text,
            at,
        ),
{
    let t = if any_case {
        lower(s)
    } else {
        s
    };
    if 0 <= at && at + text.len() <= s.len() {
        let part = t.subrange(at, at + text.len());
        if reads_at(s, text, at, any_case) {
            assert forall|k: int| 0 <= k < text.len() implies part[k] == text[k] by {
                assert(part[k] == t[at + k]);
                lemma_lower_char(s[at + k], text[k]);
            }
            assert(part =~= text);
        }
        if part == text {
            assert forall|k: int| 0 <= k < text.len() implies if any_case {
                is_or_becomes(s[at + k], #[trigger] text[k])
            } else {
                s[at + k] == text[k]
            } by {
                assert(part[k] == t[at + k]);
                lemma_lower_char(s[at + k], text[k]);
            }
        }
    }
}

pub proof fn lemma_equal_in_any_case(a: Seq<char>, b: Seq<char>)
    ensures
        equal_in_any_case(a, b) <==> lower(a) == lower(b),
{
    if equal_in_any_case(a, b) {
        assert forall|k: int| 0 <= k < a.len() implies lower(a)[k] == lower(b)[k] by {
            let x = a[k];
            lemma_lower_char(a[k], b[k]);
            lemma_lower_char(b[k], a[k]);
            lemma_lower_char(a[k], lower_char(a[k]));
            lemma_lower_char(b[k], lower_char(b[k]));
        }
        assert(lower(a) =~= lower(b));
    }
    if lower(a) == lower(b) {
        assert(lower(a).len() == lower(b).len());
        assert forall|k: int| 0 <= k < a.len() implies #[trigger] a[k] == b[k] || is_capital(a[k])
            && is_or_becomes(a[k], b[k]) || is_capital(b[k]) && is_or_becomes(b[k], a[k]) by {
            assert(lower(a)[k] == lower(b)[k]);
            lemma_lower_char(a[k], lower_char(a[k]));
            lemma_lower_char(b[k], lower_char(b[k]));
            assert(lower_char(a[k]) == lower_char(b[k]));
            if is_capital(a[k]) && is_capital(b[k]) {
                assert(a[k] as int == b[k] as int);
            }
        }
    }
}

// ---------------------------------------------------------------------------
// Searching

pub open spec fn has_no_capital(text: Seq<char>) -> bool {
    forall|i: int| 0 <= i < text.len() ==> !is_capital(#[trigger] text[i])
}

/// Whether a search for the text is to find the task: the text is part of the title, where
/// capital letters count only if there is one in the text, or part of a hashtag.
pub open spec fn is_to_be_found(task: TaskView, text: Seq<char>) -> bool {
    ||| exists|at: int| #[trigger] reads_at(task.title(), text, at, has_no_capital(text))
    ||| exists|h: int, at: int|
        0 <= h < task.hashtags().len() && #[trigger] reads_at(task.hashtags()[h], text, at, false)
}

/// Searching is case-sensitive if and only if there is a capital letter in the text.
pub proof fn a_search_minds_the_case_of_capitals(task: TaskView, text: Seq<char>)
    ensures
        mentions(task, text) == is_to_be_found(task, text),
{
    let small = has_no_capital(text);
    assert(small == !has_capital(text)) by {
        if has_capital(text) {
            let i = choose|i: int| 0 <= i < text.len() && 'A' <= #[trigger] text[i] && text[i] <= 'Z';
            assert(is_capital(text[i]));
        }
        if !small {
            let i = choose|i: int| 0 <= i < text.len() && is_capital(#[trigger] text[i]);
            assert('A' <= text[i] && text[i] <= 'Z');
        }
    }
    let title = if small {
        lower(task.title())
    } else {
        task.title()
    };
    if has_part(title, text) {
        let at = choose|at: int| stands_at(title, text, at);
        lemma_reads_at(task.title(), text, at, small);
    }
    if exists|at: int| #[trigger] reads_at(task.title(), text, at, small) {
        let at = choose|at: int| #[trigger] reads_at(task.title(), text, at, small);
        lemma_reads_at(task.title(), text, at, small);
        assert(stands_at(title, text, at));
    }
    let tags = task.hashtags();
    if any_hashtag_has(tags, text) {
        let h = choose|h: int| 0 <= h < tags.len() && has_part(#[trigger] tags[h], text);
        let at = choose|at: int| stands_at(tags[h], text, at);
        lemma_reads_at(tags[h], text, at, false);
        assert(reads_at(task.hashtags()[h], text, at, false));
    }
    if exists|h: int, at: int|
        0 <= h < tags.len() && #[trigger] reads_at(task.hashtags()[h], text, at, false) {
        let (h, at) = choose|h: int, at: int|
            0 <= h < tags.len() && #[trigger] reads_at(task.hashtags()[h], text, at, false);
        lemma_reads_at(tags[h], text, at, false);
        assert(stands_at(tags[h], text, at));
        assert(has_part(tags[h], text));
    }
}

/// Every task is found by any part of its own title, as it is written and in small letters.
pub proof fn any_part_of_its_title_finds_a_task(task: TaskView, from: int, to: int)
    requires
        0 <= from <= to <= task.title().len(),
    ensures
        mentions(task, task.title().subrange(from, to)),
        mentions(task, lower(task.title().subrange(from, to))),
{
    let title = task.title();
    let text = title.subrange(from, to);
    a_search_minds_the_case_of_capitals(task, text);
    a_search_minds_the_case_of_capitals(task, lower(text));
    let small = has_no_capital(text);
    assert(reads_at(title, text, from, small)) by {
        assert forall|k: int| 0 <= k < text.len() implies if small {
            is_or_becomes(title[from + k], #[trigger] text[k])
        } else {
            title[from + k] == text[k]
        } by {
            assert(!small || !is_capital(text[k]));
        }
    }
    let l = lower(text);
    assert forall|i: int| 0 <= i < l.len() implies !is_capital(#[trigger] l[i]) by {
        lemma_lower_char(text[i], l[i]);
    }
    assert(reads_at(title, l, from, true)) by {
        assert forall|k: int| 0 <= k < l.len() implies is_or_becomes(
            title[from + k],
            #[trigger] l[k],
        ) by {
            assert(text[k] == title[from + k]);
            lemma_lower_char(text[k], l[k]);
        }
    }
    assert(has_no_capital(l));
    assert(reads_at(title, l, from, has_no_capital(l)));
}

/// A search gives the tasks that have the text in them, all of them and in order.
pub proof fn a_search_finds_all_that_have_the_text(tasks: TasksView, at: Seq<int>, text: Seq<char>)
    ensures
        searched(tasks, at, text) == ids_at(
            tasks,
            at.filter(|p: int| is_to_be_found(tasks[p], text)),
        ),
    decreases at.len(),
{
    reveal(Seq::filter);
    let pred = |p: int| is_to_be_found(tasks[p], text);
    if at.len() > 0 {
        a_search_finds_all_that_have_the_text(tasks, at.drop_last(), text);
        a_search_minds_the_case_of_capitals(tasks[at.last()], text);
        let before = at.drop_last().filter(pred);
        assert(ids_at(tasks, before.push(at.last())) =~= ids_at(tasks, before).push(
            tasks[at.last()].event.id,
        ));
    } else {
        assert(ids_at(tasks, at.filter(pred)) =~= Seq::<EventId>::empty());
    }
}

/// Searching goes to the one task that has the text in it, and puts several into view.
pub proof fn searching_goes_to_what_is_found(
    relay: RelayView,
    count: int,
    text: Seq<char>,
    clock: u64,
    keys: KeysView,
    time: Option<u64>,
)
    ensures
        ({
            let pos = relay.up(relay.position(clock), count as nat);
            let hits = relay.filtered(now_of(clock), keys, pos, false).filter(
                |p: int| is_to_be_found(relay.tasks[p], text),
            );
            let (after, reply) = relay.executed(
                CommandView::Search(count, text),
                clock,
                keys,
                time,
            );
            if hits.len() == 1 {
                after == (RelayView {
                    custom_time: None,
                    ..relay.moved_to(Some(relay.tasks[hits[0]].event.id), clock)
                })
            } else {
                &&& after.view == ids_at(relay.tasks, hits)
                &&& after.own_events() == relay.moved_to(pos, clock).own_events()
                &&& (reply == crate::tasks::execute::Reply::Nothing) == (hits.len() == 0)
            }
        }),
{
    reveal(RelayView::found);
    let pos = relay.above(count, clock);
    let at = relay.filtered(now_of(clock), keys, pos, false);
    a_search_finds_all_that_have_the_text(relay.tasks, at, text);
}

// ---------------------------------------------------------------------------
// Names

/// Whether a task is unfinished: it is neither done nor closed.
pub open spec fn is_unfinished(task: TaskView, now: u64) -> bool {
    task.pure_state(now) != State::Done && task.pure_state(now) != State::Closed
}

/// Whether the task at a place in the chain is the parent of the one before.
pub open spec fn follows(tasks: TasksView, chain: Seq<int>, i: int) -> bool {
    tasks[chain[i - 1]].parent() == Some(tasks[chain[i]].event.id)
}

/// Whether each of the places is that of the parent of the task at the place before.
pub open spec fn is_chain(tasks: TasksView, chain: Seq<int>) -> bool {
    &&& forall|i: int| 0 <= i < chain.len() ==> 0 <= #[trigger] chain[i] < tasks.len()
    &&& forall|i: int| 0 < i < chain.len() ==> #[trigger] follows(tasks, chain, i)
}

/// Whether a task and all that is above it is unfinished.
pub open spec fn is_unfinished_up(tasks: TasksView, at: int, now: u64) -> bool {
    forall|chain: Seq<int>, k: int|
        #![trigger is_chain(tasks, chain), chain[k]]
        is_chain(tasks, chain) && 0 <= k < chain.len() <= tasks.len() && chain[0] == at
            ==> is_unfinished(tasks[chain[k]], now)
}

pub proof fn lemma_place(tasks: TasksView, at: int)
    requires
        ids_unique(tasks),
        0 <= at < tasks.len(),
    ensures
        task_at(tasks, tasks[at].event.id) == at,
        has_task(tasks, tasks[at].event.id),
{
    assert forall|k: int| 0 <= k < at implies (#[trigger] tasks[k]).event.id
        != tasks[at].event.id by {}
    lemma_task_at(tasks, tasks[at].event.id, at);
}

proof fn lemma_chain_is_above(tasks: TasksView, chain: Seq<int>, fuel: nat)
    requires
        ids_unique(tasks),
        is_chain(tasks, chain),
        0 < chain.len() <= fuel,
    ensures
        ({
            let above = ancestors_within(tasks, Some(tasks[chain[0]].event.id), fuel);
            chain.len() <= above.len() && forall|k: int|
                0 <= k < chain.len() ==> #[trigger] above[k] == chain[k]
        }),
    decreases chain.len(),
{
    lemma_place(tasks, chain[0]);
    let above = ancestors_within(tasks, Some(tasks[chain[0]].event.id), fuel);
    let further = ancestors_within(tasks, tasks[chain[0]].parent(), (fuel - 1) as nat);
    assert(above =~= seq![chain[0]] + further);
    if chain.len() > 1 {
        let rest = chain.drop_first();
        assert(rest[0] == chain[1]);
        assert(follows(tasks, chain, 1));
        assert forall|i: int| 0 < i < rest.len() implies #[trigger] follows(tasks, rest, i) by {
            assert(follows(tasks, chain, i + 1));
            assert(chain[i + 1] == rest[i]);
            assert(chain[i] == rest[i - 1]);
        }
        assert forall|i: int| 0 <= i < rest.len() implies 0 <= #[trigger] rest[i] < tasks.len() by {
            assert(chain[i + 1] == rest[i]);
        }
        lemma_chain_is_above(tasks, rest, (fuel - 1) as nat);
        assert forall|k: int| 0 <= k < chain.len() implies #[trigger] above[k] == chain[k] by {
            if k > 0 {
                assert(further[k - 1] == rest[k - 1]);
            }
        }
    }
}

proof fn lemma_above_is_a_chain(tasks: TasksView, id: Option<EventId>, fuel: nat)
    ensures
        ({
            let above = ancestors_within(tasks, id, fuel);
            &&& above.len() <= fuel
            &&& is_chain(tasks, above)
            &&& above.len() > 0 ==> id == Some(tasks[above[0]].event.id)
        }),
    decreases fuel,
{
    match id {
        Some(i) => {
            if fuel > 0 && has_task(tasks, i) {
                lemma_task_found(tasks, i);
                let at = task_at(tasks, i);
                let further = ancestors_within(tasks, tasks[at].parent(), (fuel - 1) as nat);
                lemma_above_is_a_chain(tasks, tasks[at].parent(), (fuel - 1) as nat);
                let above = ancestors_within(tasks, id, fuel);
                assert(above =~= seq![at] + further);
                assert forall|i: int| 0 <= i < above.len() implies 0 <= #[trigger] above[i]
                    < tasks.len() by {
                    if i > 0 {
                        assert(above[i] == further[i - 1]);
                    }
                }
                assert forall|i: int| 0 < i < above.len() implies #[trigger] follows(
                    tasks,
                    above,
                    i,
                ) by {
                    assert(above[i] == further[i - 1]);
                    if i > 1 {
                        assert(above[i - 1] == further[i - 2]);
                        assert(follows(tasks, further, i - 1));
                    }
                }
            }
        },
        None => {},
    }
}

/// What lies above a task are its known parents, one after another, up to the last.
pub proof fn above_a_task_are_its_parents(tasks: TasksView, at: int, chain: Seq<int>)
    requires
        ids_unique(tasks),
        0 <= at < tasks.len(),
    ensures
        ({
            let above = ancestors(tasks, Some(tasks[at].event.id));
            &&& is_chain(tasks, above)
            &&& above.len() > 0 && above[0] == at
            &&& is_chain(tasks, chain) && 0 < chain.len() <= tasks.len() && chain[0] == at
                ==> chain.len() <= above.len() && chain == above.take(chain.len() as int)
        }),
{
    let above = ancestors(tasks, Some(tasks[at].event.id));
    lemma_place(tasks, at);
    lemma_above_is_a_chain(tasks, Some(tasks[at].event.id), tasks.len());
    assert(above[0] == at);
    if is_chain(tasks, chain) && 0 < chain.len() <= tasks.len() && chain[0] == at {
        lemma_chain_is_above(tasks, chain, tasks.len());
        assert(chain =~= above.take(chain.len() as int));
    }
}

proof fn lemma_open_up(tasks: TasksView, at: int, now: u64)
    requires
        ids_unique(tasks),
        0 <= at < tasks.len(),
    ensures
        all_open(tasks, ancestors(tasks, Some(tasks[at].event.id)), now) == is_unfinished_up(
            tasks,
            at,
            now,
        ),
{
    let above = ancestors(tasks, Some(tasks[at].event.id));
    above_a_task_are_its_parents(tasks, at, above);
    lemma_above_is_a_chain(tasks, Some(tasks[at].event.id), tasks.len());
    if all_open(tasks, above, now) {
        assert forall|chain: Seq<int>, k: int|
            #![trigger is_chain(tasks, chain), chain[k]]
            is_chain(tasks, chain) && 0 <= k < chain.len() <= tasks.len() && chain[0]
                == at implies is_unfinished(tasks[chain[k]], now) by {
            lemma_chain_is_above(tasks, chain, tasks.len());
            assert(above[k] == chain[k]);
            assert(tasks[above[k]].pure_state(now).open());
        }
    }
    if is_unfinished_up(tasks, at, now) {
        assert forall|i: int| 0 <= i < above.len() implies tasks[#[trigger] above[i]].pure_state(
            now,
        ).open() by {
            assert(is_chain(tasks, above));
            assert(is_unfinished(tasks[above[i]], now));
        }
    }
}

/// Whether a task is called by the text, in any case.
pub open spec fn is_called(task: TaskView, text: Seq<char>) -> bool {
    equal_in_any_case(task.filter_title(), text)
}

/// Whether a task is called by the text and is unfinished with all that is above it.
pub open spec fn is_open_and_called(tasks: TasksView, at: int, text: Seq<char>, now: u64) -> bool {
    is_called(tasks[at], text) && is_unfinished_up(tasks, at, now)
}

proof fn lemma_first_named(tasks: TasksView, at: Seq<int>, text: Seq<char>)
    ensures
        match first_named(tasks, at, text) {
            Some(p) => exists|k: int|
                0 <= k < at.len() && #[trigger] at[k] == p && is_called(tasks[p], text) && forall|
                    j: int,
                |
                    0 <= j < k ==> !is_called(tasks[#[trigger] at[j]], text),
            None => forall|k: int| 0 <= k < at.len() ==> !is_called(tasks[#[trigger] at[k]], text),
        },
    decreases at.len(),
{
    if at.len() > 0 {
        lemma_equal_in_any_case(tasks[at[0]].filter_title(), text);
        let rest = at.drop_first();
        if is_named(tasks[at[0]], text) {
            assert(at[0] == at[0]);
        } else {
            lemma_first_named(tasks, rest, text);
            match first_named(tasks, rest, text) {
                Some(p) => {
                    let k = choose|k: int|
                        0 <= k < rest.len() && #[trigger] rest[k] == p && is_called(tasks[p], text)
                            && forall|j: int|
                            0 <= j < k ==> !is_called(tasks[#[trigger] rest[j]], text);
                    assert(at[k + 1] == p);
                    assert forall|j: int| 0 <= j < k + 1 implies !is_called(
                        tasks[#[trigger] at[j]],
                        text,
                    ) by {
                        if j > 0 {
                            assert(at[j] == rest[j - 1]);
                        }
                    }
                },
                None => {
                    assert forall|k: int| 0 <= k < at.len() implies !is_called(
                        tasks[#[trigger] at[k]],
                        text,
                    ) by {
                        if k > 0 {
                            assert(at[k] == rest[k - 1]);
                        }
                    }
                },
            }
        }
    }
}

proof fn lemma_first_open_named(tasks: TasksView, from: int, text: Seq<char>, now: u64)
    requires
        ids_unique(tasks),
        0 <= from <= tasks.len(),
    ensures
        match first_open_named(tasks, from, text, now) {
            Some(p) => from <= p < tasks.len() && is_open_and_called(tasks, p, text, now) && forall|
                j: int,
            |
                from <= j < p ==> !#[trigger] is_open_and_called(tasks, j, text, now),
            None => forall|j: int|
                from <= j < tasks.len() ==> !#[trigger] is_open_and_called(tasks, j, text, now),
        },
    decreases tasks.len() - from,
{
    if from < tasks.len() {
        lemma_equal_in_any_case(tasks[from].filter_title(), text);
        lemma_open_up(tasks, from, now);
        assert(is_open_named(tasks, from, text, now) == is_open_and_called(tasks, from, text, now));
        lemma_first_open_named(tasks, from + 1, text, now);
    }
}

proof fn lemma_begun(tasks: TasksView, at: Seq<int>, text: Seq<char>)
    ensures
        begun(tasks, at, text) == ids_at(
            tasks,
            at.filter(|p: int| reads_at(tasks[p].filter_title(), text, 0, false)),
        ),
    decreases at.len(),
{
    reveal(Seq::filter);
    let pred = |p: int| reads_at(tasks[p].filter_title(), text, 0, false);
    if at.len() > 0 {
        lemma_begun(tasks, at.drop_last(), text);
        lemma_reads_at(tasks[at.last()].filter_title(), text, 0, false);
        let before = at.drop_last().filter(pred);
        assert(ids_at(tasks, before.push(at.last())) =~= ids_at(tasks, before).push(
            tasks[at.last()].event.id,
        ));
    } else {
        assert(ids_at(tasks, at.filter(pred)) =~= Seq::<EventId>::empty());
    }
}

proof fn lemma_fuzzy(tasks: TasksView, at: Seq<int>, text: Seq<char>)
    ensures
        fuzzy(tasks, at, text) == ids_at(
            tasks,
            at.filter(
                |p: int|
                    !reads_at(tasks[p].filter_title(), text, 0, false) && word_begins_with(
                        tasks[p],
                        text,
                    ),
            ),
        ),
    decreases at.len(),
{
    reveal(Seq::filter);
    let pred = |p: int|
        !reads_at(tasks[p].filter_title(), text, 0, false) && word_begins_with(tasks[p], text);
    if at.len() > 0 {
        lemma_fuzzy(tasks, at.drop_last(), text);
        lemma_reads_at(tasks[at.last()].filter_title(), text, 0, false);
        let before = at.drop_last().filter(pred);
        assert(ids_at(tasks, before.push(at.last())) =~= ids_at(tasks, before).push(
            tasks[at.last()].event.id,
        ));
    } else {
        assert(ids_at(tasks, at.filter(pred)) =~= Seq::<EventId>::empty());
    }
}

/// The first task in the list that is called by a text is meant by it.
pub proof fn a_listed_task_of_the_name_is_meant(
    relay: RelayView,
    now: u64,
    at: Seq<int>,
    position: Option<EventId>,
    text: Seq<char>,
    k: int,
)
    requires
        event_id_of(text) is None,
        0 <= k < at.len(),
        is_called(relay.tasks[at[k]], text),
        forall|j: int| 0 <= j < k ==> !is_called(relay.tasks[#[trigger] at[j]], text),
    ensures
        relay.matching_at(now, at, position, text) == seq![relay.tasks[at[k]].event.id],
{
    lemma_first_named(relay.tasks, at, text);
}

/// A task that is not in the list is meant by its name only if it is unfinished with all that is
/// above it; then the first such task is.
pub proof fn an_unfinished_task_of_the_name_is_meant(
    relay: RelayView,
    now: u64,
    at: Seq<int>,
    position: Option<EventId>,
    text: Seq<char>,
    i: int,
)
    requires
        ids_unique(relay.tasks),
        event_id_of(text) is None,
        forall|k: int| 0 <= k < at.len() ==> !is_called(relay.tasks[#[trigger] at[k]], text),
        0 <= i < relay.tasks.len(),
        is_open_and_called(relay.tasks, i, text, now),
        forall|j: int|
            0 <= j < i ==> !#[trigger] is_open_and_called(relay.tasks, j, text, now),
    ensures
        relay.matching_at(now, at, position, text) == seq![relay.tasks[i].event.id],
{
    lemma_first_named(relay.tasks, at, text);
    match first_named(relay.tasks, at, text) {
        Some(p) => {
            let k = choose|k: int|
                0 <= k < at.len() && #[trigger] at[k] == p && is_called(relay.tasks[p], text);
            assert(!is_called(relay.tasks[at[k]], text));
        },
        None => {},
    }
    lemma_first_open_named(relay.tasks, 0, text, now);
}

/// The places in the list whose task has a name that begins with the text as it is written; where
/// there are none, those where a word of the name begins with it.
pub open spec fn places_begun(tasks: TasksView, at: Seq<int>, text: Seq<char>) -> Seq<int> {
    let begun = at.filter(|p: int| reads_at(tasks[p].filter_title(), text, 0, false));
    if begun.len() > 0 {
        begun
    } else {
        at.filter(
            |p: int|
                !reads_at(tasks[p].filter_title(), text, 0, false) && word_begins_with(
                    tasks[p],
                    text,
                ),
        )
    }
}

proof fn lemma_direct(tasks: TasksView, ids: Seq<EventId>, parent: Option<EventId>)
    ensures
        direct(tasks, ids, parent) == ids.filter(
            |id: EventId| task_of(tasks, id) matches Some(t) && t.parent() == parent,
        ),
    decreases ids.len(),
{
    reveal(Seq::filter);
    if ids.len() > 0 {
        lemma_direct(tasks, ids.drop_last(), parent);
    } else {
        assert(ids =~= Seq::<EventId>::empty());
    }
}

/// Where no task is called by a text, it means those in the list that have a name or a word
/// beginning with it. If just one of them is a child of the position, it means that one.
pub proof fn the_beginning_of_a_name_is_enough(
    relay: RelayView,
    now: u64,
    at: Seq<int>,
    position: Option<EventId>,
    text: Seq<char>,
)
    requires
        ids_unique(relay.tasks),
        event_id_of(text) is None,
        forall|k: int| 0 <= k < at.len() ==> !is_called(relay.tasks[#[trigger] at[k]], text),
        forall|i: int|
            0 <= i < relay.tasks.len() ==> !#[trigger] is_open_and_called(
                relay.tasks,
                i,
                text,
                now,
            ),
    ensures
        ({
            let ids = ids_at(relay.tasks, places_begun(relay.tasks, at, text));
            let below = ids.filter(
                |id: EventId| task_of(relay.tasks, id) matches Some(t) && t.parent() == position,
            );
            relay.matching_at(now, at, position, text) == if below.len() == 1 {
                below
            } else {
                ids
            }
        }),
{
    lemma_first_named(relay.tasks, at, text);
    match first_named(relay.tasks, at, text) {
        Some(p) => {
            let k = choose|k: int|
                0 <= k < at.len() && #[trigger] at[k] == p && is_called(relay.tasks[p], text);
            assert(!is_called(relay.tasks[at[k]], text));
        },
        None => {},
    }
    lemma_first_open_named(relay.tasks, 0, text, now);
    lemma_begun(relay.tasks, at, text);
    lemma_fuzzy(relay.tasks, at, text);
    lemma_direct(
        relay.tasks,
        ids_at(relay.tasks, places_begun(relay.tasks, at, text)),
        position,
    );
}

/// An id means the task of that id, known or not.
pub proof fn an_id_means_its_task(
    relay: RelayView,
    now: u64,
    at: Seq<int>,
    position: Option<EventId>,
    text: Seq<char>,
)
    ensures
        event_id_of(text) matches Some(id) ==> relay.matching_at(now, at, position, text) == seq![
            id,
        ],
{
}

// ---------------------------------------------------------------------------
// Entering names

proof fn lemma_event_kept(relay: RelayView, builder: BuilderView, clock: u64, i: int)
    requires
        0 <= i < relay.tasks.len(),
    ensures
        relay.submitted(builder, clock).tasks.len() >= relay.tasks.len(),
        relay.submitted(builder, clock).tasks[i].event == relay.tasks[i].event,
{
    let event = relay.event_from(builder, clock);
    lemma_prop_at_ids(relay.tasks, event.tags, event);
}

/// A text that means no task makes one below the position, unless it is too short or no name is
/// left of it. It becomes the last of the tasks, and all others stay.
pub proof fn a_new_name_makes_a_task(relay: RelayView, text: Seq<char>, clock: u64, keys: KeysView)
    requires
        relay.matching(now_of(clock), keys, relay.position(clock), text).len() == 0,
        byte_len(text) >= 3,
        extracted_name(trimmed(text), relay.users).len() > 0,
        relay.new_task_id(text, relay.position_tags(clock), clock) matches Some(id) && !has_task(
            relay.tasks,
            id,
        ),
    ensures
        ({
            let after = relay.executed(CommandView::Match(text), clock, keys, None).0;
            let made = after.tasks.last();
            &&& after.tasks.len() == relay.tasks.len() + 1
            &&& made.event.kind == TASK_KIND
            &&& made.event.content == extracted_name(trimmed(text), relay.users)
            &&& made.event.pubkey == relay.sender.key
            &&& forall|i: int|
                0 <= i < relay.tasks.len() ==> (#[trigger] after.tasks[i]).event
                    == relay.tasks[i].event
            &&& after.history == relay.history
            &&& after == (RelayView {
                custom_time: None,
                ..(RelayView { view: Seq::empty(), ..relay }).task_made(
                    text,
                    relay.position_tags_for(relay.position(clock), now_of(clock)),
                    true,
                    clock,
                )
            })
        }),
{
    reveal(RelayView::matched);
    let this = RelayView { view: Seq::empty(), ..relay };
    let tags = relay.position_tags(clock);
    let builder = this.new_task_builder(text, tags).unwrap();
    assert(builder.content == extracted_name(trimmed(text), relay.users));
    let event = this.event_from(builder, clock);
    let made = this.submitted(builder, clock);
    assert(made.tasks == relay.tasks.push(TaskView::of(event)));
    match this.state {
        FilterView::State(s) => {
            let state = RelayView::state_for(s);
            let change = made.state_builder(event.id, s, state);
            let update = made.event_from(change, clock);
            lemma_prop_at_ids(made.tasks, update.tags, update);
            assert forall|i: int| 0 <= i < made.tasks.len() implies made.submitted(
                change,
                clock,
            ).tasks[i].event == made.tasks[i].event by {
                lemma_event_kept(made, change, clock, i);
            }
        },
        _ => {},
    }
}

/// The name of a task that is finished does not bring it back: where no listed task begins with
/// it, a new task of that name is made.
pub proof fn a_finished_task_is_not_entered_by_its_name(
    relay: RelayView,
    text: Seq<char>,
    clock: u64,
    keys: KeysView,
)
    requires
        ids_unique(relay.tasks),
        event_id_of(text) is None,
        byte_len(text) >= 3,
        extracted_name(trimmed(text), relay.users).len() > 0,
        relay.new_task_id(text, relay.position_tags(clock), clock) matches Some(id) && !has_task(
            relay.tasks,
            id,
        ),
        forall|i: int|
            0 <= i < relay.tasks.len() && is_called(#[trigger] relay.tasks[i], text) ==> {
                ||| relay.tasks[i].pure_state(now_of(clock)) == State::Done
                ||| relay.tasks[i].pure_state(now_of(clock)) == State::Closed
            },
        ({
            let at = relay.filtered(now_of(clock), keys, relay.position(clock), false);
            &&& forall|k: int|
                0 <= k < at.len() ==> !is_called(relay.tasks[#[trigger] at[k]], text)
            &&& places_begun(relay.tasks, at, text).len() == 0
        }),
    ensures
        ({
            let after = relay.executed(CommandView::Match(text), clock, keys, None).0;
            &&& after.tasks.len() == relay.tasks.len() + 1
            &&& after.tasks.last().event.content == extracted_name(trimmed(text), relay.users)
            &&& after.history == relay.history
        }),
{
    let now = now_of(clock);
    let pos = relay.position(clock);
    let at = relay.filtered(now, keys, pos, false);
    assert forall|i: int| 0 <= i < relay.tasks.len() implies !#[trigger] is_open_and_called(
        relay.tasks,
        i,
        text,
        now,
    ) by {
        if is_called(relay.tasks[i], text) {
            let chain = seq![i];
            assert(is_chain(relay.tasks, chain));
            assert(chain[0] == i);
            assert(!is_unfinished(relay.tasks[chain[0]], now));
        }
    }
    the_beginning_of_a_name_is_enough(relay, now, at, pos, text);
    let ids = ids_at(relay.tasks, places_begun(relay.tasks, at, text));
    assert(ids.len() == 0);
    reveal(Seq::filter);
    a_new_name_makes_a_task(relay, text, clock, keys);
}

/// A text that means one task makes it the active one and makes no task; one that means several
/// puts them into view.
pub proof fn a_known_name_makes_no_task(
    relay: RelayView,
    text: Seq<char>,
    clock: u64,
    keys: KeysView,
)
    ensures
        ({
            let ids = relay.matching(now_of(clock), keys, relay.position(clock), text);
            let after = relay.executed(CommandView::Match(text), clock, keys, None).0;
            &&& ids.len() > 0 ==> after.tasks == relay.tasks
            &&& ids.len() == 1 ==> after == (RelayView {
                custom_time: None,
                ..relay.moved_to(Some(ids[0]), clock)
            })
            &&& ids.len() > 1 ==> after.view == ids && after.own_events() == relay.moved_to(
                relay.position(clock),
                clock,
            ).own_events()
        }),
{
    reveal(RelayView::matched);
}

} // verus!
