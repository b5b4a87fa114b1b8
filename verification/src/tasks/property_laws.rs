//! What holds of the properties of tasks, as they are shown.

use crate::kinds::MARKER_DEPENDS;
use crate::nostr::{lemma_id_text, EventId};
use crate::task::state::State;
use crate::paint::{painted, Paint};
use crate::task::{marked, notes_in, reversed, TaskView};
use crate::tasks::making_laws::decimal_round_trip;
use crate::tasks::nostr_users::username;
use crate::tasks::property::{
    done_count, duration_text, first_open, first_priority, joined_up, path_parts, titles_at,
    unclosed_count,
};
use crate::tasks::task_map::{
    ancestors, ancestors_within, children, has_task, lemma_task_found, task_at, task_of, TasksView,
};
use crate::tasks::{now_of, RelayView};
use crate::text::{
    all_digits, cut, decimal, is_digit, joined, padded, replaced_from, stands_at, trimmed,
};
use crate::time::{stamp_text, LOCAL_FORMAT};
use vstd::prelude::*;

verus! {

// ---------------------------------------------------------------------------
// Durations

/// Up to a place before which the part does not stand, nothing is replaced.
proof fn lemma_kept_until(
    s: Seq<char>,
    part: Seq<char>,
    with: Seq<char>,
    from: int,
    to: int,
)
    requires
        part.len() > 0,
        0 <= from <= to <= s.len(),
        forall|i: int| from <= i < to ==> !#[trigger] stands_at(s, part, i),
    ensures
        replaced_from(s, part, with, from) == s.subrange(from, to) + replaced_from(
            s,
            part,
            with,
            to,
        ),
    decreases to - from,
{
    if from < to {
        lemma_kept_until(s, part, with, from + 1, to);
        assert(!stands_at(s, part, from));
        assert(s.subrange(from, to) =~= seq![s[from]] + s.subrange(from + 1, to));
        assert(replaced_from(s, part, with, from) =~= s.subrange(from, to) + replaced_from(
            s,
            part,
            with,
            to,
        ));
    } else {
        assert(s.subrange(from, to) + replaced_from(s, part, with, to) =~= replaced_from(
            s,
            part,
            with,
            to,
        ));
    }
}

proof fn lemma_kept(s: Seq<char>, part: Seq<char>, with: Seq<char>, from: int)
    requires
        part.len() > 0,
        0 <= from <= s.len(),
        forall|i: int| from <= i ==> !#[trigger] stands_at(s, part, i),
    ensures
        replaced_from(s, part, with, from) == s.skip(from),
{
    lemma_kept_until(s, part, with, from, s.len() as int);
    assert(s.subrange(from, s.len() as int) =~= s.skip(from));
    assert(replaced_from(s, part, with, s.len() as int) =~= Seq::<char>::empty());
    assert(s.skip(from) + Seq::<char>::empty() =~= s.skip(from));
}

proof fn lemma_first_char(s: Seq<char>, part: Seq<char>, at: int)
    requires
        part.len() > 0,
        stands_at(s, part, at),
    ensures
        forall|k: int| 0 <= k < part.len() ==> s[at + k] == #[trigger] part[k],
{
    assert forall|k: int| 0 <= k < part.len() implies s[at + k] == #[trigger] part[k] by {
        assert(s.subrange(at, at + part.len())[k] == s[at + k]);
    }
}

/// A number that is filled up with zeros is made of digits.
proof fn lemma_padded_digits(n: nat)
    ensures
        all_digits(padded(decimal(n), '0', 2)),
{
    decimal_round_trip(n);
    let p = padded(decimal(n), '0', 2);
    let more = p.len() - decimal(n).len();
    assert forall|i: int| 0 <= i < p.len() implies is_digit(#[trigger] p[i]) by {
        if i >= more {
            assert(p[i] == decimal(n)[i - more]);
        }
    }
}

/// The time tracked by all is shown as hours and minutes, two digits each, from a minute on.
pub proof fn a_long_time_is_shown_in_hours_and_minutes(secs: u64)
    ensures
        duration_text("HH:MM"@, secs) == if secs < 60 {
            Seq::<char>::empty()
        } else {
            padded(decimal((secs / 3600) as nat), '0', 2) + seq![':'] + padded(
                decimal((secs / 60 % 60) as nat),
                '0',
                2,
            )
        },
{
    reveal_strlit("HH:MM");
    reveal_strlit("MMM");
    reveal_strlit("HH");
    reveal_strlit("MM");
    let mins: nat = (secs / 60) as nat;
    if mins > 0 {
        let format = "HH:MM"@;
        let mmm = padded(decimal(mins), ' ', 3);
        let hh = padded(decimal(mins / 60), '0', 2);
        let mm = padded(decimal(mins % 60), '0', 2);
        let a = replaced_from(format, "MMM"@, mmm, 0);
        assert forall|i: int| 0 <= i implies !#[trigger] stands_at(format, "MMM"@, i) by {
            if stands_at(format, "MMM"@, i) {
                lemma_first_char(format, "MMM"@, i);
                assert("MMM"@[0] == 'M');
                assert(format[i] == 'M');
            }
        }
        lemma_kept(format, "MMM"@, mmm, 0);
        assert(format.skip(0) =~= format);
        assert(a == format);
        let b = replaced_from(a, "HH"@, hh, 0);
        assert(stands_at(a, "HH"@, 0)) by {
            assert(a.subrange(0, 2) =~= "HH"@);
        }
        assert forall|i: int| 2 <= i implies !#[trigger] stands_at(a, "HH"@, i) by {
            if stands_at(a, "HH"@, i) {
                lemma_first_char(a, "HH"@, i);
                assert("HH"@[0] == 'H');
                assert(a[i] == 'H');
            }
        }
        lemma_kept(a, "HH"@, hh, 2);
        assert(b == hh + a.skip(2));
        lemma_padded_digits(mins / 60);
        let k = hh.len() as int;
        assert(b[k] == ':' && b[k + 1] == 'M' && b[k + 2] == 'M' && b.len() == k + 3);
        assert forall|i: int| 0 <= i < k + 1 implies !#[trigger] stands_at(b, "MM"@, i) by {
            if stands_at(b, "MM"@, i) {
                lemma_first_char(b, "MM"@, i);
                assert("MM"@[0] == 'M');
                assert(b[i] == 'M');
                if i < k {
                    assert(is_digit(hh[i]));
                    assert(b[i] == hh[i]);
                }
            }
        }
        lemma_kept_until(b, "MM"@, mm, 0, k + 1);
        assert(stands_at(b, "MM"@, k + 1)) by {
            assert(b.subrange(k + 1, k + 3) =~= "MM"@);
        }
        assert(replaced_from(b, "MM"@, mm, k + 3) =~= Seq::<char>::empty());
        assert(b.subrange(0, k + 1) =~= hh + seq![':']);
        let c = replaced_from(b, "MM"@, mm, 0);
        assert(c =~= hh + seq![':'] + mm);
        assert(mins / 60 == (secs / 3600) as nat);
        assert(duration_text("HH:MM"@, secs) == c);
    }
}

/// The time tracked by oneself is shown in minutes, three characters at least, from a minute on.
pub proof fn a_short_time_is_shown_in_minutes(secs: u64)
    ensures
        duration_text("MMMm"@, secs) == if secs < 60 {
            Seq::<char>::empty()
        } else {
            padded(decimal((secs / 60) as nat), ' ', 3) + seq!['m']
        },
{
    reveal_strlit("MMMm");
    reveal_strlit("MMM");
    reveal_strlit("HH");
    reveal_strlit("MM");
    let mins: nat = (secs / 60) as nat;
    if mins > 0 {
        let format = "MMMm"@;
        let mmm = padded(decimal(mins), ' ', 3);
        let hh = padded(decimal(mins / 60), '0', 2);
        let mm = padded(decimal(mins % 60), '0', 2);
        assert(stands_at(format, "MMM"@, 0)) by {
            assert(format.subrange(0, 3) =~= "MMM"@);
        }
        let a = replaced_from(format, "MMM"@, mmm, 0);
        assert(!stands_at(format, "MMM"@, 3));
        lemma_kept(format, "MMM"@, mmm, 3);
        assert(a =~= mmm + seq!['m']);
        decimal_round_trip(mins);
        let more = mmm.len() - decimal(mins).len();
        assert forall|i: int| 0 <= i < a.len() implies #[trigger] a[i] == ' ' || is_digit(a[i])
            || a[i] == 'm' by {
            if i < mmm.len() && i >= more {
                assert(a[i] == decimal(mins)[i - more]);
            }
        }
        assert forall|i: int| 0 <= i implies !#[trigger] stands_at(a, "HH"@, i) by {
            if stands_at(a, "HH"@, i) {
                lemma_first_char(a, "HH"@, i);
                assert("HH"@[0] == 'H');
                assert(a[i] == 'H');
            }
        }
        lemma_kept(a, "HH"@, hh, 0);
        assert(a.skip(0) =~= a);
        assert forall|i: int| 0 <= i implies !#[trigger] stands_at(a, "MM"@, i) by {
            if stands_at(a, "MM"@, i) {
                lemma_first_char(a, "MM"@, i);
                assert("MM"@[0] == 'M');
                assert(a[i] == 'M');
            }
        }
        lemma_kept(a, "MM"@, mm, 0);
    }
}

// ---------------------------------------------------------------------------
// Paths

proof fn lemma_joined_below(below: Seq<char>, parts: Seq<Seq<char>>, sep: Seq<char>)
    requires
        parts.len() > 0,
    ensures
        joined_up(seq![below] + parts, sep) == joined_up(parts, sep) + sep + below,
    decreases parts.len(),
{
    let all = seq![below] + parts;
    assert(all.last() == parts.last());
    assert(all.drop_last() =~= seq![below] + parts.drop_last());
    if parts.len() == 1 {
        let one = seq![below];
        assert(all.drop_last() =~= one);
        assert(joined_up(one, sep) == below);
        assert(joined_up(parts, sep) == parts[0]);
        assert(joined_up(all, sep) == all.last() + sep + joined_up(all.drop_last(), sep));
    } else {
        lemma_joined_below(below, parts.drop_last(), sep);
        let rest = joined_up(parts.drop_last(), sep);
        assert(parts.last() + sep + (rest + sep + below) =~= (parts.last() + sep + rest) + sep
            + below);
    }
}

/// Where the way up ends before the fuel does, a little less of it is enough.
proof fn lemma_fuel(tasks: TasksView, id: Option<EventId>, fuel: nat)
    requires
        ancestors_within(tasks, id, fuel).len() < fuel,
    ensures
        ancestors_within(tasks, id, (fuel - 1) as nat) == ancestors_within(tasks, id, fuel),
    decreases fuel,
{
    match id {
        Some(i) => {
            if has_task(tasks, i) {
                let parent = tasks[task_at(tasks, i)].parent();
                if fuel > 1 {
                    lemma_fuel(tasks, parent, (fuel - 1) as nat);
                } else {
                    assert(ancestors_within(tasks, id, fuel).len() >= 1);
                }
            }
        },
        None => {},
    }
}

proof fn lemma_title(task: TaskView)
    ensures
        task.title().len() > 0,
{
    if trimmed(task.event.content).len() == 0 {
        lemma_id_text(task.event.id.hi, task.event.id.lo);
    }
}

/// The path of a task is that of its parent with the title behind it: the titles from the top
/// down. Where the parent is unknown its id stands for it. (No task lies above itself.)
pub proof fn a_path_leads_from_the_top_down(relay: RelayView, id: EventId, sep: Seq<char>)
    requires
        has_task(relay.tasks, id),
        ancestors(relay.tasks, relay.parent_of(Some(id))).len() < relay.tasks.len(),
    ensures
        ({
            let title = relay.task_title(id);
            relay.path_by(Some(id), sep) == match relay.parent_of(Some(id)) {
                None => title,
                Some(parent) => relay.path_by(Some(parent), sep) + sep + title,
            }
        }),
        forall|other: EventId|
            !has_task(relay.tasks, other) ==> #[trigger] relay.path_by(Some(other), sep)
                == other.text(),
{
    let tasks = relay.tasks;
    lemma_task_found(tasks, id);
    let at = task_at(tasks, id);
    let task = tasks[at];
    let above = ancestors(tasks, task.parent());
    let fuel = tasks.len();
    lemma_fuel(tasks, task.parent(), fuel);
    let walk = ancestors(tasks, Some(id));
    assert(walk =~= seq![at] + above);
    let parts = path_parts(tasks, walk, true);
    lemma_title(task);
    assert(titles_at(tasks, walk) =~= seq![task.title()] + titles_at(tasks, above));
    match task.parent() {
        None => {
            assert(above.len() == 0);
            assert(parts =~= seq![task.title()]);
        },
        Some(parent) => {
            if above.len() == 0 {
                assert(!has_task(tasks, parent));
                assert(walk.last() == at);
                assert(parts =~= seq![task.title(), parent.text()]);
                let one = seq![parent.text()];
                assert(parts =~= seq![task.title()] + one);
                lemma_joined_below(task.title(), one, sep);
                assert(joined_up(one, sep) == parent.text());
            } else {
                assert(walk.last() == above.last());
                let further = path_parts(tasks, above, true);
                assert(parts =~= seq![task.title()] + further);
                lemma_joined_below(task.title(), further, sep);
                lemma_task_found(tasks, parent);
                lemma_path_shown(relay, parent, sep);
            }
            assert(joined_up(parts, sep).len() > 0);
        },
    }
    assert forall|other: EventId| !has_task(tasks, other) implies #[trigger] relay.path_by(
        Some(other),
        sep,
    ) == other.text() by {
        assert(ancestors(tasks, Some(other)).len() == 0);
    }
}

proof fn lemma_path_shown(relay: RelayView, id: EventId, sep: Seq<char>)
    requires
        has_task(relay.tasks, id),
    ensures
        relay.path_by(Some(id), sep) == joined_up(
            path_parts(relay.tasks, ancestors(relay.tasks, Some(id)), true),
            sep,
        ),
{
    let tasks = relay.tasks;
    lemma_task_found(tasks, id);
    let at = task_at(tasks, id);
    let walk = ancestors(tasks, Some(id));
    let above = ancestors_within(tasks, tasks[at].parent(), (tasks.len() - 1) as nat);
    assert(walk =~= seq![at] + above);
    let parts = path_parts(tasks, walk, true);
    assert(titles_at(tasks, walk)[0] == tasks[at].title());
    assert(parts[0] == tasks[at].title());
    lemma_title(tasks[at]);
    lemma_joined_len(parts, sep);
}

proof fn lemma_joined_len(parts: Seq<Seq<char>>, sep: Seq<char>)
    requires
        parts.len() > 0,
    ensures
        joined_up(parts, sep).len() >= parts[0].len(),
    decreases parts.len(),
{
    if parts.len() > 1 {
        lemma_joined_len(parts.drop_last(), sep);
        assert(parts.drop_last()[0] == parts[0]);
    }
}

// ---------------------------------------------------------------------------
// Subtasks

proof fn lemma_counts(tasks: TasksView, at: Seq<int>, now: u64)
    ensures
        done_count(tasks, at, now) == at.filter(
            |p: int| tasks[p].pure_state(now) == State::Done,
        ).len(),
        unclosed_count(tasks, at, now) == at.filter(
            |p: int| tasks[p].pure_state(now) != State::Closed,
        ).len(),
    decreases at.len(),
{
    reveal(Seq::filter);
    if at.len() > 0 {
        lemma_counts(tasks, at.drop_last(), now);
    }
}

/// Of the subtasks of a task it is shown how many are done and how many there are, without those
/// that are closed.
pub proof fn subtasks_are_counted(relay: RelayView, task: TaskView, now: u64)
    ensures
        ({
            let below = children(relay.tasks, Some(task.event.id));
            let done = below.filter(|p: int| relay.tasks[p].pure_state(now) == State::Done).len();
            let total = below.filter(
                |p: int| relay.tasks[p].pure_state(now) != State::Closed,
            ).len();
            relay.subtasks_text(task, now) == if total == 0 {
                Seq::<char>::empty()
            } else {
                decimal(done) + seq!['/'] + decimal(total)
            }
        }),
{
    reveal_strlit("/");
    lemma_counts(relay.tasks, children(relay.tasks, Some(task.event.id)), now);
    assert("/"@ =~= seq!['/']);
}

// ---------------------------------------------------------------------------
// Priority and dependencies

/// The priority that is shown of a task is its own, or else that of the nearest task above that
/// has one.
pub proof fn a_priority_is_inherited(relay: RelayView, task: TaskView, on: bool, k: int)
    requires
        ({
            let above = ancestors(relay.tasks, Some(task.event.id));
            &&& 0 <= k < above.len()
            &&& relay.tasks[above[k]].priority_text() is Some
            &&& forall|j: int|
                0 <= j < k ==> relay.tasks[#[trigger] above[j]].priority_text() is None
        }),
    ensures
        relay.prio_text(task, on) == relay.tasks[ancestors(
            relay.tasks,
            Some(task.event.id),
        )[k]].priority_text().unwrap(),
{
    lemma_first_priority(relay.tasks, ancestors(relay.tasks, Some(task.event.id)), k);
}

proof fn lemma_first_priority(tasks: TasksView, at: Seq<int>, k: int)
    requires
        0 <= k < at.len(),
        tasks[at[k]].priority_text() is Some,
        forall|j: int| 0 <= j < k ==> tasks[#[trigger] at[j]].priority_text() is None,
    ensures
        first_priority(tasks, at) == tasks[at[k]].priority_text(),
    decreases at.len(),
{
    if k > 0 {
        let rest = at.drop_first();
        assert(tasks[at[0]].priority_text() is None);
        assert forall|j: int| 0 <= j < k - 1 implies tasks[#[trigger] rest[j]].priority_text() is None by {
            assert(rest[j] == at[j + 1]);
        }
        lemma_first_priority(tasks, rest, k - 1);
    }
}

/// A task is blocked by the first unfinished task that it depends on, and by none that is done or
/// closed or unknown.
pub proof fn an_unfinished_dependency_blocks(tasks: TasksView, ids: Seq<EventId>, now: u64)
    ensures
        match first_open(tasks, ids, now) {
            Some(t) => exists|k: int|
                0 <= k < ids.len() && task_of(tasks, #[trigger] ids[k]) == Some(t) && is_left(
                    tasks,
                    ids[k],
                    now,
                ) && forall|j: int| 0 <= j < k ==> !is_left(tasks, #[trigger] ids[j], now),
            None => forall|j: int| 0 <= j < ids.len() ==> !is_left(tasks, #[trigger] ids[j], now),
        },
    decreases ids.len(),
{
    if ids.len() > 0 {
        let rest = ids.drop_first();
        an_unfinished_dependency_blocks(tasks, rest, now);
        if is_left(tasks, ids[0], now) {
            assert(task_of(tasks, ids[0]) == first_open(tasks, ids, now));
        } else {
            match first_open(tasks, rest, now) {
                Some(t) => {
                    let k = choose|k: int|
                        0 <= k < rest.len() && task_of(tasks, #[trigger] rest[k]) == Some(t)
                            && is_left(tasks, rest[k], now) && forall|j: int|
                            0 <= j < k ==> !is_left(tasks, #[trigger] rest[j], now);
                    assert(ids[k + 1] == rest[k]);
                    assert forall|j: int| 0 <= j < k + 1 implies !is_left(
                        tasks,
                        #[trigger] ids[j],
                        now,
                    ) by {
                        if j > 0 {
                            assert(ids[j] == rest[j - 1]);
                        }
                    }
                },
                None => {
                    assert forall|j: int| 0 <= j < ids.len() implies !is_left(
                        tasks,
                        #[trigger] ids[j],
                        now,
                    ) by {
                        if j > 0 {
                            assert(ids[j] == rest[j - 1]);
                        }
                    }
                },
            }
        }
    }
}

/// Whether a task of that id is known, and neither done nor closed.
pub open spec fn is_left(tasks: TasksView, id: EventId, now: u64) -> bool {
    task_of(tasks, id) matches Some(t) && t.pure_state(now) != State::Done && t.pure_state(now)
        != State::Closed
}

// ---------------------------------------------------------------------------
// Columns

/// By these the names of the columns are told apart.
proof fn lemma_names()
    ensures
        "subtasks"@.len() == 8 && "subtasks"@[0] == 's',
        "state"@.len() == 5 && "state"@[0] == 's',
        "progress"@.len() == 8 && "progress"@[0] == 'p' && "progress"@[1] == 'r' && "progress"@[2] == 'o',
        "owner"@.len() == 5 && "owner"@[0] == 'o',
        "assignee"@.len() == 8 && "assignee"@[0] == 'a',
        "author"@.len() == 6 && "author"@[0] == 'a',
        "creator"@.len() == 7 && "creator"@[5] == 'o',
        "prio"@.len() == 4 && "prio"@[0] == 'p' && "prio"@[1] == 'r',
        "path"@.len() == 4 && "path"@[0] == 'p' && "path"@[1] == 'a',
        "rpath"@.len() == 5 && "rpath"@[0] == 'r' && "rpath"@[1] == 'p',
        "time"@.len() == 4 && "time"@[0] == 't',
        "rtime"@.len() == 5 && "rtime"@[0] == 'r' && "rtime"@[1] == 't',
        "id"@.len() == 2 && "id"@[0] == 'i',
        "parentid"@.len() == 8 && "parentid"@[0] == 'p' && "parentid"@[1] == 'a',
        "name"@.len() == 4 && "name"@[0] == 'n',
        "key"@.len() == 3 && "key"@[0] == 'k',
        "pubkey"@.len() == 6 && "pubkey"@[0] == 'p',
        "created"@.len() == 7 && "created"@[5] == 'e',
        "kind"@.len() == 4 && "kind"@[0] == 'k',
        "priority"@.len() == 8 && "priority"@[0] == 'p' && "priority"@[1] == 'r' && "priority"@[2] == 'i',
        "status"@.len() == 6 && "status"@[0] == 's',
        "desc"@.len() == 4 && "desc"@[0] == 'd',
        "description"@.len() == 11 && "description"@[0] == 'd',
{
    reveal_strlit("subtasks");
    reveal_strlit("state");
    reveal_strlit("progress");
    reveal_strlit("owner");
    reveal_strlit("assignee");
    reveal_strlit("author");
    reveal_strlit("creator");
    reveal_strlit("prio");
    reveal_strlit("path");
    reveal_strlit("rpath");
    reveal_strlit("time");
    reveal_strlit("rtime");
    reveal_strlit("id");
    reveal_strlit("parentid");
    reveal_strlit("name");
    reveal_strlit("key");
    reveal_strlit("pubkey");
    reveal_strlit("created");
    reveal_strlit("kind");
    reveal_strlit("priority");
    reveal_strlit("status");
    reveal_strlit("desc");
    reveal_strlit("description");
}

/// Each column shows what it is named for.
pub proof fn columns_show_what_they_are_named_for(
    relay: RelayView,
    task: TaskView,
    clock: u64,
    on: bool,
    offset: Option<i32>,
)
    ensures
        ({
            let shown = |name: Seq<char>| relay.property(task, name, clock, on, offset);
            let id = task.event.id;
            &&& shown("owner"@) == cut(username(relay.users, task.owner()), 6)
            &&& shown("author"@) == cut(username(relay.users, task.event.pubkey), 6)
            &&& shown("creator"@) == cut(username(relay.users, task.event.pubkey), 6)
            &&& shown("time"@) == duration_text("MMMm"@, relay.time_tracked(id, clock))
            &&& shown("rtime"@) == duration_text("HH:MM"@, relay.total_time_tracked(id, clock))
            &&& shown("path"@) == relay.path(Some(id), on)
            &&& shown("rpath"@) == relay.relative_path(id, clock, on)
            &&& shown("prio"@) == relay.prio_text(task, on)
            &&& shown("subtasks"@) == relay.subtasks_text(task, now_of(clock))
            &&& shown("state"@) == relay.state_text(task, now_of(clock), on)
            &&& shown("id"@) == id.text()
            &&& shown("name"@) == task.event.content
            &&& shown("pubkey"@) == task.event.pubkey.text()
            &&& shown("kind"@) == decimal(task.event.kind as nat)
            &&& shown("created"@) == stamp_text(task.event.created_at, LOCAL_FORMAT@, offset)
            &&& task.parent() matches Some(p) ==> shown("parentid"@) == p.text()
            &&& task.priority_text() matches Some(p) ==> shown("priority"@) == p
            &&& task.state_label(now_of(clock), on) matches Some(l) ==> shown("status"@) == l
        }),
{
    lemma_names();
}

/// The last note is shown as the description in short, and all of them, the oldest first, in full.
pub proof fn notes_are_shown_as_description(
    relay: RelayView,
    task: TaskView,
    clock: u64,
    on: bool,
    offset: Option<i32>,
)
    ensures
        notes_in(task.props).len() > 0 ==> relay.property(task, "desc"@, clock, on, offset)
            == notes_in(task.props)[0],
        notes_in(task.props).len() == 2 ==> relay.property(task, "description"@, clock, on, offset)
            == notes_in(task.props)[1] + " "@ + notes_in(task.props)[0],
{
    lemma_names();
    let notes = notes_in(task.props);
    let turned = reversed(notes);
    if notes.len() == 2 {
        assert(turned =~= seq![notes[1], notes[0]]);
        let first = turned.drop_last();
        assert(first =~= seq![notes[1]]);
        assert(joined(first, " "@) == notes[1]);
        assert(turned.last() == notes[0]);
    }
}

// ---------------------------------------------------------------------------
// Blocked tasks

/// A task shows what blocks it, whatever its own state is; else its progress once it has started,
/// and else what its state is called.
pub proof fn a_blocked_task_shows_what_blocks_it(
    relay: RelayView,
    task: TaskView,
    now: u64,
    on: bool,
    k: int,
)
    requires
        ({
            let ids = marked(task.refs, MARKER_DEPENDS@);
            &&& 0 <= k < ids.len()
            &&& is_left(relay.tasks, ids[k], now)
            &&& forall|j: int| 0 <= j < k ==> !is_left(relay.tasks, #[trigger] ids[j], now)
        }),
    ensures
        relay.state_text(task, now, on) == painted(
            Paint::BrightRed.code(),
            "Blocked by \""@ + relay.task_title(marked(task.refs, MARKER_DEPENDS@)[k]) + "\""@,
            on,
        ),
{
    let ids = marked(task.refs, MARKER_DEPENDS@);
    an_unfinished_dependency_blocks(relay.tasks, ids, now);
    match first_open(relay.tasks, ids, now) {
        Some(t) => {
            let f = choose|f: int|
                0 <= f < ids.len() && task_of(relay.tasks, #[trigger] ids[f]) == Some(t) && is_left(
                    relay.tasks,
                    ids[f],
                    now,
                ) && forall|j: int| 0 <= j < f ==> !is_left(relay.tasks, #[trigger] ids[j], now);
            if f < k {
                assert(!is_left(relay.tasks, ids[f], now));
            }
            if k < f {
                assert(!is_left(relay.tasks, ids[k], now));
            }
        },
        None => {
            assert(!is_left(relay.tasks, ids[k], now));
        },
    }
}

/// A task that nothing blocks shows what its state is called, unless it is under way.
pub proof fn a_free_task_shows_its_state(relay: RelayView, task: TaskView, now: u64, on: bool)
    requires
        forall|j: int|
            0 <= j < marked(task.refs, MARKER_DEPENDS@).len() ==> !is_left(
                relay.tasks,
                #[trigger] marked(task.refs, MARKER_DEPENDS@)[j],
                now,
            ),
        task.is_task(),
    ensures
        ({
            let change = task.state_or_default(now);
            let label = painted(change.state.paint().code(), change.label(), on);
            match relay.progress_of(task) {
                Some((progress, started)) => if started && change.state != State::Done
                    && change.state != State::Closed {
                    relay.state_text(task, now, on) == painted(
                        change.state.paint().code(),
                        progress,
                        on,
                    )
                } else {
                    relay.state_text(task, now, on) == label
                },
                None => relay.state_text(task, now, on) == label,
            }
        }),
{
    let ids = marked(task.refs, MARKER_DEPENDS@);
    an_unfinished_dependency_blocks(relay.tasks, ids, now);
    match first_open(relay.tasks, ids, now) {
        Some(t) => {
            let f = choose|f: int|
                0 <= f < ids.len() && task_of(relay.tasks, #[trigger] ids[f]) == Some(t) && is_left(
                    relay.tasks,
                    ids[f],
                    now,
                );
            assert(!is_left(relay.tasks, ids[f], now));
        },
        None => {},
    }
}

} // verus!
