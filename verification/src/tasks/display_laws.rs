//! What holds of what is shown to the user.

use crate::command::{address_of, selects, CommandView};
use crate::event_sender::host_part;
use crate::nostr::{EventId, EventView};
use crate::tasks::context::marked_texts;
use crate::tasks::display::{last_start, lines, lines_back, ShownView};
use crate::tasks::durations::{first_ref, stamps_of};
use crate::tasks::filter::KeysView;
use crate::tasks::move_laws::{are_past, lemma_past};
use crate::tasks::nostr_users::{displayname, username};
use crate::tasks::property::{titles_at, up_to};
use crate::tasks::task_map::{ancestors, ancestors_within, has_task, lemma_task_found, task_at};
use crate::tasks::time_laws::at_most_the_largest;
use crate::tasks::times::{interval_lines, overview_text, user_lines, OffsetsView, StampsView};
use crate::tasks::{FilterView, HistoryView, RelayView};
use crate::text::{decimal, has_part, joined, padded, parted, stands_at};
use crate::text_laws::a_text_is_parted_at_the_first_part;
use crate::time::{relative_format, stamp_text};
use vstd::prelude::*;

verus! {

// ---------------------------------------------------------------------------
// Lines

proof fn lemma_line(texts: Seq<Seq<char>>, i: int) -> (r: (Seq<char>, Seq<char>))
    requires
        0 <= i < texts.len(),
    ensures
        lines(texts) == r.0 + texts[i] + "\n"@ + r.1,
    decreases texts.len(),
{
    let rest = texts.drop_last();
    if i == rest.len() {
        let none = Seq::<char>::empty();
        assert(lines(texts) =~= lines(rest) + texts[i] + "\n"@ + none);
        (lines(rest), none)
    } else {
        let (a, b) = lemma_line(rest, i);
        assert(rest[i] == texts[i]);
        let c = b + texts.last() + "\n"@;
        assert(lines(texts) =~= a + texts[i] + "\n"@ + c);
        (a, c)
    }
}

proof fn lemma_inside(a: Seq<char>, part: Seq<char>, b: Seq<char>)
    ensures
        has_part(a + part + b, part),
{
    let s = a + part + b;
    assert(s.subrange(a.len() as int, a.len() as int + part.len()) =~= part);
    assert(stands_at(s, part, a.len() as int));
}

proof fn lemma_part_within(a: Seq<char>, s: Seq<char>, b: Seq<char>, part: Seq<char>)
    requires
        has_part(s, part),
    ensures
        has_part(a + s + b, part),
{
    let at = choose|at: int| stands_at(s, part, at);
    let all = a + s + b;
    assert(all.subrange(a.len() + at, a.len() + at + part.len()) =~= s.subrange(
        at,
        at + part.len(),
    ));
    assert(stands_at(all, part, a.len() + at));
}

/// Each task in view has a line of its own with its properties, and it is told how many tasks
/// there are.
pub proof fn each_task_in_view_has_a_line(
    relay: RelayView,
    clock: u64,
    keys: KeysView,
    shown: ShownView,
    i: int,
)
    requires
        relay.may_show(clock, keys, shown),
        0 <= i < relay.viewed(clock, keys).len(),
    ensures
        ({
            let text = relay.display(clock, keys, shown);
            let visible = relay.viewed(clock, keys);
            &&& shown.rows.len() == visible.len()
            &&& relay.is_row(relay.tasks[visible[i]], clock, shown.rows[i])
            &&& has_part(text, shown.rows[i] + "\n"@)
            &&& has_part(text, decimal(visible.len()) + " visible tasks"@)
        }),
{
    let visible = relay.viewed(clock, keys);
    let rows = shown.rows;
    assert(relay.is_row(relay.tasks[visible[i]], clock, rows[i]));
    let (a, b) = lemma_line(rows, i);
    let row = rows[i] + "\n"@;
    assert(lines(rows) =~= a + row + b);
    lemma_inside(a, row, b);
    let head = crate::paint::painted("1"@, joined(relay.properties, " \t"@), shown.header_on)
        + "\n"@;
    let count = decimal(visible.len()) + " visible tasks"@;
    let tail = crate::tasks::property::duration_text(
        " tracked a total of HHhMMm"@,
        relay.time_shown(visible, clock),
    ) + "\n"@;
    let table = relay.table_text(visible, clock, rows, shown.header_on);
    assert(table =~= head + lines(rows) + (count + tail));
    lemma_part_within(head, lines(rows), count + tail, row);
    assert(table =~= (head + lines(rows)) + count + tail);
    lemma_inside(head + lines(rows), count, tail);
    let top = relay.head_text(clock, shown.start, shown.since) + relay.quick_text(
        clock,
        keys,
        shown.quick,
        shown.title_on,
    );
    let none = Seq::<char>::empty();
    assert(relay.display(clock, keys, shown) =~= top + table + none);
    lemma_part_within(top, table, none, row);
    lemma_part_within(top, table, none, count);
}

/// The time that is shown below the tasks is that of all tasks in view together.
pub proof fn the_times_in_view_are_added_up(relay: RelayView, at: Seq<int>, p: int, clock: u64)
    ensures
        relay.time_shown(at.push(p), clock) == at_most_the_largest(
            relay.time_shown(at, clock) + relay.total_time_tracked(relay.tasks[p].event.id, clock),
        ),
        relay.time_shown(Seq::empty(), clock) == 0,
{
    assert(at.push(p).drop_last() =~= at);
    assert(at.push(p).last() == p);
}

/// The notes of a task are shown with the oldest first.
pub proof fn notes_are_shown_oldest_first(texts: Seq<Seq<char>>, newest: Seq<char>)
    ensures
        lines_back(seq![newest] + texts) == lines_back(texts) + newest + "\n"@,
    decreases texts.len(),
{
    let all = seq![newest] + texts;
    if texts.len() == 0 {
        assert(all =~= seq![newest]);
        assert(all.drop_last() =~= Seq::<Seq<char>>::empty());
        assert(lines_back(all.drop_last()) =~= Seq::<char>::empty());
        assert(lines_back(all) =~= lines_back(texts) + newest + "\n"@);
    } else {
        assert(all.last() == texts.last());
        assert(all.drop_last() =~= seq![newest] + texts.drop_last());
        notes_are_shown_oldest_first(texts.drop_last(), newest);
        assert(lines_back(all) =~= lines_back(texts) + newest + "\n"@);
    }
}

/// Since when a task is active is the last of its starts and stops until now.
pub proof fn the_last_start_is_shown(stamps: StampsView, now: u64, k: int)
    requires
        0 <= k < stamps.len(),
        forall|i: int| 0 <= i <= k ==> (#[trigger] stamps[i]).0 <= now,
        k + 1 < stamps.len() ==> stamps[k + 1].0 > now,
    ensures
        last_start(stamps, now, None) == Some(stamps[k].0),
{
    lemma_last_start(stamps, now, None, k);
}

proof fn lemma_last_start(stamps: StampsView, now: u64, found: Option<u64>, k: int)
    requires
        0 <= k < stamps.len(),
        forall|i: int| 0 <= i <= k ==> (#[trigger] stamps[i]).0 <= now,
        k + 1 < stamps.len() ==> stamps[k + 1].0 > now,
    ensures
        last_start(stamps, now, found) == Some(stamps[k].0),
    decreases stamps.len(),
{
    let rest = stamps.drop_first();
    assert(stamps[0].0 <= now);
    if k > 0 {
        assert forall|i: int| 0 <= i <= k - 1 implies (#[trigger] rest[i]).0 <= now by {
            assert(rest[i] == stamps[i + 1]);
        }
        if k < rest.len() {
            assert(rest[k] == stamps[k + 1]);
        }
        lemma_last_start(rest, now, Some(stamps[0].0), k - 1);
        assert(rest[k - 1] == stamps[k]);
    } else if rest.len() > 0 {
        assert(rest[0] == stamps[1]);
    }
}

/// An overview has the latest entries, as many as asked for, and all where there are no more.
pub proof fn an_overview_has_the_latest_entries(
    limit: usize,
    label: Seq<char>,
    entries: Seq<Seq<char>>,
    on: bool,
    older: Seq<Seq<char>>,
)
    requires
        entries.len() == limit,
        limit > 0,
        limit < usize::MAX,
    ensures
        ({
            let text = overview_text(limit, label, older + entries, on);
            let shown = joined(entries, "\n"@);
            &&& text.len() >= shown.len()
            &&& text.skip(text.len() - shown.len()) == shown
        }),
{
    let all = older + entries;
    let shown = joined(entries, "\n"@);
    if all.len() > limit {
        assert(all.skip(all.len() - limit) =~= entries);
    } else {
        assert(all =~= entries);
    }
    let text = overview_text(limit, label, all, on);
    assert(text.skip(text.len() - shown.len()) =~= shown);
}

// ---------------------------------------------------------------------------
// Tracked times

proof fn lemma_interval(
    stamps: StampsView,
    name: Seq<char>,
    offsets: Seq<OffsetsView>,
    n: nat,
    k: int,
)
    requires
        0 <= k < n,
        stamps[2 * k].0 + 120 < stamps[2 * k + 1].0,
    ensures
        interval_lines(stamps, name, offsets, n).contains(
            interval_text(stamps[2 * k].0, stamps[2 * k + 1].0, name, offsets[k]),
        ),
    decreases n,
{
    let r = interval_lines(stamps, name, offsets, n);
    let line = interval_text(stamps[2 * k].0, stamps[2 * k + 1].0, name, offsets[k]);
    if k == n - 1 {
        assert(2 * n - 2 == 2 * k);
        assert(r.last() == line);
    } else {
        lemma_interval(stamps, name, offsets, (n - 1) as nat, k);
        let before = interval_lines(stamps, name, offsets, (n - 1) as nat);
        let j = choose|j: int| 0 <= j < before.len() && before[j] == line;
        assert(r[j] == line);
    }
}

/// An interval as it is listed: when it started and when it ended, the latter in short if that is
/// on about the same day, and by whom it was tracked.
pub open spec fn interval_text(
    start: u64,
    end: u64,
    name: Seq<char>,
    offset: OffsetsView,
) -> Seq<char> {
    stamp_text(start, "%y-%m-%d %a %H:%M"@, offset.0) + " - "@ + stamp_text(
        end,
        relative_format(end, start),
        offset.1,
    ) + " by "@ + name
}

/// Each interval of a user that takes more than two minutes is listed with its start and its end,
/// and the one that goes on with its start.
pub proof fn intervals_are_listed_with_start_and_end(
    stamps: StampsView,
    name: Seq<char>,
    offsets: Seq<OffsetsView>,
    k: int,
)
    ensures
        0 <= k && 2 * k + 1 < stamps.len() && stamps[2 * k].0 + 120 < stamps[2 * k + 1].0
            ==> user_lines(stamps, name, offsets).contains(
            interval_text(stamps[2 * k].0, stamps[2 * k + 1].0, name, offsets[k]),
        ),
        stamps.len() % 2 == 1 ==> user_lines(stamps, name, offsets).contains(
            stamp_text(
                stamps.last().0,
                "%y-%m-%d %a %H:%M"@,
                offsets[(stamps.len() / 2) as int].0,
            ) + " started by "@ + name,
        ),
{
    let r = user_lines(stamps, name, offsets);
    let ended = interval_lines(stamps, name, offsets, stamps.len() / 2);
    if 0 <= k && 2 * k + 1 < stamps.len() && stamps[2 * k].0 + 120 < stamps[2 * k + 1].0 {
        lemma_interval(stamps, name, offsets, stamps.len() / 2, k);
        let line = interval_text(stamps[2 * k].0, stamps[2 * k + 1].0, name, offsets[k]);
        let j = choose|j: int| 0 <= j < ended.len() && ended[j] == line;
        assert(r[j] == line);
    }
    if stamps.len() % 2 == 1 {
        assert(r.contains(r.last()));
    }
}

/// The times on a task are listed for each user: those of all of them, with their names.
pub proof fn the_times_of_all_users_are_listed(
    relay: RelayView,
    history: HistoryView,
    id: EventId,
    offsets: Seq<Seq<OffsetsView>>,
    i: int,
    line: Seq<char>,
)
    requires
        0 <= i < history.len(),
        user_lines(
            stamps_of(history[i].1, seq![id]),
            displayname(relay.users, history[i].0),
            offsets[i],
        ).contains(line),
    ensures
        relay.task_lines(history, id, offsets).contains(line),
    decreases history.len(),
{
    let rest = history.drop_last();
    let before = relay.task_lines(rest, id, offsets);
    let r = relay.task_lines(history, id, offsets);
    if i < rest.len() {
        assert(rest[i] == history[i]);
        the_times_of_all_users_are_listed(relay, rest, id, offsets, i, line);
        let j = choose|j: int| 0 <= j < before.len() && before[j] == line;
        assert(r[j] == line);
    } else {
        let own = user_lines(
            stamps_of(history.last().1, seq![id]),
            displayname(relay.users, history.last().0),
            offsets[i],
        );
        assert(r == before + own);
        let j = choose|j: int| 0 <= j < own.len() && own[j] == line;
        assert(r[before.len() + j] == line);
    }
}

/// Each change of place is listed with its time: where the user went, or that they stopped.
pub proof fn changes_of_place_are_listed(
    relay: RelayView,
    events: Seq<EventView>,
    sep: Seq<char>,
    offsets: Seq<Option<i32>>,
    i: int,
)
    requires
        0 <= i < events.len(),
        if i == 0 {
            relay.place(events[i], sep) is Some
        } else {
            relay.place(events[i], sep) != relay.place(events[i - 1], sep)
        },
    ensures
        relay.history_lines(events, sep, offsets).contains(
            stamp_text(events[i].created_at, "%y-%m-%d %a %H:%M"@, offsets[i]) + " "@
                + match relay.place(events[i], sep) {
                Some(place) => place,
                None => "---"@,
            },
        ),
    decreases events.len(),
{
    let rest = events.drop_last();
    let before = relay.history_lines(rest, sep, offsets);
    let r = relay.history_lines(events, sep, offsets);
    let line = stamp_text(events[i].created_at, "%y-%m-%d %a %H:%M"@, offsets[i]) + " "@
        + match relay.place(events[i], sep) {
        Some(place) => place,
        None => "---"@,
    };
    if i < rest.len() {
        assert(rest[i] == events[i]);
        if i > 0 {
            assert(rest[i - 1] == events[i - 1]);
        }
        changes_of_place_are_listed(relay, rest, sep, offsets, i);
        let j = choose|j: int| 0 <= j < before.len() && before[j] == line;
        assert(r[j] == line);
    } else {
        if i > 0 {
            assert(rest.last() == events[i - 1]);
        }
        assert(r.last() == line);
    }
}

// ---------------------------------------------------------------------------
// Relative paths

/// The path of a task relative to the active one does not go beyond it: for a child of the active
/// task it is the title alone.
pub proof fn a_relative_path_starts_below_the_active_task(
    relay: RelayView,
    id: EventId,
    clock: u64,
    sep: Seq<char>,
)
    requires
        has_task(relay.tasks, id),
        relay.position(clock) != Some(id),
        relay.parent_of(Some(id)) == relay.position(clock),
    ensures
        relay.relative_path_by(id, clock, sep) == relay.task_title(id),
{
    let tasks = relay.tasks;
    lemma_task_found(tasks, id);
    let at = task_at(tasks, id);
    let walk = ancestors(tasks, Some(id));
    let above = ancestors_within(tasks, tasks[at].parent(), (tasks.len() - 1) as nat);
    let stop = relay.position(clock);
    assert(walk =~= seq![at] + above);
    assert(walk.drop_first() =~= above);
    if above.len() > 0 {
        let parent = tasks[at].parent().unwrap();
        lemma_task_found(tasks, parent);
        assert(above[0] == task_at(tasks, parent));
        assert(Some(tasks[above[0]].event.id) == stop);
    }
    assert(up_to(tasks, above, stop) =~= Seq::<int>::empty());
    let shown = up_to(tasks, walk, stop);
    assert(shown =~= seq![at]);
    assert(titles_at(tasks, shown) =~= seq![tasks[at].title()]);
}

// ---------------------------------------------------------------------------
// Relays

/// A relay is selected by a part of its address, or by the beginning of it where that is an
/// address; the relay without one is not.
pub proof fn a_relay_is_selected_by_its_address(text: Seq<char>, address: Seq<char>)
    ensures
        selects(CommandView::Relay(text), Some(address)) == exists|at: int|
            stands_at(address, text, at),
        selects(CommandView::OpenRelay(text), Some(address)) == stands_at(address, text, 0),
        !selects(CommandView::Relay(text), None),
        !selects(CommandView::OpenRelay(text), None),
{
}

/// An address without a protocol gets a secure one, and any other stays as it is.
pub proof fn an_address_gets_a_protocol(line: Seq<char>)
    ensures
        has_part(line, "://"@) ==> address_of(line) == line,
        !has_part(line, "://"@) ==> address_of(line) == "wss://"@ + line,
{
}

/// What a relay did not take is kept by what stands behind the last double slash of its address.
pub proof fn failures_are_kept_by_host(url: Seq<char>)
    ensures
        !has_part(host_part(url), "//"@),
        has_part(url, "//"@) ==> exists|left: Seq<char>| url == #[trigger] (left + "//"@)
            + host_part(url),
        !has_part(url, "//"@) ==> host_part(url) == url,
    decreases url.len(),
{
    reveal_strlit("//");
    a_text_is_parted_at_the_first_part(url, "//"@);
    match parted(url, "//"@) {
        Some((left, rest)) => {
            assert(rest.len() < url.len());
            lemma_inside(left, "//"@, rest);
            failures_are_kept_by_host(rest);
            if has_part(rest, "//"@) {
                let l = choose|l: Seq<char>| rest == #[trigger] (l + "//"@) + host_part(rest);
                let longer = left + "//"@ + l;
                assert(url =~= (longer + "//"@) + host_part(url));
            } else {
                assert(url =~= (left + "//"@) + host_part(url));
            }
        },
        None => {},
    }
}

// ---------------------------------------------------------------------------
// Previous places and the prompt

/// The previous places are listed with the steps that lead back to them: eight at most, the
/// latest first and without the present one.
pub proof fn previous_places_are_listed_by_steps(
    relay: RelayView,
    now: u64,
    sep: Seq<char>,
    count: nat,
    steps: int,
)
    requires
        are_past(relay.own_events(), now, count),
    ensures
        ({
            let back = relay.back_lines(now, sep);
            &&& back.len() == if count == 0 {
                0
            } else if count > 9 {
                8
            } else {
                count - 1
            }
            &&& 1 <= steps <= back.len() ==> back[steps - 1] == "("@ + decimal(steps as nat) + ") "@
                + match first_ref(relay.own_events()[count - 1 - steps]) {
                Some(id) => relay.path_by(Some(id), sep),
                None => "---"@,
            }
        }),
{
    lemma_past(relay.own_events(), now, count, 0);
}

proof fn lemma_marked(mark: Seq<char>, texts: Seq<Seq<char>>, i: int)
    requires
        0 <= i < texts.len(),
    ensures
        has_part(marked_texts(mark, texts), mark + texts[i]),
    decreases texts.len(),
{
    let rest = texts.drop_last();
    let before = marked_texts(mark, rest);
    let none = Seq::<char>::empty();
    let all = marked_texts(mark, texts);
    if i == rest.len() {
        assert(all =~= before + (mark + texts[i]) + none);
        lemma_inside(before, mark + texts[i], none);
    } else {
        assert(rest[i] == texts[i]);
        lemma_marked(mark, rest, i);
        assert(all =~= none + before + (mark + texts.last()));
        lemma_part_within(none, before, mark + texts.last(), mark + texts[i]);
    }
}

/// The prompt shows each hashtag that is filtered by or filtered out, the states that are shown
/// unless they are the open ones, and the priority.
pub proof fn the_prompt_shows_the_filters(relay: RelayView, i: int, j: int)
    ensures
        ({
            let suffix = relay.prompt_suffix();
            &&& 0 <= i < relay.tags.len() ==> has_part(suffix, " #"@ + relay.tags[i])
            &&& 0 <= j < relay.tags_excluded.len() ==> has_part(
                suffix,
                " -#"@ + relay.tags_excluded[j],
            )
            &&& relay.state matches FilterView::State(s) ==> has_part(suffix, " ?"@ + s)
            &&& relay.state == FilterView::All ==> has_part(suffix, " ?ALL"@)
            &&& relay.priority matches Some(p) ==> has_part(
                suffix,
                " *"@ + padded(decimal(p as nat), '0', 2),
            )
        }),
        relay.pubkey_text() == if relay.keys.len() == 0 {
            Some("ALL"@)
        } else if relay.keys == relay.own_keys {
            None
        } else {
            Some(username(relay.users, relay.keys[0]))
        },
{
    let a = marked_texts(" #"@, relay.tags);
    let b = marked_texts(" -#"@, relay.tags_excluded);
    let c = relay.state.indicator();
    let d = match relay.priority {
        Some(p) => " *"@ + padded(decimal(p as nat), '0', 2),
        None => Seq::empty(),
    };
    let none = Seq::<char>::empty();
    let suffix = relay.prompt_suffix();
    assert(suffix =~= none + a + (b + c + d));
    assert(suffix =~= a + b + (c + d));
    assert(suffix =~= (a + b) + c + d);
    assert(suffix =~= (a + b + c) + d + none);
    if 0 <= i < relay.tags.len() {
        lemma_marked(" #"@, relay.tags, i);
        lemma_part_within(none, a, b + c + d, " #"@ + relay.tags[i]);
    }
    if 0 <= j < relay.tags_excluded.len() {
        lemma_marked(" -#"@, relay.tags_excluded, j);
        lemma_part_within(a, b, c + d, " -#"@ + relay.tags_excluded[j]);
    }
    lemma_inside(a + b, c, d);
    lemma_inside(a + b + c, d, none);
}

} // verus!
