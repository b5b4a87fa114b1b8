//! The tasks as they are shown to the user.

use crate::kinds::{basic_tag_text, event_ref, format_tag_basic, match_event_tag, MARKER_PROPERTY};
use crate::lists::{group_views, views};
use crate::nostr::{Event, EventId, EventView, Tag, TagView};
use crate::paint::{bold, dimmed, italic, painted};
use crate::task::state::{state_of_kind, State, StateChange};
use crate::task::{notes_in, Task, TaskView};
use crate::tasks::durations::{first_ref, plus, referenced_event, stamps_of, timestamps};
use crate::tasks::filter::{table, within, KeysView};
use crate::tasks::property::{display_time, duration_text, separator};
use crate::tasks::task_map::{children, children_for, places, task_of};
use crate::tasks::times::StampsView;
use crate::tasks::{now_at, now_of, RelayView, TasksRelay};
use crate::text::{decimal, join, joined, same_text, to_decimal};
use crate::time::{
    clock, format_timestamp_full, format_timestamp_relative, is_clock_time, stamp_relative_text,
    stamp_text, LocalTime, FULL_FORMAT,
};
use vstd::prelude::*;

verus! {

// ---------------------------------------------------------------------------
// Lines

/// The texts, each on a line of its own.
pub open spec fn lines(texts: Seq<Seq<char>>) -> Seq<char>
    decreases texts.len(),
{
    if texts.len() == 0 {
        Seq::empty()
    } else {
        lines(texts.drop_last()) + texts.last() + "\n"@
    }
}

/// The texts, each on a line of its own, the last first.
pub open spec fn lines_back(texts: Seq<Seq<char>>) -> Seq<char>
    decreases texts.len(),
{
    if texts.len() == 0 {
        Seq::empty()
    } else {
        texts.last() + "\n"@ + lines_back(texts.drop_last())
    }
}

fn push_lines(text: &mut String, texts: &Vec<String>)
    ensures
        final(text)@ == old(text)@ + lines(views(texts@)),
{
    let ghost start = text@;
    let ghost all = views(texts@);
    let mut i: usize = 0;
    assert(all.take(0) =~= Seq::<Seq<char>>::empty());
    assert(start + lines(all.take(0)) =~= start);
    while i < texts.len()
        invariant
            0 <= i <= texts.len(),
            start == old(text)@,
            all == views(texts@),
            text@ == start + lines(all.take(i as int)),
        decreases texts.len() - i,
    {
        assert(all.take(i + 1).drop_last() =~= all.take(i as int));
        assert(all.take(i + 1).last() == texts@[i as int]@);
        text.append(texts[i].as_str());
        text.append("\n");
        assert(text@ =~= start + lines(all.take(i + 1)));
        i += 1;
    }
    assert(all.take(texts@.len() as int) =~= all);
}

fn push_lines_back(text: &mut String, texts: &Vec<String>)
    ensures
        final(text)@ == old(text)@ + lines_back(views(texts@)),
{
    let ghost start = text@;
    let ghost all = views(texts@);
    let mut i: usize = texts.len();
    assert(all.take(texts@.len() as int) =~= all);
    while i > 0
        invariant
            0 <= i <= texts.len(),
            start == old(text)@,
            all == views(texts@),
            text@ + lines_back(all.take(i as int)) == start + lines_back(all),
        decreases i,
    {
        assert(all.take(i as int).drop_last() =~= all.take(i - 1));
        assert(all.take(i as int).last() == texts@[i - 1]@);
        let ghost before = text@;
        i -= 1;
        text.append(texts[i].as_str());
        text.append("\n");
        assert(text@ + lines_back(all.take(i as int)) =~= before + lines_back(all.take(i + 1)));
    }
    assert(text@ + lines_back(all.take(0)) =~= text@);
}

// ---------------------------------------------------------------------------
// Model

/// When the latest tracking started or stopped, as far as it is not yet to come; the first in any
/// case.
pub open spec fn last_start(stamps: StampsView, now: u64, found: Option<u64>) -> Option<u64>
    decreases stamps.len(),
{
    if stamps.len() == 0 || (found is Some && stamps[0].0 > now) {
        found
    } else {
        last_start(stamps.drop_first(), now, Some(stamps[0].0))
    }
}

/// How far the local clock is from UTC at a time, and what it shows now.
pub type ZoneView = (Option<i32>, LocalTime);

/// The time that a timestamp stands for, seen from what the clock shows.
pub open spec fn zoned(stamp: u64, zone: ZoneView) -> Seq<char> {
    stamp_relative_text(stamp, zone.0, zone.1)
}

/// Whether the local clock can show that.
pub open spec fn is_zone(zone: ZoneView) -> bool {
    is_clock_time(zone.1)
}

/// What depends on the terminal and the time zone in what is shown.
#[verifier::ext_equal]
pub struct ShownView {
    pub start: ZoneView,
    pub since: ZoneView,
    pub overview: Seq<char>,
    pub quick: Seq<Seq<char>>,
    pub rows: Seq<Seq<char>>,
    pub title_on: bool,
    pub header_on: bool,
}

impl RelayView {
    /// Since when the active task is tracked and has its state.
    pub open spec fn active_text(
        self,
        task: TaskView,
        clock: u64,
        start: ZoneView,
        since: ZoneView,
    ) -> Seq<char> {
        let id = task.event.id;
        let state = task.state_or_default(now_of(clock));
        "Active from "@ + (match last_start(
            stamps_of(self.own_events(), seq![id]),
            now_of(clock),
            None,
        ) {
            Some(t) => zoned(t, start),
            None => "?"@,
        }) + " (total tracked time "@ + decimal((self.time_tracked(id, clock) / 60) as nat)
            + "m) - "@ + state.text() + " since "@ + zoned(state.time, since) + "\n"@
    }

    pub open spec fn current_task(self, clock: u64) -> Option<TaskView> {
        match self.position(clock) {
            Some(id) => task_of(self.tasks, id),
            None => None,
        }
    }

    /// The active task with its notes, if there is one.
    pub open spec fn head_text(self, clock: u64, start: ZoneView, since: ZoneView) -> Seq<char> {
        match self.current_task(clock) {
            Some(t) => self.active_text(t, clock, start, since) + lines_back(notes_in(t.props))
                + "\n"@,
            None => Seq::empty(),
        }
    }

    /// Whether a text shows the properties of a task side by side.
    pub open spec fn is_row(self, task: TaskView, clock: u64, text: Seq<char>) -> bool {
        exists|cells: Seq<Seq<char>>|
            {
                &&& cells.len() == self.properties.len()
                &&& forall|i: int|
                    0 <= i < cells.len() ==> self.shows(
                        task,
                        self.properties[i],
                        clock,
                        #[trigger] cells[i],
                    )
                &&& text == #[trigger] joined(cells, " \t"@)
            }
    }

    pub open spec fn are_rows(self, at: Seq<int>, clock: u64, rows: Seq<Seq<char>>) -> bool {
        &&& rows.len() == at.len()
        &&& forall|i: int|
            0 <= i < rows.len() ==> self.is_row(self.tasks[at[i]], clock, #[trigger] rows[i])
    }

    /// The time tracked on all of the tasks at the given places.
    pub open spec fn time_shown(self, at: Seq<int>, clock: u64) -> u64
        decreases at.len(),
    {
        if at.len() == 0 {
            0
        } else {
            plus(
                self.time_shown(at.drop_last(), clock),
                self.total_time_tracked(self.tasks[at.last()].event.id, clock),
            )
        }
    }

    /// The tasks for quick access with a title, unless the view is a search result or there are
    /// none.
    pub open spec fn quick_text(
        self,
        clock: u64,
        keys: KeysView,
        rows: Seq<Seq<char>>,
        on: bool,
    ) -> Seq<char> {
        if self.view.len() == 0 && self.quick_places(
            clock,
            keys,
            self.viewed(clock, keys),
        ).len() > 0 {
            painted("1"@, "Quick Access"@, on) + "\n"@ + lines(rows)
        } else {
            Seq::empty()
        }
    }

    /// The names of the properties above the tasks at the given places, and a summary below.
    pub open spec fn table_text(
        self,
        visible: Seq<int>,
        clock: u64,
        rows: Seq<Seq<char>>,
        on: bool,
    ) -> Seq<char> {
        painted("1"@, joined(self.properties, " \t"@), on) + "\n"@ + lines(rows) + decimal(
            visible.len(),
        ) + " visible tasks"@ + duration_text(
            " tracked a total of HHhMMm"@,
            self.time_shown(visible, clock),
        ) + "\n"@
    }

    /// What is told without any task in view.
    pub open spec fn nothing_text(self, clock: u64, overview: Seq<char>) -> Seq<char> {
        (if children(self.tasks, self.position(clock)).len() > 0 {
            "No tasks here matching"@ + self.prompt_suffix() + "\n"@
        } else {
            Seq::empty()
        }) + overview + "\n"@
    }

    /// The tasks in view, or what is known without any.
    pub open spec fn body_text(self, clock: u64, keys: KeysView, shown: ShownView) -> Seq<char> {
        let visible = self.viewed(clock, keys);
        if visible.len() == 0 {
            self.nothing_text(clock, shown.overview)
        } else {
            self.quick_text(clock, keys, shown.quick, shown.title_on) + self.table_text(
                visible,
                clock,
                shown.rows,
                shown.header_on,
            )
        }
    }

    /// What is shown at the given time, sorted by the given keys.
    pub open spec fn display(self, clock: u64, keys: KeysView, shown: ShownView) -> Seq<char> {
        self.head_text(clock, shown.start, shown.since) + self.body_text(clock, keys, shown)
    }

    /// Whether the parts stand for what they show.
    pub open spec fn may_show(self, clock: u64, keys: KeysView, shown: ShownView) -> bool {
        let visible = self.viewed(clock, keys);
        &&& is_zone(shown.start)
        &&& is_zone(shown.since)
        &&& if visible.len() == 0 {
            self.is_overview(6, clock, shown.overview)
        } else {
            &&& self.view.len() == 0 ==> self.are_rows(
                self.quick_places(clock, keys, visible),
                clock,
                shown.quick,
            )
            &&& self.are_rows(visible, clock, shown.rows)
        }
    }

    pub open spec fn is_display(self, clock: u64, keys: KeysView, text: Seq<char>) -> bool {
        exists|shown: ShownView|
            self.may_show(clock, keys, shown) && text == #[trigger] self.display(
                clock,
                keys,
                shown,
            )
    }
}

// ---------------------------------------------------------------------------
// Showing

fn find_start(stamps: &Vec<(u64, Option<EventId>)>, now: u64) -> (r: Option<u64>)
    ensures
        r == last_start(stamps@, now, None),
{
    let mut found: Option<u64> = None;
    let mut i: usize = 0;
    assert(stamps@.skip(0) =~= stamps@);
    while i < stamps.len() && (found.is_none() || stamps[i].0 <= now)
        invariant
            0 <= i <= stamps.len(),
            last_start(stamps@, now, None) == last_start(stamps@.skip(i as int), now, found),
        decreases stamps.len() - i,
    {
        assert(stamps@.skip(i as int).drop_first() =~= stamps@.skip(i + 1));
        found = Some(stamps[i].0);
        i += 1;
    }
    found
}

impl TasksRelay {
    fn show_active(&self, task: &Task, clock: u64) -> (r: String)
        ensures
            exists|start: ZoneView, since: ZoneView|
                is_zone(start) && is_zone(since) && r@ == #[trigger] self@.active_text(
                    task@,
                    clock,
                    start,
                    since,
                ),
    {
        let now: u64 = now_at(clock);
        let mut ids: Vec<EventId> = Vec::new();
        ids.push(task.get_id());
        assert(ids@ =~= seq![task@.event.id]);
        let events: Vec<Event> = self.get_own_events_history();
        let stamps: Vec<(u64, Option<EventId>)> = timestamps(&events, &ids);
        let ghost mut start: ZoneView = (None, LocalTime { secs: 0, nanos: 0, offset: 0 });
        let from: String = match find_start(&stamps, now) {
            Some(t) => {
                let from: String = format_timestamp_relative(t);
                proof {
                    start = choose|offset: Option<i32>, now: LocalTime|
                        is_clock_time(now) && from@ == #[trigger] stamp_relative_text(
                            t,
                            offset,
                            now,
                        );
                }
                from
            },
            None => "?".to_string(),
        };
        let state: StateChange = task.state_or_default_at(now);
        let at: String = format_timestamp_relative(state.get_timestamp());
        let ghost since: ZoneView = choose|offset: Option<i32>, now: LocalTime|
            is_clock_time(now) && at@ == #[trigger] stamp_relative_text(state.time, offset, now);
        let minutes: String = to_decimal(self.time_tracked_at(task.get_id(), clock) / 60);
        let state_text: String = state.to_string();
        let mut r: String = "Active from ".to_string();
        r.append(from.as_str());
        r.append(" (total tracked time ");
        r.append(minutes.as_str());
        r.append("m) - ");
        r.append(state_text.as_str());
        r.append(" since ");
        r.append(at.as_str());
        r.append("\n");
        assert(r@ =~= self@.active_text(task@, clock, start, since));
        r
    }

    fn show_head(&self, clock: u64) -> (r: String)
        ensures
            exists|start: ZoneView, since: ZoneView|
                is_zone(start) && is_zone(since) && r@ == #[trigger] self@.head_text(
                    clock,
                    start,
                    since,
                ),
    {
        match self.get_current_task_at(clock) {
            Some(t) => {
                let mut r: String = self.show_active(t, clock);
                let ghost (start, since) = choose|start: ZoneView, since: ZoneView|
                    is_zone(start) && is_zone(since) && r@ == #[trigger] self@.active_text(
                        t@,
                        clock,
                        start,
                        since,
                    );
                let notes: Vec<String> = t.descriptions();
                push_lines_back(&mut r, &notes);
                r.append("\n");
                assert(r@ == self@.head_text(clock, start, since));
                r
            },
            None => {
                let r: String = String::new();
                proof {
                    let zone: ZoneView = (None, LocalTime { secs: 0, nanos: 0, offset: 0 });
                    assert(is_zone(zone) && r@ == self@.head_text(clock, zone, zone));
                }
                r
            },
        }
    }

    fn show_row(&self, task: &Task, clock: u64) -> (r: String)
        ensures
            self@.is_row(task@, clock, r@),
    {
        broadcast use group_views;

        let mut cells: Vec<String> = Vec::new();
        let mut i: usize = 0;
        while i < self.properties.len()
            invariant
                0 <= i <= self.properties.len(),
                cells.len() == i,
                forall|k: int|
                    0 <= k < i ==> self@.shows(
                        task@,
                        self@.properties[k],
                        clock,
                        #[trigger] views(cells@)[k],
                    ),
            decreases self.properties.len() - i,
        {
            let ghost before = views(cells@);
            let cell: String = self.get_property_at(task, self.properties[i].as_str(), clock);
            assert(self@.properties[i as int] == self.properties@[i as int]@);
            cells.push(cell);
            assert(views(cells@) =~= before.push(cell@));
            assert forall|k: int| 0 <= k < i + 1 implies self@.shows(
                task@,
                self@.properties[k],
                clock,
                #[trigger] views(cells@)[k],
            ) by {
                if k < i {
                    assert(views(cells@)[k] == before[k]);
                }
            }
            i += 1;
        }
        let r: String = join(&cells, " \t");
        assert(r@ == joined(views(cells@), " \t"@));
        r
    }

    fn show_rows(&self, at: &Vec<usize>, clock: u64) -> (r: Vec<String>)
        requires
            within(at@, self.tasks.len() as int),
        ensures
            self@.are_rows(places(at@), clock, views(r@)),
    {
        broadcast use group_views;

        let ghost all = places(at@);
        let mut r: Vec<String> = Vec::new();
        let mut i: usize = 0;
        while i < at.len()
            invariant
                0 <= i <= at.len(),
                within(at@, self.tasks.len() as int),
                all == places(at@),
                r.len() == i,
                forall|k: int|
                    0 <= k < i ==> self@.is_row(
                        self@.tasks[all[k]],
                        clock,
                        #[trigger] views(r@)[k],
                    ),
            decreases at.len() - i,
        {
            let ghost before = views(r@);
            let row: String = self.show_row(&self.tasks[at[i]], clock);
            assert(self@.tasks[all[i as int]] == self.tasks@[at@[i as int] as int]@);
            r.push(row);
            assert(views(r@) =~= before.push(row@));
            assert forall|k: int| 0 <= k < i + 1 implies self@.is_row(
                self@.tasks[all[k]],
                clock,
                #[trigger] views(r@)[k],
            ) by {
                if k < i {
                    assert(views(r@)[k] == before[k]);
                }
            }
            i += 1;
        }
        r
    }

    fn sum_times(&self, at: &Vec<usize>, clock: u64) -> (r: u64)
        requires
            within(at@, self.tasks.len() as int),
        ensures
            r == self@.time_shown(places(at@), clock),
    {
        let ghost all = places(at@);
        let mut r: u64 = 0;
        let mut i: usize = 0;
        assert(all.take(0) =~= Seq::<int>::empty());
        while i < at.len()
            invariant
                0 <= i <= at.len(),
                within(at@, self.tasks.len() as int),
                all == places(at@),
                r == self@.time_shown(all.take(i as int), clock),
            decreases at.len() - i,
        {
            assert(all.take(i + 1).drop_last() =~= all.take(i as int));
            assert(all.take(i + 1).last() == at@[i as int]);
            assert(self@.tasks[at@[i as int] as int] == self.tasks@[at@[i as int] as int]@);
            r = r.saturating_add(
                self.total_time_tracked_at(self.tasks[at[i]].get_id(), clock),
            );
            i += 1;
        }
        assert(all.take(at@.len() as int) =~= all);
        r
    }

    fn show_nothing(&self, clock: u64) -> (r: String)
        ensures
            exists|overview: Seq<char>|
                self@.is_overview(6, clock, overview) && r@ == #[trigger] self@.nothing_text(
                    clock,
                    overview,
                ),
    {
        let mut r: String = String::new();
        let position: Option<EventId> = self.position(clock);
        let below: Vec<usize> = children_for(&self.tasks, position);
        assert(places(below@).len() == below@.len());
        if below.len() > 0 {
            let suffix: String = self.get_prompt_suffix();
            r.append("No tasks here matching");
            r.append(suffix.as_str());
            r.append("\n");
        }
        let overview: String = self.times_tracked_at(6, clock);
        r.append(overview.as_str());
        r.append("\n");
        assert(r@ =~= self@.nothing_text(clock, overview@));
        r
    }

    fn show_quick(&self, clock: u64, keys: &Vec<Vec<String>>, visible: &Vec<usize>) -> (r: String)
        requires
            keys.len() == self.tasks.len(),
            within(visible@, self.tasks.len() as int),
            places(visible@) == self@.viewed(clock, table(keys@)),
        ensures
            exists|rows: Seq<Seq<char>>, on: bool|
                {
                    &&& self@.view.len() == 0 ==> self@.are_rows(
                        self@.quick_places(clock, table(keys@), self@.viewed(clock, table(keys@))),
                        clock,
                        rows,
                    )
                    &&& r@ == #[trigger] self@.quick_text(clock, table(keys@), rows, on)
                },
    {
        let mut r: String = String::new();
        if self.view.len() > 0 {
            assert(r@ == self@.quick_text(clock, table(keys@), Seq::empty(), false));
            return r;
        }
        let quick: Vec<usize> = self.bookmarked_tasks_deduped(clock, keys, visible);
        assert(places(quick@).len() == quick@.len());
        let rows: Vec<String> = self.show_rows(&quick, clock);
        if quick.len() == 0 {
            assert(r@ == self@.quick_text(clock, table(keys@), views(rows@), false));
            return r;
        }
        let title: String = bold("Quick Access");
        let ghost on = choose|on: bool| title@ == #[trigger] painted("1"@, "Quick Access"@, on);
        r.append(title.as_str());
        r.append("\n");
        push_lines(&mut r, &rows);
        assert(r@ =~= self@.quick_text(clock, table(keys@), views(rows@), on));
        r
    }

    fn show_table(&self, visible: &Vec<usize>, clock: u64) -> (r: String)
        requires
            within(visible@, self.tasks.len() as int),
        ensures
            exists|rows: Seq<Seq<char>>, on: bool|
                self@.are_rows(places(visible@), clock, rows) && r@ == #[trigger] self@.table_text(
                    places(visible@),
                    clock,
                    rows,
                    on,
                ),
    {
        let header: String = join(&self.properties, " \t");
        let mut r: String = bold(header.as_str());
        let ghost on = choose|on: bool| r@ == #[trigger] painted("1"@, header@, on);
        r.append("\n");
        let rows: Vec<String> = self.show_rows(visible, clock);
        push_lines(&mut r, &rows);
        let count: String = to_decimal(visible.len() as u64);
        r.append(count.as_str());
        r.append(" visible tasks");
        let time: String = display_time(
            " tracked a total of HHhMMm",
            self.sum_times(visible, clock),
        );
        r.append(time.as_str());
        r.append("\n");
        assert(places(visible@).len() == visible@.len());
        assert(r@ =~= self@.table_text(places(visible@), clock, views(rows@), on));
        r
    }

    /// What is shown at the given time, sorted by the given keys.
    pub fn to_string_at(&self, clock: u64, keys: &Vec<Vec<String>>) -> (r: String)
        requires
            keys.len() == self.tasks.len(),
        ensures
            self@.is_display(clock, table(keys@), r@),
    {
        let mut r: String = self.show_head(clock);
        let ghost (start, since) = choose|start: ZoneView, since: ZoneView|
            is_zone(start) && is_zone(since) && r@ == #[trigger] self@.head_text(
                clock,
                start,
                since,
            );
        let ghost shown = ShownView {
            start,
            since,
            overview: Seq::empty(),
            quick: Seq::empty(),
            rows: Seq::empty(),
            title_on: false,
            header_on: false,
        };
        let ghost sorting = table(keys@);
        let visible: Vec<usize> = self.viewed_places(clock, keys);
        let ghost at = places(visible@);
        assert(at.len() == visible@.len());
        if visible.len() == 0 {
            let body: String = self.show_nothing(clock);
            r.append(body.as_str());
            proof {
                let overview = choose|overview: Seq<char>|
                    self@.is_overview(6, clock, overview) && body@
                        == #[trigger] self@.nothing_text(clock, overview);
                let shown = ShownView { overview, ..shown };
                assert(self@.may_show(clock, sorting, shown));
                assert(r@ == self@.display(clock, sorting, shown));
            }
            return r;
        }
        let top: String = self.show_quick(clock, keys, &visible);
        let body: String = self.show_table(&visible, clock);
        let ghost head = r@;
        r.append(top.as_str());
        r.append(body.as_str());
        proof {
            let (quick, title_on) = choose|rows: Seq<Seq<char>>, on: bool|
                {
                    &&& self@.view.len() == 0 ==> self@.are_rows(
                        self@.quick_places(clock, sorting, self@.viewed(clock, sorting)),
                        clock,
                        rows,
                    )
                    &&& top@ == #[trigger] self@.quick_text(clock, sorting, rows, on)
                };
            let (rows, header_on) = choose|rows: Seq<Seq<char>>, on: bool|
                self@.are_rows(at, clock, rows) && body@ == #[trigger] self@.table_text(
                    at,
                    clock,
                    rows,
                    on,
                );
            let shown = ShownView { quick, rows, title_on, header_on, ..shown };
            assert(self@.may_show(clock, sorting, shown));
            assert(head + top@ + body@ =~= head + (top@ + body@));
            assert(r@ == self@.display(clock, sorting, shown));
        }
        r
    }

    pub fn to_string(&self) -> (r: String)
        ensures
            exists|clock: u64, keys: KeysView|
                self@.are_keys(clock, keys) && #[trigger] self@.is_display(clock, keys, r@),
    {
        let now: u64 = clock();
        let keys: Vec<Vec<String>> = self.sorting_keys(now);
        self.to_string_at(now, &keys)
    }
}

// ---------------------------------------------------------------------------
// Lists

/// What an event has changed.
pub open spec fn change_text(event: EventView) -> Seq<char> {
    match state_of_kind(event.kind) {
        Some(state) => "State: "@ + state.text() + (if event.content.len() == 0 {
            Seq::empty()
        } else {
            " - "@ + event.content
        }),
        None => event.content,
    }
}

impl RelayView {
    /// The task that a tag refers to with a marker of interest, or the tag itself.
    pub open spec fn change_tag(self, tag: TagView, clock: u64, sep: Seq<char>) -> Option<Seq<char>> {
        match event_ref(tag) {
            Some(r) => match r.marker {
                Some(m) => if m != MARKER_PROPERTY@ {
                    Some(m + ": "@ + self.relative_path_by(r.id, clock, sep))
                } else {
                    None
                },
                None => None,
            },
            None => Some(basic_tag_text(tag)),
        }
    }

    pub open spec fn change_tags(self, tags: Seq<TagView>, clock: u64, sep: Seq<char>) -> Seq<
        Seq<char>,
    >
        decreases tags.len(),
    {
        if tags.len() == 0 {
            Seq::empty()
        } else {
            let before = self.change_tags(tags.drop_last(), clock, sep);
            match self.change_tag(tags.last(), clock, sep) {
                Some(t) => before.push(t),
                None => before,
            }
        }
    }

    pub open spec fn change_line(
        self,
        event: EventView,
        clock: u64,
        sep: Seq<char>,
        offset: Option<i32>,
    ) -> Seq<char> {
        stamp_text(event.created_at, FULL_FORMAT@, offset) + " "@ + change_text(event) + " ["@
            + joined(self.change_tags(event.tags, clock, sep), ", "@) + "]"@
    }

    /// Whether a line tells of a change.
    pub open spec fn is_change_line(self, event: EventView, clock: u64, line: Seq<char>) -> bool {
        exists|on: bool, offset: Option<i32>|
            line == #[trigger] self.change_line(event, clock, separator(on), offset)
    }

    /// Where the user was before, with the number of steps back.
    pub open spec fn back_line(self, past: Seq<EventView>, steps: int, sep: Seq<char>) -> Seq<char> {
        "("@ + decimal(steps as nat) + ") "@ + (match first_ref(past[steps]) {
            Some(id) => self.path_by(Some(id), sep),
            None => "---"@,
        })
    }

    /// The last eight places before the current.
    pub open spec fn back_lines(self, now: u64, sep: Seq<char>) -> Seq<Seq<char>> {
        let past = self.past(now);
        let len = if past.len() > 9 {
            9
        } else {
            past.len() as int
        };
        Seq::new(
            if len > 0 {
                (len - 1) as nat
            } else {
                0
            },
            |i: int| self.back_line(past, i + 1, sep),
        )
    }
}

fn show_change(event: &Event) -> (r: String)
    ensures
        r@ == change_text(event@),
{
    let state: Result<State, ()> = State::try_from(event.kind);
    match state {
        Ok(state) => {
            let mut r: String = "State: ".to_string();
            let name: String = state.to_string();
            r.append(name.as_str());
            if !event.content.as_str().is_empty() {
                r.append(" - ");
                r.append(event.content.as_str());
            }
            assert(r@ =~= change_text(event@));
            r
        },
        Err(_) => event.content.clone(),
    }
}

impl TasksRelay {
    fn show_change_tags(&self, tags: &Vec<Tag>, clock: u64, sep: &str) -> (r: Vec<String>)
        ensures
            views(r@) == self@.change_tags(views(tags@), clock, sep@),
    {
        broadcast use group_views;

        let ghost all = views(tags@);
        let mut r: Vec<String> = Vec::new();
        let mut i: usize = 0;
        assert(all.take(0) =~= Seq::<TagView>::empty());
        while i < tags.len()
            invariant
                0 <= i <= tags.len(),
                all == views(tags@),
                views(r@) == self@.change_tags(all.take(i as int), clock, sep@),
            decreases tags.len() - i,
        {
            assert(all.take(i + 1).drop_last() =~= all.take(i as int));
            assert(all.take(i + 1).last() == tags@[i as int]@);
            match match_event_tag(&tags[i]) {
                Some(t) => match t.marker {
                    Some(m) => {
                        if !same_text(m.as_str(), MARKER_PROPERTY) {
                            let path: String = self.get_relative_path_with(t.id, clock, sep);
                            let mut text: String = m;
                            text.append(": ");
                            text.append(path.as_str());
                            r.push(text);
                        }
                    },
                    None => {},
                },
                None => {
                    r.push(format_tag_basic(&tags[i]));
                },
            }
            i += 1;
        }
        assert(all.take(tags@.len() as int) =~= all);
        r
    }

    fn show_change_line(&self, event: &Event, clock: u64) -> (r: String)
        ensures
            self@.is_change_line(event@, clock, r@),
    {
        let sep: String = dimmed(">");
        let ghost on = choose|on: bool| sep@ == #[trigger] painted("2"@, ">"@, on);
        let mut r: String = format_timestamp_full(event.created_at);
        let ghost offset = choose|offset: Option<i32>|
            r@ == #[trigger] stamp_text(event.created_at, FULL_FORMAT@, offset);
        let change: String = show_change(event);
        let tags: Vec<String> = self.show_change_tags(&event.tags, clock, sep.as_str());
        let tags: String = join(&tags, ", ");
        r.append(" ");
        r.append(change.as_str());
        r.append(" [");
        r.append(tags.as_str());
        r.append("]");
        assert(r@ =~= self@.change_line(event@, clock, separator(on), offset));
        r
    }

    /// A line for each event of a task, in chronological order.
    pub fn change_history(&self, task: &Task, clock: u64) -> (r: Vec<String>)
        ensures
            r@.len() == 1 + task@.props.len(),
            self@.is_change_line(task@.event, clock, r@[0]@),
            forall|i: int|
                1 <= i < r@.len() ==> self@.is_change_line(
                    task@.props[task@.props.len() - i],
                    clock,
                    #[trigger] r@[i]@,
                ),
    {
        let events: Vec<&Event> = task.all_events();
        let mut r: Vec<String> = Vec::new();
        let mut i: usize = 0;
        while i < events.len()
            invariant
                0 <= i <= events.len(),
                r.len() == i,
                forall|k: int|
                    0 <= k < i ==> self@.is_change_line(events@[k]@, clock, #[trigger] r@[k]@),
            decreases events.len() - i,
        {
            r.push(self.show_change_line(events[i], clock));
            i += 1;
        }
        r
    }

    /// The last eight places before the current.
    pub fn back_list(&self, clock: u64) -> (r: Vec<String>)
        ensures
            exists|on: bool| views(r@) == #[trigger] self@.back_lines(now_of(clock), separator(on)),
    {
        broadcast use group_views;

        let sep: String = dimmed(">");
        let ghost on = choose|on: bool| sep@ == #[trigger] painted("2"@, ">"@, on);
        let past: Vec<Event> = self.history_before(now_at(clock));
        let ghost events = views(past@);
        let ghost all = self@.back_lines(now_of(clock), separator(on));
        let mut r: Vec<String> = Vec::new();
        let mut i: usize = 1;
        assert(all.take(0) =~= Seq::<Seq<char>>::empty());
        while i < past.len() && i < 9
            invariant
                1 <= i <= 9,
                i <= past.len() || i == 1,
                events == views(past@),
                events == self@.past(now_of(clock)),
                sep@ == separator(on),
                all == self@.back_lines(now_of(clock), separator(on)),
                views(r@) == all.take(i - 1),
            decreases 9 - i,
        {
            assert(events[i as int] == past@[i as int]@);
            let mut line: String = "(".to_string();
            let steps: String = to_decimal(i as u64);
            line.append(steps.as_str());
            line.append(") ");
            match referenced_event(&past[i]) {
                Some(id) => {
                    let path: String = self.get_task_path_with(Some(id), sep.as_str());
                    line.append(path.as_str());
                },
                None => {
                    line.append("---");
                },
            }
            assert(line@ =~= self@.back_line(events, i as int, sep@));
            r.push(line);
            assert(all.take(i - 1).push(all[i - 1]) =~= all.take(i as int));
            i += 1;
        }
        assert(all.take(i - 1) =~= all);
        r
    }
}

// ---------------------------------------------------------------------------
// Prompt

/// What the terminal takes of the parts of the prompt.
#[verifier::ext_equal]
pub struct PromptView {
    pub relay_on: bool,
    pub path_on: bool,
    pub separator_on: bool,
    pub context_on: bool,
    pub end_on: bool,
}

impl RelayView {
    /// The relay, whose tasks are shown, the active task and what is filtered by.
    pub open spec fn prompt(self, relay: Seq<char>, clock: u64, shown: PromptView) -> Seq<char> {
        painted("2"@, relay, shown.relay_on) + (match self.pubkey_text() {
            Some(name) => " @"@ + name,
            None => Seq::empty(),
        }) + " "@ + painted("1"@, self.path(self.position(clock), shown.separator_on), shown.path_on)
            + painted("3"@, self.prompt_suffix(), shown.context_on) + painted(
            "2"@,
            "❯ "@,
            shown.end_on,
        )
    }
}

impl TasksRelay {
    pub fn prompt_at(&self, relay: &str, clock: u64) -> (r: String)
        ensures
            exists|shown: PromptView| r@ == #[trigger] self@.prompt(relay@, clock, shown),
    {
        let mut r: String = dimmed(relay);
        let ghost relay_on = choose|on: bool| r@ == #[trigger] painted("2"@, relay@, on);
        match self.pubkey_str() {
            Some(name) => {
                r.append(" @");
                r.append(name.as_str());
            },
            None => {},
        }
        r.append(" ");
        let position: Option<EventId> = self.position(clock);
        let path: String = self.get_task_path(position);
        let ghost separator_on = choose|on: bool| path@ == #[trigger] self@.path(position, on);
        let shown_path: String = bold(path.as_str());
        let ghost path_on = choose|on: bool| shown_path@ == #[trigger] painted("1"@, path@, on);
        let context: String = self.get_prompt_suffix();
        let shown_context: String = italic(context.as_str());
        let ghost context_on = choose|on: bool|
            shown_context@ == #[trigger] painted("3"@, context@, on);
        let end: String = dimmed("❯ ");
        let ghost end_on = choose|on: bool| end@ == #[trigger] painted("2"@, "❯ "@, on);
        r.append(shown_path.as_str());
        r.append(shown_context.as_str());
        r.append(end.as_str());
        proof {
            let shown = PromptView { relay_on, path_on, separator_on, context_on, end_on };
            assert(r@ =~= self@.prompt(relay@, clock, shown));
        }
        r
    }

    pub fn prompt(&self, relay: &str) -> (r: String)
        ensures
            exists|clock: u64, shown: PromptView|
                r@ == #[trigger] self@.prompt(relay@, clock, shown),
    {
        let now: u64 = clock();
        let r: String = self.prompt_at(relay, now);
        proof {
            let shown = choose|shown: PromptView| r@ == #[trigger] self@.prompt(relay@, now, shown);
            assert(r@ == self@.prompt(relay@, now, shown));
        }
        r
    }
}

} // verus!
