//! What has been tracked, as it is listed.

use crate::helpers::{non_empty, some_non_empty};
use crate::lists::{group_views, sort, sorted, views};
use crate::nostr::{event_id_of, tag_content, Event, EventId, EventView, PublicKey, Tag, TagView};
use crate::paint::{dimmed, italic, painted};
use crate::task::{debug_str, debug_text, string_option};
use crate::tasks::durations::{stamps_of, timestamps};
use crate::tasks::nostr_users::displayname;
use crate::tasks::property::separator;
use crate::tasks::{history_at, now_at, now_of, HistoryView, RelayView, TasksRelay};
use crate::text::{decimal, join, joined, same_text, to_decimal};
use crate::time::{
    choose_zone, clock, format_timestamp_local, format_timestamp_relative_to, is_clock_time,
    is_tracking_stamp_at, local_now, local_offset, parse_tracking_stamp_at, relative_format,
    stamp_text, zone_at, LocalTime, LOCAL_FORMAT,
};
use vstd::prelude::*;

verus! {

/// How far the local clock is from UTC at the two ends of an interval.
pub type OffsetsView = (Option<i32>, Option<i32>);

pub type StampsView = Seq<(u64, Option<EventId>)>;

// ---------------------------------------------------------------------------
// History of a user

impl RelayView {
    /// The path of the task that a text refers to, or the text itself.
    pub open spec fn place_name(self, content: Seq<char>, sep: Seq<char>) -> Seq<char> {
        match event_id_of(content) {
            Some(id) => self.path_by(Some(id), sep),
            None => content,
        }
    }

    pub open spec fn place_names(self, tags: Seq<TagView>, sep: Seq<char>) -> Seq<Seq<char>>
        decreases tags.len(),
    {
        if tags.len() == 0 {
            Seq::empty()
        } else {
            let before = self.place_names(tags.drop_last(), sep);
            match tag_content(tags.last()) {
                Some(content) => before.push(self.place_name(content, sep)),
                None => before,
            }
        }
    }

    /// Where an event says that the user is, if anywhere.
    pub open spec fn place(self, event: EventView, sep: Seq<char>) -> Option<Seq<char>> {
        non_empty(joined(self.place_names(event.tags, sep), " "@))
    }

    /// Where the last of the events has led.
    pub open spec fn last_place(self, events: Seq<EventView>, sep: Seq<char>) -> Option<Seq<char>> {
        if events.len() == 0 {
            None
        } else {
            self.place(events.last(), sep)
        }
    }

    /// A line for each change of place.
    pub open spec fn history_lines(
        self,
        events: Seq<EventView>,
        sep: Seq<char>,
        offsets: Seq<Option<i32>>,
    ) -> Seq<Seq<char>>
        decreases events.len(),
    {
        if events.len() == 0 {
            Seq::empty()
        } else {
            let before = self.history_lines(events.drop_last(), sep, offsets);
            let place = self.place(events.last(), sep);
            if place != self.last_place(events.drop_last(), sep) {
                before.push(
                    stamp_text(events.last().created_at, LOCAL_FORMAT@, offsets[events.len() - 1])
                        + " "@ + (match place {
                        Some(p) => p,
                        None => "---"@,
                    }),
                )
            } else {
                before
            }
        }
    }

    /// Whether the lines list the changes of place in the events, for some terminal and time
    /// zone.
    pub open spec fn are_history_lines(
        self,
        events: Seq<EventView>,
        lines: Seq<Seq<char>>,
    ) -> bool {
        exists|on: bool, offsets: Seq<Option<i32>>|
            lines == #[trigger] self.history_lines(events, separator(on), offsets)
    }

    /// Whether the label and lines tell what a user has tracked.
    pub open spec fn are_times_for(
        self,
        key: PublicKey,
        label: Seq<char>,
        lines: Seq<Seq<char>>,
    ) -> bool {
        let at = history_at(self.history, key);
        if at < self.history.len() {
            label == "Time-Tracking History for "@ + displayname(self.users, key) + ":"@
                && self.are_history_lines(self.history[at].1, lines)
        } else {
            label == "Nothing time-tracked yet"@ && lines == Seq::<Seq<char>>::empty()
        }
    }
}

// ---------------------------------------------------------------------------
// Times on a task

/// A line for each of the first intervals that takes more than two minutes.
pub open spec fn interval_lines(
    stamps: StampsView,
    name: Seq<char>,
    offsets: Seq<OffsetsView>,
    n: nat,
) -> Seq<Seq<char>>
    decreases n,
{
    if n == 0 {
        Seq::empty()
    } else {
        let before = interval_lines(stamps, name, offsets, (n - 1) as nat);
        let start = stamps[2 * n - 2].0;
        let end = stamps[2 * n - 1].0;
        let offset = offsets[n - 1];
        if start + 120 < end {
            before.push(
                stamp_text(start, LOCAL_FORMAT@, offset.0) + " - "@ + stamp_text(
                    end,
                    relative_format(end, start),
                    offset.1,
                ) + " by "@ + name,
            )
        } else {
            before
        }
    }
}

/// The intervals of a user, and the start of the one that is going on.
pub open spec fn user_lines(
    stamps: StampsView,
    name: Seq<char>,
    offsets: Seq<OffsetsView>,
) -> Seq<Seq<char>> {
    let ended = interval_lines(stamps, name, offsets, stamps.len() / 2);
    if stamps.len() % 2 == 1 {
        ended.push(
            stamp_text(stamps.last().0, LOCAL_FORMAT@, offsets[(stamps.len() / 2) as int].0)
                + " started by "@ + name,
        )
    } else {
        ended
    }
}

impl RelayView {
    /// The intervals on a task, user by user.
    pub open spec fn task_lines(
        self,
        history: HistoryView,
        id: EventId,
        offsets: Seq<Seq<OffsetsView>>,
    ) -> Seq<Seq<char>>
        decreases history.len(),
    {
        if history.len() == 0 {
            Seq::empty()
        } else {
            self.task_lines(history.drop_last(), id, offsets) + user_lines(
                stamps_of(history.last().1, seq![id]),
                displayname(self.users, history.last().0),
                offsets[history.len() - 1],
            )
        }
    }

    /// Whether the lines list the intervals on a task in order, for some time zone.
    pub open spec fn are_task_lines(self, id: EventId, lines: Seq<Seq<char>>) -> bool {
        exists|offsets: Seq<Seq<OffsetsView>>|
            lines == sorted::<String>(#[trigger] self.task_lines(self.history, id, offsets))
    }

    /// Whether the label and lines tell what was tracked on the active task or, without one, by a
    /// user.
    pub open spec fn are_times_with(
        self,
        key: PublicKey,
        clock: u64,
        label: Seq<char>,
        lines: Seq<Seq<char>>,
    ) -> bool {
        match self.position(clock) {
            None => self.are_times_for(key, label, lines),
            Some(id) => label == "Times Tracked on "@ + debug_text(self.task_title(id))
                && self.are_task_lines(id, lines),
        }
    }

    /// Whether the text is an overview of the given number of entries.
    pub open spec fn is_overview(self, limit: usize, clock: u64, text: Seq<char>) -> bool {
        exists|label: Seq<char>, lines: Seq<Seq<char>>, on: bool|
            self.are_times_with(self.sender.key, clock, label, lines) && text
                == #[trigger] overview_text(limit, label, lines, on)
    }
}

/// What comes before the label of that many of the entries.
pub open spec fn extent(limit: usize, len: nat) -> Seq<char> {
    if limit > len || limit == usize::MAX {
        "All "@
    } else if limit < 20 {
        "Recent "@
    } else {
        "Latest "@ + decimal(limit as nat) + " Entries of "@
    }
}

/// The label and the latest of the lines.
pub open spec fn overview_text(
    limit: usize,
    label: Seq<char>,
    lines: Seq<Seq<char>>,
    on: bool,
) -> Seq<char> {
    let title = if lines.len() == 0 {
        label
    } else {
        extent(limit, lines.len()) + label
    };
    let latest = if lines.len() > limit {
        lines.skip(lines.len() - limit)
    } else {
        lines
    };
    painted("3"@, title, on) + "\n"@ + joined(latest, "\n"@)
}

// ---------------------------------------------------------------------------
// Listing

fn push_interval(lines: &mut Vec<String>, start: u64, end: u64, name: &str) -> (r: Ghost<OffsetsView>)
    ensures
        views(final(lines)@) == views(old(lines)@).push(
            stamp_text(start, LOCAL_FORMAT@, r@.0) + " - "@ + stamp_text(
                end,
                relative_format(end, start),
                r@.1,
            ) + " by "@ + name@,
        ),
{
    broadcast use group_views;

    let mut line: String = format_timestamp_local(start);
    let ghost a = choose|offset: Option<i32>|
        line@ == #[trigger] stamp_text(start, LOCAL_FORMAT@, offset);
    let until: String = format_timestamp_relative_to(end, start);
    let ghost b = choose|offset: Option<i32>|
        until@ == #[trigger] stamp_text(end, relative_format(end, start), offset);
    line.append(" - ");
    line.append(until.as_str());
    line.append(" by ");
    line.append(name);
    lines.push(line);
    Ghost((a, b))
}

proof fn lemma_interval_lines(
    stamps: StampsView,
    name: Seq<char>,
    a: Seq<OffsetsView>,
    b: Seq<OffsetsView>,
    n: nat,
)
    requires
        n <= a.len(),
        n <= b.len(),
        forall|i: int| 0 <= i < n ==> a[i] == b[i],
    ensures
        interval_lines(stamps, name, a, n) == interval_lines(stamps, name, b, n),
    decreases n,
{
    if n > 0 {
        lemma_interval_lines(stamps, name, a, b, (n - 1) as nat);
    }
}

fn list_intervals(stamps: &Vec<(u64, Option<EventId>)>, name: &str) -> (r: (
    Vec<String>,
    Ghost<Seq<OffsetsView>>,
))
    ensures
        views(r.0@) == user_lines(stamps@, name@, r.1@),
{
    broadcast use group_views;

    let mut lines: Vec<String> = Vec::new();
    let ghost mut offsets: Seq<OffsetsView> = Seq::empty();
    let mut i: usize = 0;
    while i < stamps.len() / 2
        invariant
            0 <= i <= stamps.len() / 2,
            offsets.len() == i,
            views(lines@) == interval_lines(stamps@, name@, offsets, i as nat),
        decreases stamps.len() / 2 - i,
    {
        let start: u64 = stamps[2 * i].0;
        let end: u64 = stamps[2 * i + 1].0;
        let ghost before = offsets;
        if start < end && end - start > 120 {
            let offset: Ghost<OffsetsView> = push_interval(&mut lines, start, end, name);
            proof {
                offsets = offsets.push(offset@);
            }
        } else {
            proof {
                offsets = offsets.push((None, None));
            }
        }
        proof {
            lemma_interval_lines(stamps@, name@, before, offsets, i as nat);
        }
        i += 1;
    }
    if stamps.len() % 2 == 1 {
        let stamp: u64 = stamps[stamps.len() - 1].0;
        let mut line: String = format_timestamp_local(stamp);
        let ghost a = choose|offset: Option<i32>|
            line@ == #[trigger] stamp_text(stamp, LOCAL_FORMAT@, offset);
        line.append(" started by ");
        line.append(name);
        lines.push(line);
        let ghost before = offsets;
        proof {
            offsets = offsets.push((a, None));
            lemma_interval_lines(stamps@, name@, before, offsets, i as nat);
        }
    }
    (lines, Ghost(offsets))
}

proof fn lemma_task_lines(
    relay: RelayView,
    history: HistoryView,
    id: EventId,
    a: Seq<Seq<OffsetsView>>,
    b: Seq<Seq<OffsetsView>>,
)
    requires
        history.len() <= a.len(),
        history.len() <= b.len(),
        forall|i: int| 0 <= i < history.len() ==> a[i] == b[i],
    ensures
        relay.task_lines(history, id, a) == relay.task_lines(history, id, b),
    decreases history.len(),
{
    if history.len() > 0 {
        lemma_task_lines(relay, history.drop_last(), id, a, b);
    }
}

proof fn lemma_history_lines(
    relay: RelayView,
    events: Seq<EventView>,
    sep: Seq<char>,
    a: Seq<Option<i32>>,
    b: Seq<Option<i32>>,
)
    requires
        events.len() <= a.len(),
        events.len() <= b.len(),
        forall|i: int| 0 <= i < events.len() ==> a[i] == b[i],
    ensures
        relay.history_lines(events, sep, a) == relay.history_lines(events, sep, b),
    decreases events.len(),
{
    if events.len() > 0 {
        lemma_history_lines(relay, events.drop_last(), sep, a, b);
    }
}

fn same_place(a: &Option<String>, b: &Option<String>) -> (r: bool)
    ensures
        r == (string_option(*a) == string_option(*b)),
{
    match (a, b) {
        (Some(x), Some(y)) => same_text(x.as_str(), y.as_str()),
        (None, None) => true,
        _ => false,
    }
}

impl TasksRelay {
    fn name_places(&self, tags: &Vec<Tag>, sep: &str) -> (r: Vec<String>)
        ensures
            views(r@) == self@.place_names(views(tags@), sep@),
    {
        broadcast use group_views;

        let ghost all = views(tags@);
        let mut r: Vec<String> = Vec::new();
        let mut i: usize = 0;
        assert(all.take(0) =~= Seq::<TagView>::empty());
        while i < tags.len()
            invariant
                0 <= i <= tags.len(),
                all == views(tags@),
                views(r@) == self@.place_names(all.take(i as int), sep@),
            decreases tags.len() - i,
        {
            assert(all.take(i + 1).drop_last() =~= all.take(i as int));
            assert(all.take(i + 1).last() == tags@[i as int]@);
            match tags[i].content() {
                Some(content) => {
                    let name: String = match EventId::parse(content.as_str()) {
                        Some(id) => self.get_task_path_with(Some(id), sep),
                        None => content.clone(),
                    };
                    r.push(name);
                },
                None => {},
            }
            i += 1;
        }
        assert(all.take(tags@.len() as int) =~= all);
        r
    }

    fn name_place(&self, event: &Event, sep: &str) -> (r: Option<String>)
        ensures
            string_option(r) == self@.place(event@, sep@),
    {
        let names: Vec<String> = self.name_places(&event.tags, sep);
        let name: String = join(&names, " ");
        some_non_empty(name.as_str())
    }

    fn list_history(&self, events: &Vec<Event>) -> (r: Vec<String>)
        ensures
            self@.are_history_lines(views(events@), views(r@)),
    {
        broadcast use group_views;

        let sep: String = dimmed(">");
        let ghost on = choose|on: bool| sep@ == #[trigger] painted("2"@, ">"@, on);
        let ghost all = views(events@);
        let mut r: Vec<String> = Vec::new();
        let mut last: Option<String> = None;
        let ghost mut offsets: Seq<Option<i32>> = Seq::empty();
        let mut i: usize = 0;
        assert(all.take(0) =~= Seq::<EventView>::empty());
        while i < events.len()
            invariant
                0 <= i <= events.len(),
                all == views(events@),
                offsets.len() == i,
                views(r@) == self@.history_lines(all.take(i as int), sep@, offsets),
                string_option(last) == self@.last_place(all.take(i as int), sep@),
            decreases events.len() - i,
        {
            let ghost seen = all.take(i as int);
            assert(all.take(i + 1).drop_last() =~= seen);
            assert(all.take(i + 1).last() == events@[i as int]@);
            let ghost before = offsets;
            let new: Option<String> = self.name_place(&events[i], sep.as_str());
            if !same_place(&new, &last) {
                let mut line: String = format_timestamp_local(events[i].created_at);
                let ghost a = choose|offset: Option<i32>|
                    line@ == #[trigger] stamp_text(
                        events@[i as int].created_at,
                        LOCAL_FORMAT@,
                        offset,
                    );
                line.append(" ");
                match &new {
                    Some(p) => line.append(p.as_str()),
                    None => line.append("---"),
                }
                r.push(line);
                proof {
                    offsets = offsets.push(a);
                }
            } else {
                proof {
                    offsets = offsets.push(None);
                }
            }
            proof {
                lemma_history_lines(self@, seen, sep@, before, offsets);
            }
            last = new;
            i += 1;
        }
        assert(all.take(events@.len() as int) =~= all);
        assert(views(r@) == self@.history_lines(all, separator(on), offsets));
        r
    }

    /// The changes of place of a user, if there are any.
    pub fn history_for(&self, key: &PublicKey) -> (r: Option<Vec<String>>)
        ensures
            ({
                let at = history_at(self@.history, *key);
                match r {
                    Some(lines) => at < self@.history.len() && self@.are_history_lines(
                        self@.history[at].1,
                        views(lines@),
                    ),
                    None => at == self@.history.len(),
                }
            }),
    {
        let at: usize = self.find_history(*key);
        if at < self.history.len() {
            Some(self.list_history(&self.history[at].events))
        } else {
            None
        }
    }

    pub fn times_tracked_for(&self, key: &PublicKey) -> (r: (String, Vec<String>))
        ensures
            self@.are_times_for(*key, r.0@, views(r.1@)),
    {
        broadcast use group_views;

        match self.history_for(key) {
            Some(lines) => {
                let mut label: String = "Time-Tracking History for ".to_string();
                let name: String = self.users.get_displayname(key);
                label.append(name.as_str());
                label.append(":");
                (label, lines)
            },
            None => ("Nothing time-tracked yet".to_string(), Vec::new()),
        }
    }

    fn list_task_times(&self, id: EventId) -> (r: Vec<String>)
        ensures
            self@.are_task_lines(id, views(r@)),
    {
        broadcast use group_views;

        let mut ids: Vec<EventId> = Vec::new();
        ids.push(id);
        assert(ids@ =~= seq![id]);
        let ghost all = self@.history;
        let mut lines: Vec<String> = Vec::new();
        let ghost mut offsets: Seq<Seq<OffsetsView>> = Seq::empty();
        let mut i: usize = 0;
        assert(all.take(0) =~= Seq::<(PublicKey, Seq<EventView>)>::empty());
        while i < self.history.len()
            invariant
                0 <= i <= self.history.len(),
                ids@ == seq![id],
                all == views(self.history@),
                offsets.len() == i,
                views(lines@) == self@.task_lines(all.take(i as int), id, offsets),
            decreases self.history.len() - i,
        {
            let ghost seen = all.take(i as int);
            assert(all.take(i + 1).drop_last() =~= seen);
            assert(all.take(i + 1).last() == self.history@[i as int]@);
            let stamps: Vec<(u64, Option<EventId>)> = timestamps(&self.history[i].events, &ids);
            let name: String = self.users.get_displayname(&self.history[i].key);
            let (own, own_offsets): (Vec<String>, Ghost<Seq<OffsetsView>>) = list_intervals(
                &stamps,
                name.as_str(),
            );
            let mut own: Vec<String> = own;
            lines.append(&mut own);
            let ghost before = offsets;
            proof {
                offsets = offsets.push(own_offsets@);
                lemma_task_lines(self@, seen, id, before, offsets);
            }
            i += 1;
        }
        assert(all.take(self.history@.len() as int) =~= all);
        let r: Vec<String> = sort(lines);
        assert(views(r@) == sorted::<String>(self@.task_lines(self@.history, id, offsets)));
        r
    }

    /// Time tracked for current position or key
    pub fn times_tracked_with_at(&self, key: &PublicKey, clock: u64) -> (r: (String, Vec<String>))
        ensures
            self@.are_times_with(*key, clock, r.0@, views(r.1@)),
    {
        match self.position(clock) {
            None => self.times_tracked_for(key),
            Some(id) => {
                let lines: Vec<String> = self.list_task_times(id);
                let mut label: String = "Times Tracked on ".to_string();
                let title: String = self.get_task_title(&id);
                let title: String = debug_str(title.as_str());
                label.append(title.as_str());
                (label, lines)
            },
        }
    }

    pub fn times_tracked_with(&self, key: &PublicKey) -> (r: (String, Vec<String>))
        ensures
            exists|clock: u64| #[trigger] self@.are_times_with(*key, clock, r.0@, views(r.1@)),
    {
        self.times_tracked_with_at(key, clock())
    }

    /// Dynamic time tracking overview for current task or current user.
    pub fn times_tracked_at(&self, limit: usize, clock: u64) -> (r: String)
        ensures
            self@.is_overview(limit, clock, r@),
    {
        broadcast use group_views;

        let (label, times): (String, Vec<String>) = self.times_tracked_with_at(
            &self.own_key(),
            clock,
        );
        let ghost lines = views(times@);
        let title: String = if times.len() == 0 {
            label.clone()
        } else {
            let mut title: String = if limit > times.len() || limit == usize::MAX {
                "All ".to_string()
            } else if limit < 20 {
                "Recent ".to_string()
            } else {
                let mut t: String = "Latest ".to_string();
                let n: String = to_decimal(limit as u64);
                t.append(n.as_str());
                t.append(" Entries of ");
                t
            };
            title.append(label.as_str());
            title
        };
        let mut r: String = italic(title.as_str());
        let ghost on = choose|on: bool| r@ == #[trigger] painted("3"@, title@, on);
        r.append("\n");
        let mut times: Vec<String> = times;
        if times.len() > limit {
            let from: usize = times.len() - limit;
            let latest: Vec<String> = times.split_off(from);
            assert(views(latest@) =~= lines.skip(from as int));
            times = latest;
        }
        let text: String = join(&times, "\n");
        r.append(text.as_str());
        assert(r@ == overview_text(limit, label@, lines, on));
        r
    }

    pub fn times_tracked(&self, limit: usize) -> (r: String)
        ensures
            exists|clock: u64| #[trigger] self@.is_overview(limit, clock, r@),
    {
        self.times_tracked_at(limit, clock())
    }
}

// ---------------------------------------------------------------------------
// Tracking

/// When the user came to their position, if they are anywhere.
pub open spec fn position_time(pos: (u64, Option<EventId>), offset: Option<i32>) -> Option<LocalTime> {
    match zone_at(pos.0 as i64, offset) {
        Some(o) => {
            let time = LocalTime { secs: pos.0 as i64, nanos: 0, offset: o };
            if pos.1 is Some && time.in_range() {
                Some(time)
            } else {
                None
            }
        },
        None => None,
    }
}

/// The time, if it is more than six hours ago.
pub open spec fn if_long_ago(time: Option<LocalTime>, now: LocalTime) -> Option<LocalTime> {
    match time {
        Some(t) => if now.secs - t.secs > 6 * 3600 || (now.secs - t.secs == 6 * 3600 && now.nanos
            > t.nanos) {
            Some(t)
        } else {
            None
        },
        None => None,
    }
}

impl RelayView {
    /// Whether a text can stand for a time to stop at when the local clock shows `now`: a plain
    /// hour comes after the user came to their position.
    pub open spec fn may_stop_at(
        self,
        text: Seq<char>,
        clock: u64,
        now: LocalTime,
        time: Option<u64>,
    ) -> bool {
        exists|offset: Option<i32>|
            is_tracking_stamp_at(
                text,
                #[trigger] position_time(self.position_at(now_of(clock), clock), offset),
                now,
                clock,
                time,
            )
    }

    /// Whether a text can stand for a time when the local clock shows `now`: a plain hour comes
    /// after the user came to their position, if that is some hours ago.
    pub open spec fn may_track_at(
        self,
        text: Seq<char>,
        clock: u64,
        now: LocalTime,
        time: Option<u64>,
    ) -> bool {
        exists|offset: Option<i32>|
            is_tracking_stamp_at(
                text,
                if_long_ago(
                    #[trigger] position_time(self.position_at(now_of(clock), clock), offset),
                    now,
                ),
                now,
                clock,
                time,
            )
    }

    /// The position is tracked from a time, if there is one, and whether that changes anything.
    pub open spec fn stamped(self, stamp: Option<u64>, clock: u64) -> (RelayView, bool) {
        match stamp {
            Some(time) => {
                let target = self.position(clock);
                (
                    self.tracking_at(time, target, clock),
                    !self.is_tracked_at(self.tracking_time(time, target), target, clock),
                )
            },
            None => (self, false),
        }
    }
}

/// When the user came to their position, if they are anywhere, where the local clock is `offset`
/// seconds from UTC.
pub fn since_position_at(pos: (u64, Option<EventId>), offset: Option<i32>) -> (r: Option<LocalTime>)
    ensures
        r == position_time(pos, offset),
{
    let secs: i64 = pos.0 as i64;
    match choose_zone(secs, offset) {
        Some(o) => {
            let time: LocalTime = LocalTime { secs, nanos: 0, offset: o };
            if pos.1.is_some() && time.is_in_range() {
                Some(time)
            } else {
                None
            }
        },
        None => None,
    }
}

fn since_position(pos: (u64, Option<EventId>)) -> (r: Option<LocalTime>)
    ensures
        exists|offset: Option<i32>| r == #[trigger] position_time(pos, offset),
        r matches Some(t) ==> t.in_range(),
{
    let offset: Option<i32> = local_offset(pos.0 as i64);
    let r: Option<LocalTime> = since_position_at(pos, offset);
    assert(r == position_time(pos, offset));
    r
}

/// Keeps the time if it is more than six hours ago.
pub fn keep_long_ago(time: Option<LocalTime>, now: LocalTime) -> (r: Option<LocalTime>)
    ensures
        r == if_long_ago(time, now),
{
    match time {
        Some(t) => {
            let ago: i128 = now.secs as i128 - t.secs as i128;
            if ago > 6 * 3600 || (ago == 6 * 3600 && now.nanos > t.nanos) {
                Some(t)
            } else {
                None
            }
        },
        None => None,
    }
}

impl TasksRelay {
    /// The time that a text means, seen from the given time: a plain hour after the user came to
    /// their position, if that is some hours ago.
    pub fn parse_tracking_stamp_relative_at(&self, input: &str, clock: u64, now: LocalTime) -> (r:
        Option<u64>)
        requires
            now.in_range(),
        ensures
            self@.may_track_at(input@, clock, now, r),
    {
        let pos: (u64, Option<EventId>) = self.get_position_at(now_at(clock), clock);
        let since: Option<LocalTime> = since_position(pos);
        let ghost offset = choose|offset: Option<i32>|
            since == #[trigger] position_time(pos, offset);
        let r: Option<u64> = parse_tracking_stamp_at(input, keep_long_ago(since, now), now, clock);
        assert(is_tracking_stamp_at(
            input@,
            if_long_ago(position_time(pos, offset), now),
            now,
            clock,
            r,
        ));
        r
    }

    pub fn parse_tracking_stamp_relative(&self, input: &str) -> (r: Option<u64>)
        ensures
            exists|clock: u64, now: LocalTime|
                is_clock_time(now) && #[trigger] self@.may_track_at(input@, clock, now, r),
    {
        let stamp: u64 = clock();
        let now: LocalTime = local_now();
        let r: Option<u64> = self.parse_tracking_stamp_relative_at(input, stamp, now);
        assert(is_clock_time(now) && self@.may_track_at(input@, stamp, now, r));
        r
    }

    /// The time that a text means, seen from the given time: a plain hour after the user came to
    /// their position.
    pub fn parse_stop_at(&self, input: &str, clock: u64, now: LocalTime) -> (r: Option<u64>)
        requires
            now.in_range(),
        ensures
            self@.may_stop_at(input@, clock, now, r),
    {
        let pos: (u64, Option<EventId>) = self.get_position_at(now_at(clock), clock);
        let since: Option<LocalTime> = since_position(pos);
        let ghost offset = choose|offset: Option<i32>|
            since == #[trigger] position_time(pos, offset);
        let r: Option<u64> = parse_tracking_stamp_at(input, since, now, clock);
        assert(is_tracking_stamp_at(input@, position_time(pos, offset), now, clock, r));
        r
    }

    /// Tracks the current position from a time, if there is one.
    ///
    /// Returns false if that changes nothing
    pub fn track_stamp_at(&mut self, stamp: Option<u64>, clock: u64) -> (r: bool)
        ensures
            (final(self)@, r) == old(self)@.stamped(stamp, clock),
    {
        match stamp {
            Some(time) => {
                let target: Option<EventId> = self.position(clock);
                self.track_at_clock(time, target, clock).is_some()
            },
            None => false,
        }
    }

    /// Parse relative time string, seen from the given time, and track for current position
    ///
    /// Returns false if parsing failed
    pub fn track_from_at(&mut self, str: &str, clock: u64, now: LocalTime) -> (r: bool)
        requires
            now.in_range(),
        ensures
            exists|stamp: Option<u64>|
                is_tracking_stamp_at(str@, None, now, clock, stamp)
                    && #[trigger] old(self)@.stamped(stamp, clock) == (final(self)@, r),
    {
        let stamp: Option<u64> = parse_tracking_stamp_at(str, None, now, clock);
        let r: bool = self.track_stamp_at(stamp, clock);
        assert(old(self)@.stamped(stamp, clock) == (self@, r));
        r
    }

    pub fn track_from(&mut self, str: &str) -> (r: bool)
        ensures
            exists|clock: u64, now: LocalTime, stamp: Option<u64>|
                is_clock_time(now) && #[trigger] is_tracking_stamp_at(
                    str@,
                    None,
                    now,
                    clock,
                    stamp,
                ) && old(self)@.stamped(stamp, clock) == (final(self)@, r),
    {
        let now: LocalTime = local_now();
        let clock: u64 = clock();
        let r: bool = self.track_from_at(str, clock, now);
        proof {
            let stamp = choose|stamp: Option<u64>|
                is_tracking_stamp_at(str@, None, now, clock, stamp)
                    && #[trigger] old(self)@.stamped(stamp, clock) == (self@, r);
            assert(is_tracking_stamp_at(str@, None, now, clock, stamp));
        }
        r
    }
}

} // verus!
