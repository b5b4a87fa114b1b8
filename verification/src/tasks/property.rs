//! Properties of tasks, as they are shown.

use crate::kinds::MARKER_DEPENDS;
use crate::lists::{group_views, views};
use crate::nostr::{Event, EventId, EventView, PublicKey};
use crate::paint::{color, dimmed, painted, Paint};
use crate::task::state::State;
use crate::task::{marked, string_option, Task, TaskView};
use crate::tasks::children_traversal::{subtree, ChildrenTraversal};
use crate::tasks::durations::{plus, time_on, Durations};
use crate::tasks::nostr_users::username;
use crate::tasks::task_map::{
    ancestors, child_ids, children, children_for, children_ids_for, places, task_of,
    traverse_up_from, TasksView,
};
use crate::tasks::{now_at, now_of, HistoryView, RelayView, TasksRelay, DEFAULT_PRIO};
use crate::text::{
    cut, decimal, pad, padded, replace, replaced_from, same_text, to_decimal, truncate,
};
use crate::time::clock;
use vstd::prelude::*;

verus! {

// ---------------------------------------------------------------------------
// Durations

/// Formats the given seconds according to the given format.
/// - MMM - minutes
/// - MM - minutes of the hour
/// - HH - hours
///
/// Empty if under one minute.
pub open spec fn duration_text(format: Seq<char>, secs: u64) -> Seq<char> {
    let mins: nat = (secs / 60) as nat;
    if mins == 0 {
        Seq::empty()
    } else {
        let a = replaced_from(format, "MMM"@, padded(decimal(mins), ' ', 3), 0);
        let b = replaced_from(a, "HH"@, padded(decimal(mins / 60), '0', 2), 0);
        replaced_from(b, "MM"@, padded(decimal(mins % 60), '0', 2), 0)
    }
}

/// Formats the given seconds according to the given format.
/// - MMM - minutes
/// - MM - minutes of the hour
/// - HH - hours
///
/// Returns an empty string if under one minute.
pub fn display_time(format: &str, secs: u64) -> (r: String)
    ensures
        r@ == duration_text(format@, secs),
{
    let mins: u64 = secs / 60;
    if mins == 0 {
        return String::new();
    }
    proof {
        reveal_strlit("MMM");
        reveal_strlit("HH");
        reveal_strlit("MM");
    }
    let all: String = to_decimal(mins);
    let all: String = pad(all.as_str(), ' ', 3);
    let hours: String = to_decimal(mins / 60);
    let hours: String = pad(hours.as_str(), '0', 2);
    let rest: String = to_decimal(mins % 60);
    let rest: String = pad(rest.as_str(), '0', 2);
    let r: String = replace(format, "MMM", all.as_str());
    let r: String = replace(r.as_str(), "HH", hours.as_str());
    replace(r.as_str(), "MM", rest.as_str())
}

// ---------------------------------------------------------------------------
// Paths

/// The titles of a task and its parents, from the top down.
pub open spec fn joined_up(titles: Seq<Seq<char>>, sep: Seq<char>) -> Seq<char>
    decreases titles.len(),
{
    if titles.len() == 0 {
        Seq::empty()
    } else if titles.len() == 1 {
        titles[0]
    } else {
        titles.last() + sep + joined_up(titles.drop_last(), sep)
    }
}

pub open spec fn titles_at(tasks: TasksView, at: Seq<int>) -> Seq<Seq<char>> {
    Seq::new(at.len(), |i: int| tasks[at[i]].title())
}

/// The titles of the tasks at the given places and, where asked for, the id of the unknown parent
/// above the last.
pub open spec fn path_parts(tasks: TasksView, at: Seq<int>, include_last_id: bool) -> Seq<Seq<char>> {
    let titles = titles_at(tasks, at);
    if include_last_id && at.len() > 0 {
        match tasks[at.last()].parent() {
            Some(id) => titles.push(id.text()),
            None => titles,
        }
    } else {
        titles
    }
}

pub open spec fn separator(on: bool) -> Seq<char> {
    painted("2"@, ">"@, on)
}

/// The parts from the top down, unless there are none.
pub open spec fn path_with(
    tasks: TasksView,
    at: Seq<int>,
    include_last_id: bool,
    sep: Seq<char>,
) -> Option<Seq<char>> {
    let parts = path_parts(tasks, at, include_last_id);
    if parts.len() == 0 {
        None
    } else {
        Some(joined_up(parts, sep))
    }
}

pub open spec fn path_of(tasks: TasksView, at: Seq<int>, include_last_id: bool, on: bool) -> Option<
    Seq<char>,
> {
    path_with(tasks, at, include_last_id, separator(on))
}

/// The places before the first that is the given task.
pub open spec fn up_to(tasks: TasksView, at: Seq<int>, stop: Option<EventId>) -> Seq<int>
    decreases at.len(),
{
    if at.len() == 0 || Some(tasks[at[0]].event.id) == stop {
        Seq::empty()
    } else {
        seq![at[0]] + up_to(tasks, at.drop_first(), stop)
    }
}

/// Joins the tasks of this upwards walk.
/// * `include_last_id` whether to add the id of an unknown parent at the top
pub fn join_tasks(tasks: &Vec<Task>, at: &Vec<usize>, include_last_id: bool) -> (r: Option<String>)
    requires
        forall|k: int| 0 <= k < at@.len() ==> #[trigger] at@[k] < tasks.len(),
    ensures
        exists|on: bool|
            string_option(r) == #[trigger] path_of(
                views(tasks@),
                places(at@),
                include_last_id,
                on,
            ),
{
    let sep: String = dimmed(">");
    let r: Option<String> = join_tasks_with(tasks, at, include_last_id, sep.as_str());
    proof {
        let on = choose|on: bool| sep@ == #[trigger] painted("2"@, ">"@, on);
        assert(string_option(r) == path_of(views(tasks@), places(at@), include_last_id, on));
    }
    r
}

/// Joins the tasks of this upwards walk by the given separator.
pub fn join_tasks_with(
    tasks: &Vec<Task>,
    at: &Vec<usize>,
    include_last_id: bool,
    sep: &str,
) -> (r: Option<String>)
    requires
        forall|k: int| 0 <= k < at@.len() ==> #[trigger] at@[k] < tasks.len(),
    ensures
        string_option(r) == path_with(views(tasks@), places(at@), include_last_id, sep@),
{
    broadcast use group_views;

    let ghost all = views(tasks@);
    let ghost walk = places(at@);
    let mut parts: Vec<String> = Vec::new();
    let mut i: usize = 0;
    assert(titles_at(all, walk).take(0) =~= Seq::<Seq<char>>::empty());
    while i < at.len()
        invariant
            0 <= i <= at.len(),
            all == views(tasks@),
            walk == places(at@),
            forall|k: int| 0 <= k < at@.len() ==> #[trigger] at@[k] < tasks.len(),
            views(parts@) == titles_at(all, walk).take(i as int),
        decreases at.len() - i,
    {
        parts.push(tasks[at[i]].get_title());
        assert(titles_at(all, walk).take(i as int).push(titles_at(all, walk)[i as int])
            =~= titles_at(all, walk).take(i + 1));
        i += 1;
    }
    assert(titles_at(all, walk).take(at@.len() as int) =~= titles_at(all, walk));
    if include_last_id && at.len() > 0 {
        assert(walk.last() == at@[at@.len() - 1]);
        match tasks[at[at.len() - 1]].parent_id() {
            Some(id) => {
                parts.push(id.to_string());
            },
            None => {},
        }
    }
    assert(views(parts@) == path_parts(all, walk, include_last_id));
    if parts.len() == 0 {
        return None;
    }
    let ghost shown = views(parts@);
    let mut r: String = parts[0].clone();
    let mut i: usize = 1;
    assert(joined_up(shown.take(1), sep@) == shown[0]);
    while i < parts.len()
        invariant
            1 <= i <= parts.len(),
            shown == views(parts@),
            r@ == joined_up(shown.take(i as int), sep@),
        decreases parts.len() - i,
    {
        assert(shown.take(i + 1).drop_last() =~= shown.take(i as int));
        assert(shown.take(i + 1).last() == parts@[i as int]@);
        let mut longer: String = parts[i].clone();
        longer.append(sep);
        longer.append(r.as_str());
        r = longer;
        i += 1;
    }
    assert(shown.take(parts@.len() as int) =~= shown);
    Some(r)
}

// ---------------------------------------------------------------------------
// Model

/// How many of the tasks at the given places are not closed.
pub open spec fn unclosed_count(tasks: TasksView, at: Seq<int>, now: u64) -> nat
    decreases at.len(),
{
    if at.len() == 0 {
        0
    } else {
        unclosed_count(tasks, at.drop_last(), now) + if tasks[at.last()].pure_state(now)
            != State::Closed {
            1nat
        } else {
            0
        }
    }
}

/// How many of the tasks at the given places are done.
pub open spec fn done_count(tasks: TasksView, at: Seq<int>, now: u64) -> nat
    decreases at.len(),
{
    if at.len() == 0 {
        0
    } else {
        done_count(tasks, at.drop_last(), now) + if tasks[at.last()].pure_state(now)
            == State::Done {
            1nat
        } else {
            0
        }
    }
}

/// The first of the listed tasks that is known and open.
pub open spec fn first_open(tasks: TasksView, ids: Seq<EventId>, now: u64) -> Option<TaskView>
    decreases ids.len(),
{
    if ids.len() == 0 {
        None
    } else {
        match task_of(tasks, ids[0]) {
            Some(t) => if t.pure_state(now).open() {
                Some(t)
            } else {
                first_open(tasks, ids.drop_first(), now)
            },
            None => first_open(tasks, ids.drop_first(), now),
        }
    }
}

/// The priority of the first of the tasks at the given places that has one.
pub open spec fn first_priority(tasks: TasksView, at: Seq<int>) -> Option<Seq<char>>
    decreases at.len(),
{
    if at.len() == 0 {
        None
    } else {
        match tasks[at[0]].priority_text() {
            Some(p) => Some(p),
            None => first_priority(tasks, at.drop_first()),
        }
    }
}

/// The progress that was told of a task.
pub open spec fn told_progress(
    progress: Seq<(EventId, (Seq<char>, bool))>,
    id: EventId,
) -> Option<(Seq<char>, bool)>
    decreases progress.len(),
{
    if progress.len() == 0 {
        None
    } else if progress[0].0 == id {
        Some(progress[0].1)
    } else {
        told_progress(progress.drop_first(), id)
    }
}

/// The time that all users have tracked on the listed tasks.
pub open spec fn time_of_all(history: HistoryView, ids: Seq<EventId>, clock: u64) -> u64
    decreases history.len(),
{
    if history.len() == 0 {
        0
    } else {
        plus(
            time_of_all(history.drop_last(), ids, clock),
            time_on(history.last().1, ids, clock),
        )
    }
}

impl RelayView {
    /// Total time in seconds tracked on the task by the current user.
    pub open spec fn time_tracked(self, id: EventId, clock: u64) -> u64 {
        time_on(self.own_events(), seq![id], clock)
    }

    /// Total time in seconds tracked on the task and its subtasks by all users.
    pub open spec fn total_time_tracked(self, id: EventId, clock: u64) -> u64 {
        time_of_all(self.history, subtree(self.tasks, id), clock)
    }

    /// The titles of a task and its parents; its id where it is unknown.
    pub open spec fn path(self, id: Option<EventId>, on: bool) -> Seq<char> {
        self.path_by(id, separator(on))
    }

    /// The titles of a task and its parents with the given separator between them; its id where it
    /// is unknown.
    pub open spec fn path_by(self, id: Option<EventId>, sep: Seq<char>) -> Seq<char> {
        match path_with(self.tasks, ancestors(self.tasks, id), true, sep) {
            Some(p) => if p.len() > 0 {
                p
            } else {
                id_text_or_empty(id)
            },
            None => id_text_or_empty(id),
        }
    }

    /// The titles of a task and its parents below the active task.
    pub open spec fn relative_path(self, id: EventId, clock: u64, on: bool) -> Seq<char> {
        self.relative_path_by(id, clock, separator(on))
    }

    pub open spec fn relative_path_by(self, id: EventId, clock: u64, sep: Seq<char>) -> Seq<char> {
        let walk = up_to(
            self.tasks,
            ancestors(self.tasks, Some(id)),
            self.position(clock),
        );
        match path_with(self.tasks, walk, false, sep) {
            Some(p) => p,
            None => id.text(),
        }
    }

    /// The progress of a task, shown only for tasks with subtasks.
    pub open spec fn progress_of(self, task: TaskView) -> Option<(Seq<char>, bool)> {
        if task.is_task() && children(self.tasks, Some(task.event.id)).len() > 0 {
            told_progress(self.progress, task.event.id)
        } else {
            None
        }
    }

    pub open spec fn progress_text(self, task: TaskView) -> Seq<char> {
        match self.progress_of(task) {
            Some((label, _)) => label,
            None => Seq::empty(),
        }
    }

    /// What blocks the task, else the progress of one that is under way, else its state.
    pub open spec fn state_text(self, task: TaskView, now: u64, on: bool) -> Seq<char> {
        match first_open(self.tasks, marked(task.refs, MARKER_DEPENDS@), now) {
            Some(t) => painted(
                Paint::BrightRed.code(),
                "Blocked by \""@ + t.title() + "\""@,
                on,
            ),
            None => {
                let state = task.pure_state(now);
                if state.open() && (self.progress_of(task) matches Some((_, started)) && started) {
                    painted(state.paint().code(), self.progress_text(task), on)
                } else {
                    match task.state_label(now, on) {
                        Some(label) => label,
                        None => Seq::empty(),
                    }
                }
            },
        }
    }

    pub open spec fn subtasks_text(self, task: TaskView, now: u64) -> Seq<char> {
        let at = children(self.tasks, Some(task.event.id));
        let total = unclosed_count(self.tasks, at, now);
        if total > 0 {
            decimal(done_count(self.tasks, at, now)) + "/"@ + decimal(total)
        } else {
            Seq::empty()
        }
    }

    pub open spec fn prio_text(self, task: TaskView, on: bool) -> Seq<char> {
        match first_priority(self.tasks, ancestors(self.tasks, Some(task.event.id))) {
            Some(p) => p,
            None => if self.priority is Some {
                painted("2"@, decimal(DEFAULT_PRIO as nat), on)
            } else {
                Seq::empty()
            },
        }
    }

    /// The property of a task by its name, when the clock shows the given time; in colour where
    /// `on`, and where the local clock is `offset` seconds from UTC.
    pub open spec fn property(
        self,
        task: TaskView,
        name: Seq<char>,
        clock: u64,
        on: bool,
        offset: Option<i32>,
    ) -> Seq<char> {
        let now = now_of(clock);
        let id = task.event.id;
        if name == "subtasks"@ {
            self.subtasks_text(task, now)
        } else if name == "state"@ {
            self.state_text(task, now, on)
        } else if name == "progress"@ {
            self.progress_text(task)
        } else if name == "owner"@ {
            cut(username(self.users, task.owner()), 6)
        } else if name == "assignee"@ {
            match task.assignee() {
                Some(key) => cut(username(self.users, key), 6),
                None => Seq::empty(),
            }
        } else if name == "author"@ || name == "creator"@ {
            cut(username(self.users, task.event.pubkey), 6)
        } else if name == "prio"@ {
            self.prio_text(task, on)
        } else if name == "path"@ {
            self.path(Some(id), on)
        } else if name == "rpath"@ {
            self.relative_path(id, clock, on)
        } else if name == "time"@ {
            duration_text("MMMm"@, self.time_tracked(id, clock))
        } else if name == "rtime"@ {
            duration_text("HH:MM"@, self.total_time_tracked(id, clock))
        } else {
            match task.property(name, now, on, offset) {
                Some(p) => p,
                None => Seq::empty(),
            }
        }
    }

    /// Whether a text shows a property of a task, for some terminal and time zone.
    pub open spec fn shows(
        self,
        task: TaskView,
        name: Seq<char>,
        clock: u64,
        text: Seq<char>,
    ) -> bool {
        exists|on: bool, offset: Option<i32>|
            text == #[trigger] self.property(task, name, clock, on, offset)
    }
}

pub open spec fn id_text_or_empty(id: Option<EventId>) -> Seq<char> {
    match id {
        Some(i) => i.text(),
        None => Seq::empty(),
    }
}

fn count_children(tasks: &Vec<Task>, at: &Vec<usize>, now: u64) -> (r: (u64, u64))
    requires
        forall|k: int| 0 <= k < at@.len() ==> #[trigger] at@[k] < tasks.len(),
    ensures
        r.0 == done_count(views(tasks@), places(at@), now),
        r.1 == unclosed_count(views(tasks@), places(at@), now),
{
    let ghost all = views(tasks@);
    let ghost walk = places(at@);
    let mut done: u64 = 0;
    let mut total: u64 = 0;
    let mut i: usize = 0;
    assert(walk.take(0) =~= Seq::<int>::empty());
    while i < at.len()
        invariant
            0 <= i <= at.len(),
            all == views(tasks@),
            walk == places(at@),
            forall|k: int| 0 <= k < at@.len() ==> #[trigger] at@[k] < tasks.len(),
            done == done_count(all, walk.take(i as int), now),
            total == unclosed_count(all, walk.take(i as int), now),
            done <= i,
            total <= i,
        decreases at.len() - i,
    {
        assert(walk.take(i + 1).drop_last() =~= walk.take(i as int));
        assert(walk.take(i + 1).last() == at@[i as int]);
        let state: State = tasks[at[i]].pure_state_at(now);
        if state != State::Closed {
            total += 1;
        }
        if state == State::Done {
            done += 1;
        }
        i += 1;
    }
    assert(walk.take(at@.len() as int) =~= walk);
    (done, total)
}

impl TasksRelay {
    /// Total time in seconds tracked on the task by the current user.
    pub fn time_tracked_at(&self, id: EventId, clock: u64) -> (r: u64)
        ensures
            r == self@.time_tracked(id, clock),
    {
        let mut ids: Vec<EventId> = Vec::new();
        ids.push(id);
        assert(ids@ =~= seq![id]);
        let events: Vec<Event> = self.get_own_events_history();
        Durations::sum(&events, &ids, clock)
    }

    pub fn time_tracked(&self, id: EventId) -> (r: u64)
        ensures
            exists|clock: u64| r == #[trigger] self@.time_tracked(id, clock),
    {
        self.time_tracked_at(id, clock())
    }

    /// Total time in seconds tracked on the task and its subtasks by all users.
    pub fn total_time_tracked_at(&self, id: EventId, clock: u64) -> (r: u64)
        ensures
            r == self@.total_time_tracked(id, clock),
    {
        let ids: Vec<EventId> = ChildrenTraversal::from(&self.tasks, id).get_all();
        let ghost all = self@.history;
        let mut total: u64 = 0;
        let mut i: usize = 0;
        assert(all.take(0) =~= Seq::<(PublicKey, Seq<EventView>)>::empty());
        while i < self.history.len()
            invariant
                0 <= i <= self.history.len(),
                all == views(self.history@),
                total == time_of_all(all.take(i as int), ids@, clock),
            decreases self.history.len() - i,
        {
            assert(all.take(i + 1).drop_last() =~= all.take(i as int));
            assert(all.take(i + 1).last() == self.history@[i as int]@);
            total = total.saturating_add(Durations::sum(&self.history[i].events, &ids, clock));
            i += 1;
        }
        assert(all.take(self.history@.len() as int) =~= all);
        total
    }

    pub fn get_task_path(&self, id: Option<EventId>) -> (r: String)
        ensures
            exists|on: bool| r@ == #[trigger] self@.path(id, on),
    {
        let sep: String = dimmed(">");
        let r: String = self.get_task_path_with(id, sep.as_str());
        proof {
            let on = choose|on: bool| sep@ == #[trigger] painted("2"@, ">"@, on);
            assert(r@ == self@.path(id, on));
        }
        r
    }

    pub fn get_task_path_with(&self, id: Option<EventId>, sep: &str) -> (r: String)
        ensures
            r@ == self@.path_by(id, sep@),
    {
        let walk: Vec<usize> = traverse_up_from(&self.tasks, id);
        match join_tasks_with(&self.tasks, &walk, true, sep) {
            Some(p) => {
                if !p.as_str().is_empty() {
                    return p;
                }
            },
            None => {},
        }
        match id {
            Some(i) => i.to_string(),
            None => String::new(),
        }
    }

    pub fn get_relative_path_at(&self, id: EventId, clock: u64) -> (r: String)
        ensures
            exists|on: bool| r@ == #[trigger] self@.relative_path(id, clock, on),
    {
        let sep: String = dimmed(">");
        let r: String = self.get_relative_path_with(id, clock, sep.as_str());
        proof {
            let on = choose|on: bool| sep@ == #[trigger] painted("2"@, ">"@, on);
            assert(r@ == self@.relative_path(id, clock, on));
        }
        r
    }

    pub fn get_relative_path_with(&self, id: EventId, clock: u64, sep: &str) -> (r: String)
        ensures
            r@ == self@.relative_path_by(id, clock, sep@),
    {
        let pos: Option<EventId> = self.position(clock);
        let walk: Vec<usize> = traverse_up_from(&self.tasks, Some(id));
        let ghost all = self@.tasks;
        let ghost full = places(walk@);
        let mut below: Vec<usize> = Vec::new();
        let mut i: usize = 0;
        assert(full.skip(0) =~= full);
        assert(places(below@) + up_to(all, full, pos) =~= up_to(all, full, pos));
        while i < walk.len() && Some(self.tasks[walk[i]].get_id()) != pos
            invariant
                0 <= i <= walk.len(),
                all == views(self.tasks@),
                full == places(walk@),
                forall|k: int| 0 <= k < walk@.len() ==> #[trigger] walk@[k] < self.tasks.len(),
                forall|k: int| 0 <= k < below@.len() ==> #[trigger] below@[k] < self.tasks.len(),
                up_to(all, full, pos) == places(below@) + up_to(all, full.skip(i as int), pos),
            decreases walk.len() - i,
        {
            let ghost before = below@;
            assert(full.skip(i as int)[0] == walk@[i as int]);
            assert(full.skip(i as int).drop_first() =~= full.skip(i + 1));
            below.push(walk[i]);
            assert(places(before) + (seq![full[i as int]] + up_to(all, full.skip(i + 1), pos))
                =~= places(below@) + up_to(all, full.skip(i + 1), pos));
            i += 1;
        }
        proof {
            if i < walk.len() {
                assert(full.skip(i as int)[0] == walk@[i as int]);
            }
            assert(places(below@) + Seq::<int>::empty() =~= places(below@));
        }
        match join_tasks_with(&self.tasks, &below, false, sep) {
            Some(p) => p,
            None => id.to_string(),
        }
    }

    pub fn get_relative_path(&self, id: EventId) -> (r: String)
        ensures
            exists|clock: u64, on: bool| r@ == #[trigger] self@.relative_path(id, clock, on),
    {
        let now: u64 = clock();
        let r: String = self.get_relative_path_at(id, now);
        proof {
            let on = choose|on: bool| r@ == #[trigger] self@.relative_path(id, now, on);
            assert(r@ == self@.relative_path(id, now, on));
        }
        r
    }

    fn find_progress(&self, id: EventId) -> (r: Option<usize>)
        ensures
            match r {
                Some(i) => i < self.progress.len() && told_progress(self@.progress, id) == Some(
                    self.progress[i as int]@.1,
                ),
                None => told_progress(self@.progress, id) is None,
            },
    {
        let ghost all = self@.progress;
        let mut i: usize = 0;
        assert(all.skip(0) =~= all);
        while i < self.progress.len()
            invariant
                0 <= i <= self.progress.len(),
                all == views(self.progress@),
                told_progress(all, id) == told_progress(all.skip(i as int), id),
            decreases self.progress.len() - i,
        {
            assert(all.skip(i as int)[0] == self.progress@[i as int]@);
            assert(all.skip(i as int).drop_first() =~= all.skip(i + 1));
            if self.progress[i].id == id {
                return Some(i);
            }
            i += 1;
        }
        None
    }

    fn progress_at(&self, task: &Task) -> (r: Option<usize>)
        ensures
            match r {
                Some(i) => i < self.progress.len() && self@.progress_of(task@) == Some(
                    self.progress[i as int]@.1,
                ),
                None => self@.progress_of(task@) is None,
            },
    {
        let at: Vec<usize> = children_for(&self.tasks, Some(task.get_id()));
        assert(places(at@).len() == at@.len());
        if task.is_task() && at.len() > 0 {
            self.find_progress(task.get_id())
        } else {
            None
        }
    }

    fn progress_label(&self, task: &Task) -> (r: String)
        ensures
            r@ == self@.progress_text(task@),
    {
        match self.progress_at(task) {
            Some(i) => self.progress[i].progress.label.clone(),
            None => String::new(),
        }
    }

    fn find_blocker(&self, ids: &Vec<EventId>, now: u64) -> (r: Option<&Task>)
        ensures
            match r {
                Some(t) => first_open(self@.tasks, ids@, now) == Some(t@),
                None => first_open(self@.tasks, ids@, now) is None,
            },
    {
        let mut i: usize = 0;
        assert(ids@.skip(0) =~= ids@);
        while i < ids.len()
            invariant
                0 <= i <= ids.len(),
                first_open(self@.tasks, ids@, now) == first_open(
                    self@.tasks,
                    ids@.skip(i as int),
                    now,
                ),
            decreases ids.len() - i,
        {
            assert(ids@.skip(i as int).drop_first() =~= ids@.skip(i + 1));
            match self.get_by_id(&ids[i]) {
                Some(t) => {
                    if t.pure_state_at(now).is_open() {
                        return Some(t);
                    }
                },
                None => {},
            }
            i += 1;
        }
        None
    }

    fn show_state(&self, task: &Task, now: u64) -> (r: String)
        ensures
            exists|on: bool| r@ == #[trigger] self@.state_text(task@, now, on),
    {
        let ids: Vec<EventId> = task.find_dependents();
        match self.find_blocker(&ids, now) {
            Some(t) => {
                let mut text: String = "Blocked by \"".to_string();
                let title: String = t.get_title();
                text.append(title.as_str());
                text.append("\"");
                let r: String = color(text.as_str(), Paint::BrightRed);
                proof {
                    let on = choose|on: bool| r@ == #[trigger] painted(
                        Paint::BrightRed.code(),
                        text@,
                        on,
                    );
                    assert(r@ == self@.state_text(task@, now, on));
                }
                return r;
            },
            None => {},
        }
        let state: State = task.pure_state_at(now);
        if state.is_open() {
            match self.progress_at(task) {
                Some(i) => {
                    if self.progress[i].progress.started {
                        let label: String = self.progress[i].progress.label.clone();
                        let r: String = state.colorize(label.as_str());
                        proof {
                            let on = choose|on: bool| r@ == #[trigger] painted(
                                state.paint().code(),
                                label@,
                                on,
                            );
                            assert(r@ == self@.state_text(task@, now, on));
                        }
                        return r;
                    }
                },
                None => {},
            }
        }
        let label: Option<String> = task.state_label_at(now);
        let ghost on = choose|on: bool| string_option(label) == #[trigger] task@.state_label(now, on);
        let r: String = match label {
            Some(l) => l,
            None => String::new(),
        };
        assert(r@ == self@.state_text(task@, now, on));
        r
    }

    fn show_subtasks(&self, task: &Task, now: u64) -> (r: String)
        ensures
            r@ == self@.subtasks_text(task@, now),
    {
        let at: Vec<usize> = children_for(&self.tasks, Some(task.get_id()));
        let (done, total): (u64, u64) = count_children(&self.tasks, &at, now);
        if total > 0 {
            let mut r: String = to_decimal(done);
            let total: String = to_decimal(total);
            r.append("/");
            r.append(total.as_str());
            r
        } else {
            String::new()
        }
    }

    fn show_prio(&self, task: &Task) -> (r: String)
        ensures
            exists|on: bool| r@ == #[trigger] self@.prio_text(task@, on),
    {
        let walk: Vec<usize> = traverse_up_from(&self.tasks, Some(task.get_id()));
        let ghost all = self@.tasks;
        let ghost full = places(walk@);
        let mut i: usize = 0;
        assert(full.skip(0) =~= full);
        while i < walk.len()
            invariant
                0 <= i <= walk.len(),
                all == views(self.tasks@),
                all == self@.tasks,
                full == places(walk@),
                full == ancestors(all, Some(task@.event.id)),
                forall|k: int| 0 <= k < walk@.len() ==> #[trigger] walk@[k] < self.tasks.len(),
                first_priority(all, full) == first_priority(all, full.skip(i as int)),
            decreases walk.len() - i,
        {
            assert(full.skip(i as int)[0] == walk@[i as int]);
            assert(full.skip(i as int).drop_first() =~= full.skip(i + 1));
            match self.tasks[walk[i]].priority_raw() {
                Some(p) => {
                    let r: String = p.clone();
                    assert(r@ == self@.prio_text(task@, false));
                    return r;
                },
                None => {},
            }
            i += 1;
        }
        if self.priority.is_some() {
            let text: String = to_decimal(DEFAULT_PRIO as u64);
            let r: String = dimmed(text.as_str());
            proof {
                let on = choose|on: bool| r@ == #[trigger] painted("2"@, text@, on);
                assert(r@ == self@.prio_text(task@, on));
            }
            r
        } else {
            let r: String = String::new();
            assert(r@ == self@.prio_text(task@, false));
            r
        }
    }

    fn short_name(&self, key: PublicKey) -> (r: String)
        ensures
            r@ == cut(username(self@.users, key), 6),
    {
        let name: String = self.users.get_username(&key);
        truncate(name.as_str(), 6)
    }

    /// The property of a task by its name, when the clock shows the given time.
    pub fn get_property_at(&self, task: &Task, str: &str, clock: u64) -> (r: String)
        ensures
            self@.shows(task@, str@, clock, r@),
    {
        let now: u64 = now_at(clock);
        let ghost t = task@;
        if same_text(str, "subtasks") {
            let r: String = self.show_subtasks(task, now);
            assert(r@ == self@.property(t, str@, clock, false, None));
            r
        } else if same_text(str, "state") {
            let r: String = self.show_state(task, now);
            proof {
                let on = choose|on: bool| r@ == #[trigger] self@.state_text(t, now, on);
                assert(r@ == self@.property(t, str@, clock, on, None));
            }
            r
        } else if same_text(str, "progress") {
            let r: String = self.progress_label(task);
            assert(r@ == self@.property(t, str@, clock, false, None));
            r
        } else if same_text(str, "owner") {
            let r: String = self.short_name(task.get_owner());
            assert(r@ == self@.property(t, str@, clock, false, None));
            r
        } else if same_text(str, "assignee") {
            let r: String = match task.get_assignee() {
                Some(key) => self.short_name(key),
                None => String::new(),
            };
            assert(r@ == self@.property(t, str@, clock, false, None));
            r
        } else if same_text(str, "author") || same_text(str, "creator") {
            let r: String = self.short_name(task.event().pubkey);
            assert(r@ == self@.property(t, str@, clock, false, None));
            r
        } else if same_text(str, "prio") {
            let r: String = self.show_prio(task);
            proof {
                let on = choose|on: bool| r@ == #[trigger] self@.prio_text(t, on);
                assert(r@ == self@.property(t, str@, clock, on, None));
            }
            r
        } else if same_text(str, "path") {
            let r: String = self.get_task_path(Some(task.get_id()));
            proof {
                let on = choose|on: bool| r@ == #[trigger] self@.path(Some(t.event.id), on);
                assert(r@ == self@.property(t, str@, clock, on, None));
            }
            r
        } else if same_text(str, "rpath") {
            let r: String = self.get_relative_path_at(task.get_id(), clock);
            proof {
                let on = choose|on: bool| r@ == #[trigger] self@.relative_path(
                    t.event.id,
                    clock,
                    on,
                );
                assert(r@ == self@.property(t, str@, clock, on, None));
            }
            r
        } else if same_text(str, "time") {
            let r: String = display_time("MMMm", self.time_tracked_at(task.get_id(), clock));
            assert(r@ == self@.property(t, str@, clock, false, None));
            r
        } else if same_text(str, "rtime") {
            let r: String = display_time(
                "HH:MM",
                self.total_time_tracked_at(task.get_id(), clock),
            );
            assert(r@ == self@.property(t, str@, clock, false, None));
            r
        } else {
            let p: Option<String> = task.get_at(str, now);
            let ghost (on, offset) = choose|on: bool, offset: Option<i32>|
                string_option(p) == #[trigger] t.property(str@, now, on, offset);
            let r: String = match p {
                Some(p) => p,
                None => String::new(),
            };
            assert(r@ == self@.property(t, str@, clock, on, offset));
            r
        }
    }

    pub fn get_property(&self, task: &Task, str: &str) -> (r: String)
        ensures
            exists|clock: u64| #[trigger] self@.shows(task@, str@, clock, r@),
    {
        self.get_property_at(task, str, clock())
    }
}

// ---------------------------------------------------------------------------
// Progress

/// How the progress of a task is told.
#[derive(Debug)]
pub enum ProgressStep {
    /// There is none: the task is unknown or closed.
    Unknown,
    /// The task is done.
    Complete,
    /// It is the average over those of these subtasks that have any, or nothing.
    Average(Vec<EventId>),
}

#[verifier::ext_equal]
pub enum ProgressStepView {
    Unknown,
    Complete,
    Average(Seq<EventId>),
}

impl View for ProgressStep {
    type V = ProgressStepView;

    open spec fn view(&self) -> ProgressStepView {
        match self {
            ProgressStep::Unknown => ProgressStepView::Unknown,
            ProgressStep::Complete => ProgressStepView::Complete,
            ProgressStep::Average(ids) => ProgressStepView::Average(ids@),
        }
    }
}

impl RelayView {
    pub open spec fn progress_step(self, id: EventId, now: u64) -> ProgressStepView {
        match task_of(self.tasks, id) {
            None => ProgressStepView::Unknown,
            Some(t) => match t.pure_state(now) {
                State::Closed => ProgressStepView::Unknown,
                State::Done => ProgressStepView::Complete,
                _ => ProgressStepView::Average(child_ids(self.tasks, Some(id))),
            },
        }
    }
}

impl TasksRelay {
    /// How the progress of a task is told, at the given time.
    pub fn progress_step(&self, id: EventId, now: u64) -> (r: ProgressStep)
        ensures
            r@ == self@.progress_step(id, now),
    {
        match self.get_by_id(&id) {
            None => ProgressStep::Unknown,
            Some(t) => match t.pure_state_at(now) {
                State::Closed => ProgressStep::Unknown,
                State::Done => ProgressStep::Complete,
                _ => ProgressStep::Average(children_ids_for(&self.tasks, id)),
            },
        }
    }
}

} // verus!
