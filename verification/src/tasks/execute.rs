//! What the commands of the user do.

use crate::command::{command_of, split_time, timed, Command, CommandView};
use crate::hashtag::Hashtag;
use crate::lists::{group_views, views};
use crate::nostr::{EventId, PublicKey};
use crate::task::state::{pure_state_of, state_of_name, State, StateChange};
use crate::tasks::context::{
    column_toggled, first_titled, searched, updated_since, PropertyCollection,
};
use crate::tasks::filter::{table, KeysView};
use crate::tasks::nostr_users::found_users;
use crate::tasks::task_map::task_of;
use crate::tasks::{now_at, now_of, FilterView, RelayView, StateFilter, TasksRelay};
use crate::text::{parted, split_once, trimmed};
use crate::time::{
    clock, is_clock_time, is_time_read, is_time_read_at, is_tracking_stamp_at, local_now,
    parse_tracking_stamp_at, read_time, read_time_at, LocalTime,
};
use vstd::prelude::*;

verus! {

/// What to show when a command is done.
#[derive(Clone, Copy, Debug, PartialEq, Eq, Structural)]
pub enum Reply {
    /// The tasks.
    Show,
    Nothing,
    /// The properties that there are.
    Columns,
    /// The changes of the active task.
    Changes,
    /// The previous places.
    Places,
    Hashtags,
    /// The hashtags, and how to stop filtering by some.
    HashtagsAndHelp,
    Times(usize),
    TimesOf(PublicKey),
}

// ---------------------------------------------------------------------------
// Model

/// What becomes of the tasks, and what to show.
pub type ResultView = (RelayView, Reply);

pub open spec fn trimmed_all(texts: Seq<Seq<char>>) -> Seq<Seq<char>> {
    Seq::new(texts.len(), |i: int| trimmed(texts[i]))
}

impl CommandView {
    /// Whether the columns that a command speaks of are there.
    pub open spec fn fits(self, columns: Seq<Seq<char>>) -> bool {
        match self {
            CommandView::RemoveColumn(i) => i < columns.len(),
            CommandView::ToggleColumnAt(_, i) => i <= columns.len(),
            _ => true,
        }
    }
}

impl CommandView {
    /// Whether a command lists something or sets what is listed.
    pub open spec fn is_listing(self) -> bool {
        match self {
            CommandView::Show => true,
            CommandView::Relay(_) => true,
            CommandView::OpenRelay(_) => true,
            CommandView::Columns => true,
            CommandView::SortBy(_) => true,
            CommandView::SortFirstBy(_) => true,
            CommandView::RemoveColumn(_) => true,
            CommandView::ToggleColumnAt(_, _) => true,
            CommandView::ToggleColumn(_) => true,
            CommandView::Changes => true,
            CommandView::ShortNote => true,
            CommandView::Places => true,
            CommandView::Times(_) => true,
            CommandView::ListTags => true,
            _ => false,
        }
    }

    /// Whether a command sets what is filtered by.
    pub open spec fn is_filter(self) -> bool {
        match self {
            CommandView::Recent => true,
            CommandView::ToggleKeys => true,
            CommandView::By(_) => true,
            CommandView::Priority(_) => true,
            CommandView::States(_) => true,
            CommandView::Tags(_) => true,
            CommandView::AddTag(_) => true,
            CommandView::RemoveTag(_) => true,
            CommandView::ClearFilters => true,
            _ => false,
        }
    }

    /// Whether a command makes or changes tasks.
    pub open spec fn is_edit(self) -> bool {
        match self {
            CommandView::Note(_) => true,
            CommandView::Finish(_) => true,
            CommandView::Close(_) => true,
            CommandView::Undo => true,
            CommandView::Pin => true,
            CommandView::Procedure => true,
            CommandView::Sibling(_) => true,
            CommandView::EnterProcedure(_) => true,
            CommandView::SetState(_) => true,
            CommandView::Tasks(_) => true,
            CommandView::Match(_) => true,
            _ => false,
        }
    }

    /// Whether a command changes the position or what is tracked.
    pub open spec fn is_move(self) -> bool {
        match self {
            CommandView::BackBy(_) => true,
            CommandView::BackTo(_) => true,
            CommandView::Track(_) => true,
            CommandView::Stop => true,
            CommandView::StopAt(_) => true,
            CommandView::Up(_) => true,
            CommandView::Depth(_, _) => true,
            CommandView::Enter(_, _) => true,
            CommandView::Root => true,
            CommandView::Over(_) => true,
            CommandView::SearchDepth(_, _) => true,
            CommandView::Search(_, _) => true,
            _ => false,
        }
    }
}

impl RelayView {
    /// The time of a command does not hold for the next.
    pub open spec fn done(self) -> ResultView {
        (RelayView { custom_time: None, ..self }, Reply::Show)
    }

    /// The property is taken out if it is at the given place, and added there otherwise.
    pub open spec fn column_toggled_at(self, property: Seq<char>, index: int) -> RelayView {
        RelayView {
            properties: if index < self.properties.len() && self.properties[index] == property {
                self.properties.remove(index)
            } else {
                self.properties.insert(index, property)
            },
            ..self
        }
    }

    /// The state of the active task is set, and then the task is left unless that was for another
    /// time.
    #[verifier::opaque]
    pub open spec fn ended(self, comment: Seq<char>, state: State, clock: u64) -> RelayView {
        let set = match self.position(clock) {
            Some(id) => self.state_set(id, comment, state, clock),
            None => self,
        };
        if set.custom_time is None {
            set.moved_up(clock)
        } else {
            set
        }
    }

    /// The tasks that have changed since a time are in view.
    pub open spec fn since(self, time: u64, clock: u64, keys: KeysView) -> RelayView {
        let at = self.filtered(now_of(clock), keys, self.position(clock), false);
        RelayView { view: updated_since(self.tasks, at, now_of(clock), time), ..self }
    }

    /// What is in view is shown, if it is anything.
    pub open spec fn shown_if_any(self) -> ResultView {
        if self.view.len() > 0 {
            self.done()
        } else {
            (self, Reply::Nothing)
        }
    }

    /// The tasks of the users of that name, or those that have changed since the time, are shown.
    pub open spec fn shown_by(
        self,
        name: Seq<char>,
        time: Option<u64>,
        clock: u64,
        keys: KeysView,
    ) -> ResultView {
        let users = found_users(self.users, name);
        if users.len() > 0 {
            (RelayView { keys: users, ..self }).done()
        } else {
            match time {
                Some(t) => self.since(t, clock, keys).shown_if_any(),
                None => (self, Reply::Nothing),
            }
        }
    }

    /// The state of a task is set to what the text before the colon says, or held back until the
    /// time there, or called by the text.
    pub open spec fn state_changed(
        self,
        id: EventId,
        text: Seq<char>,
        time: Option<u64>,
        clock: u64,
    ) -> RelayView {
        match parted(text, ": "@) {
            Some((left, right)) => match state_of_name(left) {
                Some(state) => self.state_set(id, right, state, clock),
                None => match time {
                    Some(stamp) => self.held_back(id, right, stamp, clock),
                    None => self.state_set(id, text, RelayView::state_for(text), clock),
                },
            },
            None => self.state_set(id, text, RelayView::state_for(text), clock),
        }
    }

    /// A task is pending until a time, when it gets back the state that it has now.
    pub open spec fn held_back(
        self,
        id: EventId,
        reason: Seq<char>,
        until: u64,
        clock: u64,
    ) -> RelayView {
        let state = match task_of(self.tasks, id) {
            Some(t) => t.state_at(now_of(clock)),
            None => None,
        };
        let label = match state {
            Some(c) => c.label(),
            None => ""@,
        };
        let pending = self.state_set(id, reason, State::Pending, clock);
        (RelayView { custom_time: Some(until), ..pending }).state_set(
            id,
            label,
            pure_state_of(state),
            clock,
        )
    }

    /// The state of the active task is changed, and then the task is left.
    #[verifier::opaque]
    pub open spec fn state_entered(self, text: Seq<char>, time: Option<u64>, clock: u64) -> RelayView {
        match self.position(clock) {
            Some(id) => {
                let changed = self.state_changed(id, text, time, clock);
                (RelayView { custom_time: None, ..changed }).moved_up(clock)
            },
            None => self,
        }
    }

    /// The active task is pinned or no longer; without one, the pinned tasks are in view.
    #[verifier::opaque]
    pub open spec fn pinned(self, clock: u64) -> RelayView {
        match self.position(clock) {
            Some(id) => self.bookmark_toggled(id, clock),
            None => RelayView { view: self.bookmarks, ..self },
        }
    }

    pub open spec fn is_procedure(self, id: EventId, clock: u64) -> bool {
        task_of(self.tasks, id) matches Some(t) && t.pure_state(now_of(clock)) == State::Procedure
    }

    /// The active task becomes a procedure, or open again if it is one; without one, procedures are
    /// filtered for.
    #[verifier::opaque]
    pub open spec fn proceeded(self, clock: u64) -> RelayView {
        match self.position(clock) {
            Some(id) => self.state_set(
                id,
                ""@,
                if self.is_procedure(id, clock) {
                    State::Open
                } else {
                    State::Procedure
                },
                clock,
            ),
            None => RelayView {
                view: Seq::empty(),
                state: FilterView::State(State::Procedure.text()),
                ..self
            },
        }
    }

    /// A task after the active one; without one, a procedure that becomes active.
    #[verifier::opaque]
    pub open spec fn sibling_made(self, input: Seq<char>, clock: u64) -> RelayView {
        if self.position(clock) is Some {
            self.dependent_sibling_made(input, clock)
        } else {
            self.task_entered(input, State::Procedure, clock)
        }
    }

    pub open spec fn tagged(self, tags: Seq<Seq<char>>) -> ResultView {
        let updated = self.tags_updated(trimmed_all(tags));
        if self.tags.len() > 0 || tags.len() > 0 {
            updated.done()
        } else {
            (updated, Reply::Hashtags)
        }
    }

    /// The times of the first user of that name are listed, or the position is tracked from the
    /// time.
    #[verifier::opaque]
    pub open spec fn tracked_by(self, name: Seq<char>, time: Option<u64>, clock: u64) -> ResultView {
        let users = found_users(self.users, name);
        if users.len() > 0 {
            (self, Reply::TimesOf(users[0]))
        } else {
            let (next, changed) = self.stamped(time, clock);
            (
                next,
                if changed {
                    Reply::Times(15)
                } else {
                    Reply::Nothing
                },
            )
        }
    }

    /// Tracking stops at the time.
    #[verifier::opaque]
    pub open spec fn stopped(self, time: Option<u64>, clock: u64) -> ResultView {
        match time {
            Some(t) => (
                self.tracking_at(t, None, clock),
                if self.is_tracked_at(self.tracking_time(t, None), None, clock) {
                    Reply::Nothing
                } else {
                    Reply::Times(15)
                },
            ),
            None => (self, Reply::Nothing),
        }
    }

    pub open spec fn above(self, count: int, clock: u64) -> Option<EventId> {
        self.up(self.position(clock), count as nat)
    }

    /// The position becomes the one that many levels up. Where that is none the filters are reset.
    #[verifier::opaque]
    pub open spec fn moved_above(self, count: int, clock: u64) -> RelayView {
        let moved = self.moved_to(self.above(count, clock), clock);
        if count == 0 {
            moved.filters_cleared()
        } else {
            moved
        }
    }

    #[verifier::opaque]
    pub open spec fn moved_if_above(self, count: int, clock: u64) -> RelayView {
        let pos = self.above(count, clock);
        if pos != self.position(clock) {
            self.moved_to(pos, clock)
        } else {
            self
        }
    }

    /// What the text matches below the position that many levels up becomes active, or a new task
    /// there.
    #[verifier::opaque]
    pub open spec fn entered(
        self,
        count: int,
        text: Seq<char>,
        clock: u64,
        keys: KeysView,
    ) -> RelayView {
        let pos = self.above(count, clock);
        let matching = self.matching(now_of(clock), keys, pos, text);
        let next = self.matched_or_created(pos, text, matching, clock);
        match self.created_id(pos, text, matching, clock) {
            Some(id) => next.moved_to(Some(id), clock),
            None => next,
        }
    }

    /// What the text matches below the position becomes active, or a new task there is made.
    #[verifier::opaque]
    pub open spec fn matched(self, text: Seq<char>, clock: u64, keys: KeysView) -> RelayView {
        let pos = self.position(clock);
        self.matched_or_created(pos, text, self.matching(now_of(clock), keys, pos, text), clock)
    }

    /// The one task that has the text in it becomes active, or those that have are in view.
    #[verifier::opaque]
    pub open spec fn found(
        self,
        count: int,
        text: Seq<char>,
        clock: u64,
        keys: KeysView,
    ) -> ResultView {
        let pos = self.above(count, clock);
        let ids = searched(self.tasks, self.filtered(now_of(clock), keys, pos, false), text);
        if ids.len() == 1 {
            self.moved_to(Some(ids[0]), clock).done()
        } else {
            (RelayView { view: ids, ..self.moved_to(pos, clock) }).shown_if_any()
        }
    }

    /// Each line becomes a task.
    #[verifier::opaque]
    pub open spec fn tasks_made(self, lines: Seq<Seq<char>>, clock: u64) -> RelayView
        decreases lines.len(),
    {
        if lines.len() == 0 {
            self
        } else {
            let before = self.tasks_made(lines.drop_last(), clock);
            before.task_made(lines.last(), before.position_tags(clock), true, clock)
        }
    }

    #[verifier::opaque]
    pub open spec fn noted(self, note: Seq<char>, clock: u64) -> RelayView {
        self.submitted(self.note_builder(note, clock), clock)
    }

    #[verifier::opaque]
    pub open spec fn reverted(self) -> RelayView {
        self.undone()
    }

    #[verifier::opaque]
    pub open spec fn procedure_entered(self, input: Seq<char>, clock: u64) -> RelayView {
        self.task_entered(input, State::Procedure, clock)
    }

    /// The position becomes the one that many changes ago.
    #[verifier::opaque]
    pub open spec fn moved_back_by(self, steps: int, clock: u64) -> RelayView {
        self.moved_to(self.position_back(steps as nat, clock), clock)
    }

    /// The position becomes the latest one that has the text in its title, if there is one.
    #[verifier::opaque]
    pub open spec fn found_back(self, text: Seq<char>, clock: u64) -> ResultView {
        if first_titled(self.tasks, self.past(now_of(clock)), text) is Some {
            self.moved_back_to(text, clock).done()
        } else {
            (self, Reply::Nothing)
        }
    }

    #[verifier::opaque]
    pub open spec fn moved_to_root(self, clock: u64) -> RelayView {
        self.moved_to(None, clock)
    }

    #[verifier::opaque]
    pub open spec fn moved_over(self, count: int, clock: u64) -> RelayView {
        self.moved_to(self.above(count, clock), clock)
    }

    /// What a command does when the clock shows the given time, the tasks are sorted by the given
    /// keys, and the time that the command holds is `time`.
    pub open spec fn executed(
        self,
        command: CommandView,
        clock: u64,
        keys: KeysView,
        time: Option<u64>,
    ) -> ResultView {
        match command {
            CommandView::Show => (
                RelayView { sender: self.sender.force_flushed(), ..self },
                Reply::Show,
            ),
            CommandView::Relay(_) => (self, Reply::Nothing),
            CommandView::OpenRelay(_) => (self, Reply::Nothing),
            CommandView::Columns => (self, Reply::Columns),
            CommandView::SortBy(properties) => (RelayView { sorting: properties, ..self }).done(),
            CommandView::SortFirstBy(property) => self.sorting_added(property).done(),
            CommandView::RemoveColumn(i) => (RelayView {
                properties: self.properties.remove(i),
                ..self
            }).done(),
            CommandView::ToggleColumnAt(property, i) => self.column_toggled_at(property, i).done(),
            CommandView::ToggleColumn(property) => (RelayView {
                properties: column_toggled(self.properties, property),
                ..self
            }).done(),
            CommandView::Changes => if self.current_task(clock) is Some {
                (self, Reply::Changes)
            } else {
                (RelayView { recurse_activities: !self.recurse_activities, ..self }).done()
            },
            CommandView::ShortNote => (self, Reply::Nothing),
            CommandView::Note(note) => self.noted(note, clock).done(),
            CommandView::Finish(comment) => self.ended(comment, State::Done, clock).done(),
            CommandView::Close(comment) => self.ended(comment, State::Closed, clock).done(),
            CommandView::Undo => self.reverted().done(),
            CommandView::Places => (self, Reply::Places),
            CommandView::BackBy(steps) => self.moved_back_by(steps, clock).done(),
            CommandView::BackTo(text) => self.found_back(text, clock),
            CommandView::Recent => self.since(
                if clock > 80_000 {
                    (clock - 80_000) as u64
                } else {
                    0
                },
                clock,
                keys,
            ).shown_if_any(),
            CommandView::ToggleKeys => self.key_filter_reset().done(),
            CommandView::By(name) => self.shown_by(name, time, clock, keys),
            CommandView::Pin => self.pinned(clock).done(),
            CommandView::Priority(priority) => (RelayView {
                view: Seq::empty(),
                priority,
                ..self
            }).done(),
            CommandView::Procedure => self.proceeded(clock).done(),
            CommandView::Sibling(input) => self.sibling_made(input, clock).done(),
            CommandView::EnterProcedure(input) => self.procedure_entered(input, clock).done(),
            CommandView::States(state) => (RelayView { view: Seq::empty(), state, ..self }).done(),
            CommandView::SetState(text) => self.state_entered(text, time, clock).done(),
            CommandView::Tags(tags) => self.tagged(tags),
            CommandView::ListTags => (
                self,
                if self.tags.len() > 0 || self.tags_excluded.len() > 0 {
                    Reply::HashtagsAndHelp
                } else {
                    Reply::Hashtags
                },
            ),
            CommandView::AddTag(tag) => self.tag_added(tag).done(),
            CommandView::RemoveTag(tag) => self.tag_removed(tag).done(),
            CommandView::ClearFilters => self.filters_cleared().done(),
            CommandView::Times(limit) => (self, Reply::Times(limit as usize)),
            CommandView::Track(name) => self.tracked_by(name, time, clock),
            CommandView::Stop => self.moved_to_root(clock).done(),
            CommandView::StopAt(_) => self.stopped(time, clock),
            CommandView::Up(count) => self.moved_above(count, clock).done(),
            CommandView::Depth(count, depth) => (RelayView {
                view_depth: depth as usize,
                ..self.moved_if_above(count, clock)
            }).done(),
            CommandView::Enter(count, text) => self.entered(count, text, clock, keys).done(),
            CommandView::Root => self.moved_to_root(clock).done(),
            CommandView::Over(count) => self.moved_over(count, clock).done(),
            CommandView::SearchDepth(count, depth) => self.moved_if_above(
                count,
                clock,
            ).search_depth_set(depth as usize).done(),
            CommandView::Search(count, text) => self.found(count, text, clock, keys),
            CommandView::Tasks(lines) => self.tasks_made(lines, clock).done(),
            CommandView::Match(text) => self.matched(text, clock, keys).done(),
        }
    }

    /// The command that a text stands for. Where it ends in a time, that is the time of what the
    /// command does.
    pub open spec fn command_taken(self, text: Seq<char>, time: Option<u64>) -> (
        RelayView,
        CommandView,
    ) {
        match timed(text) {
            Some((left, _)) => match time {
                Some(t) => (RelayView { custom_time: Some(t), ..self }, command_of(left)),
                None => (self, command_of(text)),
            },
            None => (self, command_of(text)),
        }
    }

    /// Whether a time can be the one that a command holds when the local clock shows `now`.
    pub open spec fn may_hold_at(
        self,
        command: CommandView,
        clock: u64,
        now: LocalTime,
        time: Option<u64>,
    ) -> bool {
        match command {
            CommandView::By(text) => is_time_read_at(text, 1, now, time),
            CommandView::SetState(text) => match parted(text, ": "@) {
                Some((left, _)) => is_time_read_at(left, 20, now, time),
                None => time is None,
            },
            CommandView::Track(text) => is_tracking_stamp_at(text, None, now, clock, time),
            CommandView::StopAt(text) => self.may_stop_at(text, clock, now, time),
            _ => time is None,
        }
    }

    /// The same, for some clock.
    pub open spec fn may_hold(self, command: CommandView, clock: u64, time: Option<u64>) -> bool {
        exists|now: LocalTime| #[trigger]
            is_clock_time(now) && self.may_hold_at(command, clock, now, time)
    }
}

// ---------------------------------------------------------------------------
// Executing

fn sets_listing(command: &Command) -> (r: bool)
    ensures
        r == command@.is_listing(),
{
    match command {
        Command::Show => true,
        Command::Relay(_) => true,
        Command::OpenRelay(_) => true,
        Command::Columns => true,
        Command::SortBy(_) => true,
        Command::SortFirstBy(_) => true,
        Command::RemoveColumn(_) => true,
        Command::ToggleColumnAt(_, _) => true,
        Command::ToggleColumn(_) => true,
        Command::Changes => true,
        Command::ShortNote => true,
        Command::Places => true,
        Command::Times(_) => true,
        Command::ListTags => true,
        _ => false,
    }
}

fn sets_filter(command: &Command) -> (r: bool)
    ensures
        r == command@.is_filter(),
{
    match command {
        Command::Recent => true,
        Command::ToggleKeys => true,
        Command::By(_) => true,
        Command::Priority(_) => true,
        Command::States(_) => true,
        Command::Tags(_) => true,
        Command::AddTag(_) => true,
        Command::RemoveTag(_) => true,
        Command::ClearFilters => true,
        _ => false,
    }
}

fn edits(command: &Command) -> (r: bool)
    ensures
        r == command@.is_edit(),
{
    match command {
        Command::Note(_) => true,
        Command::Finish(_) => true,
        Command::Close(_) => true,
        Command::Undo => true,
        Command::Pin => true,
        Command::Procedure => true,
        Command::Sibling(_) => true,
        Command::EnterProcedure(_) => true,
        Command::SetState(_) => true,
        Command::Tasks(_) => true,
        Command::Match(_) => true,
        _ => false,
    }
}

fn make_hashtags(tags: &Vec<String>) -> (r: Vec<Hashtag>)
    ensures
        views(r@) == trimmed_all(views(tags@)),
{
    broadcast use group_views;

    let ghost all = trimmed_all(views(tags@));
    let mut r: Vec<Hashtag> = Vec::new();
    let mut i: usize = 0;
    assert(all.take(0) =~= Seq::<Seq<char>>::empty());
    while i < tags.len()
        invariant
            0 <= i <= tags.len(),
            all == trimmed_all(views(tags@)),
            views(r@) == all.take(i as int),
        decreases tags.len() - i,
    {
        r.push(Hashtag::from(tags[i].as_str()));
        assert(all.take(i as int).push(all[i as int]) =~= all.take(i + 1));
        i += 1;
    }
    assert(all.take(tags@.len() as int) =~= all);
    r
}

proof fn lemma_no_tasks_made(relay: RelayView, clock: u64)
    ensures
        relay.tasks_made(Seq::empty(), clock) == relay,
{
    reveal(RelayView::tasks_made);
}

proof fn lemma_next_task_made(relay: RelayView, lines: Seq<Seq<char>>, i: int, clock: u64)
    requires
        0 <= i < lines.len(),
    ensures
        relay.tasks_made(lines.take(i + 1), clock) == ({
            let before = relay.tasks_made(lines.take(i), clock);
            before.task_made(lines[i], before.position_tags(clock), true, clock)
        }),
{
    reveal(RelayView::tasks_made);
    assert(lines.take(i + 1).drop_last() =~= lines.take(i));
    assert(lines.take(i + 1).last() == lines[i]);
}

impl TasksRelay {
    fn finish(&mut self) -> (r: Reply)
        ensures
            (final(self)@, r) == old(self)@.done(),
    {
        self.custom_time = None;
        Reply::Show
    }

    fn finish_if_any(&mut self) -> (r: Reply)
        ensures
            (final(self)@, r) == old(self)@.shown_if_any(),
    {
        if self.view.len() > 0 {
            self.finish()
        } else {
            Reply::Nothing
        }
    }

    fn end_task(&mut self, comment: &str, state: State, clock: u64)
        ensures
            final(self)@ == old(self)@.ended(comment@, state, clock),
    {
        reveal(RelayView::ended);
        self.update_state_at(comment, state, clock);
        if self.custom_time.is_none() {
            self.move_up_at(clock);
        }
    }

    fn view_since(&mut self, time: u64, clock: u64, keys: &Vec<Vec<String>>)
        requires
            keys.len() == old(self).tasks.len(),
        ensures
            final(self)@ == old(self)@.since(time, clock, table(keys@)),
    {
        self.set_filter_since_at(time, clock, keys);
    }

    fn view_by(&mut self, name: &str, time: Option<u64>, clock: u64, keys: &Vec<Vec<String>>) -> (r:
        Reply)
        requires
            keys.len() == old(self).tasks.len(),
        ensures
            (final(self)@, r) == old(self)@.shown_by(name@, time, clock, table(keys@)),
    {
        let users: Vec<PublicKey> = self.users.find_user(name);
        if users.len() > 0 {
            self.set_key_filter(users);
            self.finish()
        } else {
            match time {
                Some(t) => {
                    self.view_since(t, clock, keys);
                    self.finish_if_any()
                },
                None => Reply::Nothing,
            }
        }
    }

    fn hold_back(&mut self, id: EventId, reason: &str, until: u64, clock: u64)
        ensures
            final(self)@ == old(self)@.held_back(id, reason@, until, clock),
    {
        let state: Option<StateChange> = match self.get_by_id(&id) {
            Some(t) => t.state_at(now_at(clock)),
            None => None,
        };
        let label: String = match &state {
            Some(c) => c.get_label(),
            None => "".to_string(),
        };
        let before: State = match &state {
            Some(c) => c.state,
            None => State::Open,
        };
        self.set_state_for_at(id, reason, State::Pending, clock);
        self.custom_time = Some(until);
        self.set_state_for_at(id, label.as_str(), before, clock);
    }

    fn change_state(&mut self, id: EventId, text: &str, time: Option<u64>, clock: u64)
        ensures
            final(self)@ == old(self)@.state_changed(id, text@, time, clock),
    {
        match split_once(text, ": ") {
            Some((left, right)) => {
                let named: Result<State, ()> = State::try_from(left.as_str());
                match named {
                    Ok(state) => {
                        self.set_state_for_at(id, right.as_str(), state, clock);
                        return ;
                    },
                    Err(_) => {},
                }
                match time {
                    Some(stamp) => {
                        self.hold_back(id, right.as_str(), stamp, clock);
                        return ;
                    },
                    None => {},
                }
            },
            None => {},
        }
        self.set_state_for_with_at(id, text, clock);
    }

    fn enter_state(&mut self, text: &str, time: Option<u64>, clock: u64)
        ensures
            final(self)@ == old(self)@.state_entered(text@, time, clock),
    {
        reveal(RelayView::state_entered);
        match self.position(clock) {
            Some(id) => {
                self.change_state(id, text, time, clock);
                self.custom_time = None;
                self.move_up_at(clock);
            },
            None => {},
        }
    }

    fn note(&mut self, note: &str, clock: u64)
        ensures
            final(self)@ == old(self)@.noted(note@, clock),
    {
        reveal(RelayView::noted);
        self.make_note_at(note, clock);
    }

    fn revert(&mut self)
        ensures
            final(self)@ == old(self)@.reverted(),
    {
        reveal(RelayView::reverted);
        self.undo();
    }

    fn enter_procedure(&mut self, input: &str, clock: u64)
        ensures
            final(self)@ == old(self)@.procedure_entered(input@, clock),
    {
        reveal(RelayView::procedure_entered);
        self.make_task_and_enter_at(input, State::Procedure, clock);
    }

    fn go_back_by(&mut self, steps: usize, clock: u64)
        ensures
            final(self)@ == old(self)@.moved_back_by(steps as int, clock),
    {
        reveal(RelayView::moved_back_by);
        self.move_back_by_at(steps, clock);
    }

    fn find_back(&mut self, text: &str, clock: u64) -> (r: Reply)
        ensures
            (final(self)@, r) == old(self)@.found_back(text@, clock),
    {
        reveal(RelayView::found_back);
        if self.move_back_to_at(text, clock) {
            self.finish()
        } else {
            Reply::Nothing
        }
    }

    fn move_to_root(&mut self, clock: u64)
        ensures
            final(self)@ == old(self)@.moved_to_root(clock),
    {
        reveal(RelayView::moved_to_root);
        self.move_to_at(None, clock);
    }

    fn move_over(&mut self, count: usize, clock: u64)
        ensures
            final(self)@ == old(self)@.moved_over(count as int, clock),
    {
        reveal(RelayView::moved_over);
        let pos: Option<EventId> = self.up_by_at(count, clock);
        self.move_to_at(pos, clock);
    }

    fn pin(&mut self, clock: u64)
        ensures
            final(self)@ == old(self)@.pinned(clock),
    {
        reveal(RelayView::pinned);
        match self.position(clock) {
            Some(id) => {
                self.toggle_bookmark_at(id, clock);
            },
            None => {
                self.set_view_bookmarks();
            },
        }
    }

    fn proceed(&mut self, clock: u64)
        ensures
            final(self)@ == old(self)@.proceeded(clock),
    {
        reveal(RelayView::proceeded);
        match self.position(clock) {
            Some(id) => {
                let state: State = match self.get_by_id(&id) {
                    Some(t) => if t.pure_state_at(now_at(clock)) == State::Procedure {
                        State::Open
                    } else {
                        State::Procedure
                    },
                    None => State::Procedure,
                };
                self.set_state_for_at(id, "", state, clock);
            },
            None => {
                self.set_state_filter(StateFilter::State(State::Procedure.to_string()));
            },
        }
    }

    fn make_sibling(&mut self, input: &str, clock: u64)
        ensures
            final(self)@ == old(self)@.sibling_made(input@, clock),
    {
        reveal(RelayView::sibling_made);
        if self.position(clock).is_some() {
            self.make_dependent_sibling_at(input, clock);
        } else {
            self.make_task_and_enter_at(input, State::Procedure, clock);
        }
    }

    fn set_tags(&mut self, tags: &Vec<String>) -> (r: Reply)
        ensures
            (final(self)@, r) == old(self)@.tagged(views(tags@)),
    {
        let hashtags: Vec<Hashtag> = make_hashtags(tags);
        assert(views(hashtags@).len() == hashtags@.len());
        if self.update_tags(hashtags) {
            self.finish()
        } else {
            Reply::Hashtags
        }
    }

    fn track_by(&mut self, name: &str, time: Option<u64>, clock: u64) -> (r: Reply)
        ensures
            (final(self)@, r) == old(self)@.tracked_by(name@, time, clock),
    {
        reveal(RelayView::tracked_by);
        let users: Vec<PublicKey> = self.users.find_user(name);
        if users.len() > 0 {
            return Reply::TimesOf(users[0]);
        }
        match time {
            Some(t) => {
                let target: Option<EventId> = self.position(clock);
                match self.track_at_clock(t, target, clock) {
                    Some(_) => Reply::Times(15),
                    None => Reply::Nothing,
                }
            },
            None => Reply::Nothing,
        }
    }

    fn stop_at(&mut self, time: Option<u64>, clock: u64) -> (r: Reply)
        ensures
            (final(self)@, r) == old(self)@.stopped(time, clock),
    {
        reveal(RelayView::stopped);
        match time {
            Some(t) => match self.track_at_clock(t, None, clock) {
                Some(_) => Reply::Times(15),
                None => Reply::Nothing,
            },
            None => Reply::Nothing,
        }
    }

    fn move_above(&mut self, count: usize, clock: u64)
        ensures
            final(self)@ == old(self)@.moved_above(count as int, clock),
    {
        reveal(RelayView::moved_above);
        let pos: Option<EventId> = self.up_by_at(count, clock);
        self.move_to_at(pos, clock);
        if count == 0 {
            self.clear_filters();
        }
    }

    fn move_if_above(&mut self, count: usize, clock: u64)
        ensures
            final(self)@ == old(self)@.moved_if_above(count as int, clock),
    {
        reveal(RelayView::moved_if_above);
        let pos: Option<EventId> = self.up_by_at(count, clock);
        if pos != self.position(clock) {
            self.move_to_at(pos, clock);
        }
    }

    fn enter(&mut self, count: usize, text: &str, clock: u64, keys: &Vec<Vec<String>>)
        requires
            keys.len() == old(self).tasks.len(),
        ensures
            final(self)@ == old(self)@.entered(count as int, text@, clock, table(keys@)),
    {
        reveal(RelayView::entered);
        let pos: Option<EventId> = self.up_by_at(count, clock);
        let matching: Vec<EventId> = self.get_matching_at(now_at(clock), keys, pos, text);
        match self.match_or_create(pos, text, matching, clock) {
            Some(id) => {
                self.move_to_at(Some(id), clock);
            },
            None => {},
        }
    }

    fn match_text(&mut self, text: &str, clock: u64, keys: &Vec<Vec<String>>)
        requires
            keys.len() == old(self).tasks.len(),
        ensures
            final(self)@ == old(self)@.matched(text@, clock, table(keys@)),
    {
        reveal(RelayView::matched);
        let pos: Option<EventId> = self.position(clock);
        let matching: Vec<EventId> = self.get_matching_at(now_at(clock), keys, pos, text);
        self.match_or_create(pos, text, matching, clock);
    }

    fn find(&mut self, count: usize, text: &str, clock: u64, keys: &Vec<Vec<String>>) -> (r: Reply)
        requires
            keys.len() == old(self).tasks.len(),
        ensures
            (final(self)@, r) == old(self)@.found(count as int, text@, clock, table(keys@)),
    {
        reveal(RelayView::found);
        let pos: Option<EventId> = self.up_by_at(count, clock);
        let ids: Vec<EventId> = self.search_at(pos, text, now_at(clock), keys);
        if ids.len() == 1 {
            self.move_to_at(Some(ids[0]), clock);
            self.finish()
        } else {
            self.move_to_at(pos, clock);
            self.set_view(ids);
            self.finish_if_any()
        }
    }

    fn make_tasks(&mut self, lines: &Vec<String>, clock: u64)
        ensures
            final(self)@ == old(self)@.tasks_made(views(lines@), clock),
    {
        let ghost all = views(lines@);
        let mut i: usize = 0;
        assert(all.take(0) =~= Seq::<Seq<char>>::empty());
        proof {
            lemma_no_tasks_made(old(self)@, clock);
        }
        while i < lines.len()
            invariant
                0 <= i <= lines.len(),
                all == views(lines@),
                self@ == old(self)@.tasks_made(all.take(i as int), clock),
            decreases lines.len() - i,
        {
            self.make_task_at(lines[i].as_str(), clock);
            proof {
                assert(lines@[i as int]@ == all[i as int]);
                lemma_next_task_made(old(self)@, all, i as int, clock);
            }
            i += 1;
        }
        assert(all.take(lines@.len() as int) =~= all);
    }

    fn toggle_column_at(&mut self, property: String, index: usize)
        requires
            index <= old(self)@.properties.len(),
        ensures
            final(self)@ == old(self)@.column_toggled_at(property@, index as int),
    {
        assert(self.properties.columns() == self@.properties);
        self.properties.add_or_remove_at(property, index);
        assert(self.properties.columns() == self@.properties);
        assert(self@ =~= old(self)@.column_toggled_at(property@, index as int));
    }

    fn toggle_column(&mut self, property: String)
        ensures
            final(self)@ == (RelayView {
                properties: column_toggled(old(self)@.properties, property@),
                ..old(self)@
            }),
    {
        assert(self.properties.columns() == self@.properties);
        self.properties.add_or_remove(property);
        assert(self.properties.columns() == self@.properties);
    }

    fn remove_column(&mut self, index: usize)
        requires
            index < old(self)@.properties.len(),
        ensures
            final(self)@ == (RelayView {
                properties: old(self)@.properties.remove(index as int),
                ..old(self)@
            }),
    {
        assert(self.properties.columns() == self@.properties);
        self.properties.remove_at(index);
        assert(self.properties.columns() == self@.properties);
    }

    fn list_changes(&mut self, clock: u64) -> (r: Reply)
        ensures
            (final(self)@, r) == old(self)@.executed(
                CommandView::Changes,
                clock,
                Seq::empty(),
                None,
            ),
    {
        if self.get_current_task_at(clock).is_some() {
            Reply::Changes
        } else {
            self.recurse_activities = !self.recurse_activities;
            self.finish()
        }
    }

    /// Whether the columns that a command speaks of are there.
    pub fn fits(&self, command: &Command) -> (r: bool)
        ensures
            r == command@.fits(self@.properties),
    {
        match command {
            Command::RemoveColumn(i) => *i < self.properties.len(),
            Command::ToggleColumnAt(_, i) => *i <= self.properties.len(),
            _ => true,
        }
    }

    fn execute_listing(
        &mut self,
        command: Command,
        clock: u64,
        keys: &Vec<Vec<String>>,
        time: Option<u64>,
    ) -> (r: Reply)
        requires
            command@.is_listing(),
            keys.len() == old(self).tasks.len(),
            command@.fits(old(self)@.properties),
        ensures
            (final(self)@, r) == old(self)@.executed(command@, clock, table(keys@), time),
    {
        match command {
            Command::Show => {
                self.flush();
                return Reply::Show;
            },
            Command::Relay(_) => {
                return Reply::Nothing;
            },
            Command::OpenRelay(_) => {
                return Reply::Nothing;
            },
            Command::Columns => {
                return Reply::Columns;
            },
            Command::SortBy(properties) => {
                self.set_sorting(properties);
            },
            Command::SortFirstBy(property) => {
                self.add_sorting_property(property);
            },
            Command::RemoveColumn(i) => {
                self.remove_column(i);
            },
            Command::ToggleColumnAt(property, i) => {
                self.toggle_column_at(property, i);
            },
            Command::ToggleColumn(property) => {
                self.toggle_column(property);
            },
            Command::Changes => {
                return self.list_changes(clock);
            },
            Command::ShortNote => {
                return Reply::Nothing;
            },
            Command::Places => {
                return Reply::Places;
            },
            Command::Times(limit) => {
                return Reply::Times(limit);
            },
            Command::ListTags => {
                return if self.has_tag_filter() {
                    Reply::HashtagsAndHelp
                } else {
                    Reply::Hashtags
                };
            },
            _ => {},
        }
        self.finish()
    }

    fn execute_filter(
        &mut self,
        command: Command,
        clock: u64,
        keys: &Vec<Vec<String>>,
        time: Option<u64>,
    ) -> (r: Reply)
        requires
            command@.is_filter(),
            keys.len() == old(self).tasks.len(),
            command@.fits(old(self)@.properties),
        ensures
            (final(self)@, r) == old(self)@.executed(command@, clock, table(keys@), time),
    {
        match command {
            Command::Recent => {
                self.view_since(clock.saturating_sub(80_000), clock, keys);
                return self.finish_if_any();
            },
            Command::ToggleKeys => {
                self.reset_key_filter();
            },
            Command::By(name) => {
                return self.view_by(name.as_str(), time, clock, keys);
            },
            Command::Priority(priority) => {
                self.set_priority(priority);
            },
            Command::States(state) => {
                self.set_state_filter(state);
            },
            Command::Tags(tags) => {
                return self.set_tags(&tags);
            },
            Command::AddTag(tag) => {
                self.add_tag(tag.as_str());
            },
            Command::RemoveTag(tag) => {
                self.remove_tag(tag.as_str());
            },
            Command::ClearFilters => {
                self.clear_filters();
            },
            _ => {},
        }
        self.finish()
    }

    fn execute_edit(
        &mut self,
        command: Command,
        clock: u64,
        keys: &Vec<Vec<String>>,
        time: Option<u64>,
    ) -> (r: Reply)
        requires
            command@.is_edit(),
            keys.len() == old(self).tasks.len(),
            command@.fits(old(self)@.properties),
        ensures
            (final(self)@, r) == old(self)@.executed(command@, clock, table(keys@), time),
    {
        match command {
            Command::Note(note) => {
                self.note(note.as_str(), clock);
                return self.finish();
            },
            Command::Finish(comment) => {
                self.end_task(comment.as_str(), State::Done, clock);
                return self.finish();
            },
            Command::Close(comment) => {
                self.end_task(comment.as_str(), State::Closed, clock);
                return self.finish();
            },
            Command::Undo => {
                self.revert();
                return self.finish();
            },
            Command::Pin => {
                self.pin(clock);
                return self.finish();
            },
            Command::Procedure => {
                self.proceed(clock);
                return self.finish();
            },
            Command::Sibling(input) => {
                self.make_sibling(input.as_str(), clock);
                return self.finish();
            },
            Command::EnterProcedure(input) => {
                self.enter_procedure(input.as_str(), clock);
                return self.finish();
            },
            Command::SetState(text) => {
                self.enter_state(text.as_str(), time, clock);
                return self.finish();
            },
            Command::Tasks(lines) => {
                self.make_tasks(&lines, clock);
                return self.finish();
            },
            Command::Match(text) => {
                self.match_text(text.as_str(), clock, keys);
                return self.finish();
            },
            _ => {},
        }
        self.finish()
    }

    fn execute_move(
        &mut self,
        command: Command,
        clock: u64,
        keys: &Vec<Vec<String>>,
        time: Option<u64>,
    ) -> (r: Reply)
        requires
            command@.is_move(),
            keys.len() == old(self).tasks.len(),
            command@.fits(old(self)@.properties),
        ensures
            (final(self)@, r) == old(self)@.executed(command@, clock, table(keys@), time),
    {
        match command {
            Command::BackBy(steps) => {
                self.go_back_by(steps, clock);
                return self.finish();
            },
            Command::BackTo(text) => {
                return self.find_back(text.as_str(), clock);
            },
            Command::Track(name) => {
                return self.track_by(name.as_str(), time, clock);
            },
            Command::Stop => {
                self.move_to_root(clock);
                return self.finish();
            },
            Command::StopAt(_) => {
                return self.stop_at(time, clock);
            },
            Command::Up(count) => {
                self.move_above(count, clock);
                return self.finish();
            },
            Command::Depth(count, depth) => {
                self.move_if_above(count, clock);
                self.set_view_depth(depth);
                return self.finish();
            },
            Command::Enter(count, text) => {
                self.enter(count, text.as_str(), clock, keys);
                return self.finish();
            },
            Command::Root => {
                self.move_to_root(clock);
                return self.finish();
            },
            Command::Over(count) => {
                self.move_over(count, clock);
                return self.finish();
            },
            Command::SearchDepth(count, depth) => {
                self.move_if_above(count, clock);
                self.set_search_depth(depth);
                return self.finish();
            },
            Command::Search(count, text) => {
                return self.find(count, text.as_str(), clock, keys);
            },
            _ => {},
        }
        self.finish()
    }

    /// Does what a command says, when the clock shows the given time, the tasks are sorted by the
    /// given keys, and the time that the command holds is `time`.
    pub fn execute_at(
        &mut self,
        command: Command,
        clock: u64,
        keys: &Vec<Vec<String>>,
        time: Option<u64>,
    ) -> (r: Reply)
        requires
            keys.len() == old(self).tasks.len(),
            command@.fits(old(self)@.properties),
        ensures
            (final(self)@, r) == old(self)@.executed(command@, clock, table(keys@), time),
    {
        if sets_listing(&command) {
            self.execute_listing(command, clock, keys, time)
        } else if sets_filter(&command) {
            self.execute_filter(command, clock, keys, time)
        } else if edits(&command) {
            self.execute_edit(command, clock, keys, time)
        } else {
            self.execute_move(command, clock, keys, time)
        }
    }

    /// The command that a text stands for, with `time` the one behind it.
    pub fn take_command_at(&mut self, text: &str, time: Option<u64>) -> (r: Command)
        ensures
            (final(self)@, r@) == old(self)@.command_taken(text@, time),
    {
        match split_time(text) {
            Some((left, _)) => {
                if time.is_some() {
                    self.custom_time = time;
                    return Command::parse(left.as_str());
                }
            },
            None => {},
        }
        Command::parse(text)
    }

    /// The command that a text stands for. Where it ends in a time, that is the time of what the
    /// command does.
    pub fn take_command(&mut self, text: &str) -> (r: Command)
        ensures
            exists|time: Option<u64>|
                {
                    &&& (final(self)@, r@) == #[trigger] old(self)@.command_taken(text@, time)
                    &&& match timed(text@) {
                        Some((_, behind)) => is_time_read(behind, 20, time),
                        None => time is None,
                    }
                },
    {
        let time: Option<u64> = match split_time(text) {
            Some((_, behind)) => read_time(behind.as_str(), 20),
            None => None,
        };
        let r: Command = self.take_command_at(text, time);
        assert((self@, r@) == old(self)@.command_taken(text@, time));
        r
    }

    /// The time that a command holds, seen from the given time.
    pub fn read_held_time(&self, command: &Command, clock: u64, now: LocalTime) -> (r: Option<u64>)
        requires
            now.in_range(),
        ensures
            self@.may_hold_at(command@, clock, now, r),
    {
        match command {
            Command::By(text) => read_time_at(text.as_str(), 1, now),
            Command::SetState(text) => match split_once(text.as_str(), ": ") {
                Some((left, _)) => read_time_at(left.as_str(), 20, now),
                None => None,
            },
            Command::Track(text) => parse_tracking_stamp_at(text.as_str(), None, now, clock),
            Command::StopAt(text) => self.parse_stop_at(text.as_str(), clock, now),
            _ => None,
        }
    }

    /// Does what a command says.
    pub fn execute(&mut self, command: Command) -> (r: Reply)
        requires
            command@.fits(old(self)@.properties),
        ensures
            exists|clock: u64, keys: KeysView, time: Option<u64>|
                {
                    &&& (final(self)@, r) == #[trigger] old(self)@.executed(
                        command@,
                        clock,
                        keys,
                        time,
                    )
                    &&& old(self)@.are_keys(clock, keys)
                    &&& old(self)@.may_hold(command@, clock, time)
                },
    {
        let now: u64 = clock();
        let keys: Vec<Vec<String>> = self.sorting_keys(now);
        let local: LocalTime = local_now();
        assert(is_clock_time(local));
        let time: Option<u64> = self.read_held_time(&command, now, local);
        let ghost shown = table(keys@);
        let ghost what = command@;
        let r: Reply = self.execute_at(command, now, &keys, time);
        assert((self@, r) == old(self)@.executed(what, now, shown, time));
        r
    }
}

} // verus!
