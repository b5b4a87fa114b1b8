//! The tasks of a relay, with what the user is looking at and working on.

pub mod children_traversal;
pub mod context;
pub mod create;
pub mod display;
pub mod display_laws;
pub mod durations;
pub mod entry_laws;
pub mod execute;
pub mod filter;
pub mod filter_laws;
pub mod history_laws;
pub mod laws;
pub mod making_laws;
pub mod move_laws;
pub mod nostr_users;
pub mod order;
pub mod property;
pub mod property_laws;
pub mod relay_laws;
pub mod search_laws;
pub mod selection;
pub mod state_laws;
pub mod task_map;
pub mod task_laws;
pub mod time_laws;
pub mod times;
pub mod user_laws;
pub mod view_laws;

use crate::event_sender::{EventSender, SenderView};
use crate::hashtag::Hashtag;
use crate::kinds::{
    build_tracking, event_ref, match_event_tag, tracking_view, Prio, BOOKMARKS_KIND,
    MARKER_PROPERTY, METADATA_KIND, TASK_KIND, TEXT_NOTE_KIND, TRACKING_KIND,
};
use crate::lists::{group_views, views};
use crate::nostr::{
    BuilderView, Event, EventBuilder, EventId, EventView, PublicKey, Signer, TagView,
};
use crate::task::{Task, TaskView};
use crate::tasks::durations::{first_ref, ids_in, referenced_event, referenced_events};
use crate::tasks::nostr_users::{
    owned_text, with_metadata, with_user, MetaView, Metadata, NostrUsers, UserView,
};
use crate::tasks::task_map::{
    find_task, has_task, lemma_task_at, lemma_task_found, task_at, task_of, TasksView,
};
use crate::text::same_text;
use crate::time::clock;
use vstd::prelude::*;

verus! {

pub const DEFAULT_PRIO: Prio = 25;

pub const QUICK_PRIO: Prio = 35;

/// Amount of seconds to treat as "now"
pub const MAX_OFFSET: u64 = 9;

/// The end of what counts as now when the clock shows the given time.
pub open spec fn now_of(clock: u64) -> u64 {
    if clock + MAX_OFFSET > u64::MAX {
        u64::MAX
    } else {
        (clock + MAX_OFFSET) as u64
    }
}

pub fn now_at(clock: u64) -> (r: u64)
    ensures
        r == now_of(clock),
{
    clock.saturating_add(MAX_OFFSET)
}

pub fn now() -> (r: u64)
    ensures
        exists|clock: u64| r == #[trigger] now_of(clock),
{
    now_at(clock())
}

// ---------------------------------------------------------------------------
// Filtering by state

#[derive(Debug)]
pub enum StateFilter {
    Default,
    All,
    State(String),
}

pub enum FilterView {
    Default,
    All,
    State(Seq<char>),
}

impl View for StateFilter {
    type V = FilterView;

    open spec fn view(&self) -> FilterView {
        match self {
            StateFilter::Default => FilterView::Default,
            StateFilter::All => FilterView::All,
            StateFilter::State(s) => FilterView::State(s@),
        }
    }
}

impl FilterView {
    pub open spec fn matches(self, task: TaskView, now: u64) -> bool {
        match self {
            FilterView::Default => task.pure_state(now).open(),
            FilterView::All => true,
            FilterView::State(label) => task.state_at(now) matches Some(c) && c.matches(label),
        }
    }

    pub open spec fn indicator(self) -> Seq<char> {
        match self {
            FilterView::Default => ""@,
            FilterView::All => " ?ALL"@,
            FilterView::State(s) => " ?"@ + s,
        }
    }

    pub open spec fn text(self) -> Seq<char> {
        match self {
            FilterView::Default => "open tasks"@,
            FilterView::All => "all tasks"@,
            FilterView::State(s) => "state "@ + s,
        }
    }
}

impl Default for StateFilter {
    fn default() -> (r: StateFilter)
        ensures
            r@ == FilterView::Default,
    {
        StateFilter::Default
    }
}

impl StateFilter {
    pub fn from(str: &str) -> (r: StateFilter)
        ensures
            r@ == FilterView::State(str@),
    {
        StateFilter::State(str.to_string())
    }

    pub fn indicator(&self) -> (r: String)
        ensures
            r@ == self@.indicator(),
    {
        match self {
            StateFilter::Default => "".to_string(),
            StateFilter::All => " ?ALL".to_string(),
            StateFilter::State(s) => {
                let mut r: String = " ?".to_string();
                r.append(s.as_str());
                r
            },
        }
    }

    pub fn matches(&self, task: &Task, now: u64) -> (r: bool)
        ensures
            r == self@.matches(task@, now),
    {
        match self {
            StateFilter::Default => task.pure_state_at(now).is_open(),
            StateFilter::All => true,
            StateFilter::State(filter) => match task.state_at(now) {
                Some(t) => t.matches_label(filter.as_str()),
                None => false,
            },
        }
    }

    pub fn as_option(&self) -> (r: Option<String>)
        ensures
            match r {
                Some(s) => self@ == FilterView::State(s@),
                None => !(self@ is State),
            },
    {
        match self {
            StateFilter::State(s) => Some(s.clone()),
            _ => None,
        }
    }

    pub fn to_string(&self) -> (r: String)
        ensures
            r@ == self@.text(),
    {
        match self {
            StateFilter::Default => "open tasks".to_string(),
            StateFilter::All => "all tasks".to_string(),
            StateFilter::State(s) => {
                let mut r: String = "state ".to_string();
                r.append(s.as_str());
                r
            },
        }
    }
}

// ---------------------------------------------------------------------------
// Histories

/// What one user has tracked, in the order of time.
#[derive(Debug)]
pub struct History {
    pub key: PublicKey,
    pub events: Vec<Event>,
}

impl View for History {
    type V = (PublicKey, Seq<EventView>);

    open spec fn view(&self) -> (PublicKey, Seq<EventView>) {
        (self.key, views(self.events@))
    }
}

pub type HistoryView = Seq<(PublicKey, Seq<EventView>)>;

/// `events` with another at its time, in place of one of the same time.
pub open spec fn inserted(events: Seq<EventView>, event: EventView) -> Seq<EventView>
    decreases events.len(),
{
    if events.len() == 0 || events.last().created_at < event.created_at {
        events.push(event)
    } else if events.last().created_at == event.created_at {
        events.drop_last().push(event)
    } else {
        inserted(events.drop_last(), event).push(events.last())
    }
}

fn insert_event(events: &mut Vec<Event>, event: Event)
    ensures
        views(final(events)@) == inserted(views(old(events)@), event@),
{
    broadcast use group_views;

    let ghost all = views(events@);
    let mut at: usize = events.len();
    while at > 0 && events[at - 1].created_at > event.created_at
        invariant
            0 <= at <= events.len(),
            *events == *old(events),
            all == views(events@),
            forall|k: int| at <= k < all.len() ==> (#[trigger] all[k]).created_at > event.created_at,
        decreases at,
    {
        at -= 1;
    }
    proof {
        assert(at > 0 ==> all[at - 1] == events@[at - 1]@);
        lemma_inserted(all, event@, at as int);
    }
    if at > 0 && events[at - 1].created_at == event.created_at {
        events.set(at - 1, event);
    } else {
        events.insert(at, event);
    }
}

proof fn lemma_inserted(events: Seq<EventView>, event: EventView, at: int)
    requires
        0 <= at <= events.len(),
        at > 0 ==> events[at - 1].created_at <= event.created_at,
        forall|k: int| at <= k < events.len() ==> (#[trigger] events[k]).created_at > event.created_at,
    ensures
        inserted(events, event) == if at > 0 && events[at - 1].created_at == event.created_at {
            events.update(at - 1, event)
        } else {
            events.insert(at, event)
        },
    decreases events.len(),
{
    if at == events.len() {
        assert(events.insert(at, event) =~= events.push(event));
        if at > 0 {
            assert(events.update(at - 1, event) =~= events.drop_last().push(event));
        }
    } else {
        let rest = events.drop_last();
        lemma_inserted(rest, event, at);
        assert(rest.insert(at, event).push(events.last()) =~= events.insert(at, event));
        if at > 0 {
            assert(rest.update(at - 1, event).push(events.last()) =~= events.update(
                at - 1,
                event,
            ));
        }
    }
}

/// Where the history of a user stands, or behind the end.
pub open spec fn history_at(history: HistoryView, key: PublicKey) -> int
    decreases history.len(),
{
    if history.len() == 0 || history[0].0 == key {
        0
    } else {
        1 + history_at(history.drop_first(), key)
    }
}

pub proof fn lemma_history_at(history: HistoryView, key: PublicKey, at: int)
    requires
        0 <= at <= history.len(),
        forall|i: int| 0 <= i < at ==> (#[trigger] history[i]).0 != key,
        at < history.len() ==> history[at].0 == key,
    ensures
        history_at(history, key) == at,
    decreases history.len(),
{
    if history.len() > 0 && history[0].0 != key {
        let rest = history.drop_first();
        assert forall|i: int| 0 <= i < at - 1 implies (#[trigger] rest[i]).0 != key by {
            assert(history[i + 1].0 != key);
        }
        lemma_history_at(rest, key, at - 1);
    }
}

pub proof fn lemma_history_found(history: HistoryView, key: PublicKey)
    ensures
        0 <= history_at(history, key) <= history.len(),
        history_at(history, key) < history.len() ==> history[history_at(history, key)].0 == key,
        forall|i: int| 0 <= i < history_at(history, key) ==> (#[trigger] history[i]).0 != key,
    decreases history.len(),
{
    if history.len() > 0 && history[0].0 != key {
        let rest = history.drop_first();
        lemma_history_found(rest, key);
        let at = history_at(history, key);
        assert forall|i: int| 0 <= i < at implies (#[trigger] history[i]).0 != key by {
            if i > 0 {
                assert(rest[i - 1].0 != key);
            }
        }
    }
}

/// What a user has tracked.
pub open spec fn events_of(history: HistoryView, key: PublicKey) -> Seq<EventView> {
    let at: int = history_at(history, key);
    if at < history.len() {
        history[at].1
    } else {
        Seq::empty()
    }
}

/// The histories with another event in that of its author.
pub open spec fn with_tracking(history: HistoryView, event: EventView) -> HistoryView {
    let at: int = history_at(history, event.pubkey);
    if at < history.len() {
        history.update(at, (history[at].0, inserted(history[at].1, event)))
    } else {
        history.push((event.pubkey, seq![event]))
    }
}

/// The events that do not say the same as the given one and do not refer to it. An event is known
/// by what it says: a copy of it that was signed anew is gone as well.
pub open spec fn without_event(events: Seq<EventView>, event: EventView) -> Seq<EventView>
    decreases events.len(),
{
    if events.len() == 0 {
        Seq::empty()
    } else {
        let before = without_event(events.drop_last(), event);
        if events.last() != event && first_ref(events.last()) != Some(event.id) {
            before.push(events.last())
        } else {
            before
        }
    }
}

/// The latest event until the given time.
pub open spec fn latest_until(events: Seq<EventView>, time: u64) -> Option<EventView>
    decreases events.len(),
{
    if events.len() == 0 {
        None
    } else if events.last().created_at <= time {
        Some(events.last())
    } else {
        latest_until(events.drop_last(), time)
    }
}

/// The latest events, until the first at or before the given time.
pub open spec fn recent(events: Seq<EventView>, time: u64) -> Seq<EventView>
    decreases events.len(),
{
    if events.len() == 0 {
        Seq::empty()
    } else if events.last().created_at > time {
        seq![events.last()] + recent(events.drop_last(), time)
    } else {
        seq![events.last()]
    }
}

/// How many seconds behind `clock` are taken by the latest events: those of the next seconds
/// that count as now, and the one before.
pub open spec fn recent_count(events: Seq<EventView>, clock: u64) -> nat
    decreases events.len(),
{
    if events.len() == 0 {
        0
    } else {
        let e = events.last();
        if e.created_at > now_of(clock) {
            recent_count(events.drop_last(), clock)
        } else if e.created_at > clock {
            1 + recent_count(events.drop_last(), clock)
        } else {
            1
        }
    }
}

pub open spec fn has_time(events: Seq<EventView>, time: u64) -> bool {
    exists|i: int| 0 <= i < events.len() && (#[trigger] events[i]).created_at == time
}

/// The first time from the given one on that no event has.
pub open spec fn free_time(events: Seq<EventView>, time: u64) -> u64
    decreases u64::MAX - time,
{
    if time < u64::MAX && has_time(events, time) {
        free_time(events, (time + 1) as u64)
    } else {
        time
    }
}

// ---------------------------------------------------------------------------
// Relay

/// How far a task has come, in words, and whether it has been started.
#[derive(Debug)]
pub struct Progress {
    pub label: String,
    pub started: bool,
}

impl View for Progress {
    type V = (Seq<char>, bool);

    open spec fn view(&self) -> (Seq<char>, bool) {
        (self.label@, self.started)
    }
}

/// The progress of a task.
#[derive(Debug)]
pub struct TaskProgress {
    pub id: EventId,
    pub progress: Progress,
}

impl View for TaskProgress {
    type V = (EventId, (Seq<char>, bool));

    open spec fn view(&self) -> (EventId, (Seq<char>, bool)) {
        (self.id, self.progress@)
    }
}

#[derive(Debug)]
pub struct TasksRelay {
    /// The Tasks
    pub tasks: Vec<Task>,
    /// History of active tasks by PubKey
    pub history: Vec<History>,
    /// Index of known users with metadata
    pub users: NostrUsers,
    /// Own pinned tasks
    pub bookmarks: Vec<EventId>,
    /// The task properties currently visible
    pub properties: Vec<String>,
    /// The task properties sorted by
    pub sorting: Vec<String>,
    /// A filtered view of the current tasks.
    pub view: Vec<EventId>,
    pub search_depth: usize,
    pub view_depth: usize,
    pub recurse_activities: bool,
    /// Currently active tags
    pub tags: Vec<Hashtag>,
    /// Tags filtered out from view
    pub tags_excluded: Vec<Hashtag>,
    /// Current active state
    pub state: StateFilter,
    /// Current priority for filtering and new tasks
    pub priority: Option<Prio>,
    pub keys: Vec<PublicKey>,
    pub own_keys: Vec<PublicKey>,
    pub sender: EventSender,
    pub overflow: Vec<Event>,
    pub custom_time: Option<u64>,
    /// The progress of tasks, as it was last told
    pub progress: Vec<TaskProgress>,
}

#[verifier::ext_equal]
pub struct RelayView {
    pub tasks: TasksView,
    pub history: HistoryView,
    pub users: Seq<UserView>,
    pub bookmarks: Seq<EventId>,
    pub properties: Seq<Seq<char>>,
    pub sorting: Seq<Seq<char>>,
    pub view: Seq<EventId>,
    pub search_depth: usize,
    pub view_depth: usize,
    pub recurse_activities: bool,
    pub tags: Seq<Seq<char>>,
    pub tags_excluded: Seq<Seq<char>>,
    pub state: FilterView,
    pub priority: Option<Prio>,
    pub keys: Seq<PublicKey>,
    pub own_keys: Seq<PublicKey>,
    pub sender: SenderView,
    pub overflow: Seq<EventView>,
    pub custom_time: Option<u64>,
    pub progress: Seq<(EventId, (Seq<char>, bool))>,
}

impl View for TasksRelay {
    type V = RelayView;

    open spec fn view(&self) -> RelayView {
        RelayView {
            tasks: views(self.tasks@),
            history: views(self.history@),
            users: self.users@,
            bookmarks: self.bookmarks@,
            properties: views(self.properties@),
            sorting: views(self.sorting@),
            view: self.view@,
            search_depth: self.search_depth,
            view_depth: self.view_depth,
            recurse_activities: self.recurse_activities,
            tags: views(self.tags@),
            tags_excluded: views(self.tags_excluded@),
            state: self.state@,
            priority: self.priority,
            keys: self.keys@,
            own_keys: self.own_keys@,
            sender: self.sender@,
            overflow: views(self.overflow@),
            custom_time: self.custom_time,
            progress: views(self.progress@),
        }
    }
}

// ---------------------------------------------------------------------------
// Taking in events

/// Whether a reference makes an event an update of the task referred to: it has no marker, or
/// that of a property.
pub open spec fn prop_target(tag: TagView) -> Option<EventId> {
    match event_ref(tag) {
        Some(r) => match r.marker {
            Some(m) => if m == MARKER_PROPERTY@ {
                Some(r.id)
            } else {
                None
            },
            None => Some(r.id),
        },
        None => None,
    }
}

/// The tasks with an update at each known task that the tags make it an update of.
pub open spec fn with_prop_at(tasks: TasksView, tags: Seq<TagView>, event: EventView) -> TasksView
    decreases tags.len(),
{
    if tags.len() == 0 {
        tasks
    } else {
        let before = with_prop_at(tasks, tags.drop_last(), event);
        match prop_target(tags.last()) {
            Some(id) => if has_task(before, id) {
                before.update(task_at(before, id), before[task_at(before, id)].with_prop(event))
            } else {
                before
            },
            None => before,
        }
    }
}

/// The tasks without an update at each known task that the tags make it an update of.
pub open spec fn without_prop_at(
    tasks: TasksView,
    tags: Seq<TagView>,
    event: EventView,
) -> TasksView
    decreases tags.len(),
{
    if tags.len() == 0 {
        tasks
    } else {
        let before = without_prop_at(tasks, tags.drop_last(), event);
        match prop_target(tags.last()) {
            Some(id) => if has_task(before, id) {
                before.update(task_at(before, id), before[task_at(before, id)].without_prop(event))
            } else {
                before
            },
            None => before,
        }
    }
}

/// Whether the tags refer to a known task as one to update.
pub open spec fn has_target(tasks: TasksView, tags: Seq<TagView>) -> bool {
    exists|i: int|
        0 <= i < tags.len() && (prop_target(#[trigger] tags[i]) matches Some(id) && has_task(
            tasks,
            id,
        ))
}

/// The tasks with the one that an event starts, unless it is known.
pub open spec fn with_task(tasks: TasksView, event: EventView) -> TasksView {
    if has_task(tasks, event.id) {
        tasks
    } else {
        tasks.push(TaskView::of(event))
    }
}

/// The tasks without the one of the given id.
pub open spec fn without_task(tasks: TasksView, id: EventId) -> TasksView {
    if has_task(tasks, id) {
        tasks.remove(task_at(tasks, id))
    } else {
        tasks
    }
}

/// The name and display name in the JSON of metadata, if it can be read.
pub uninterp spec fn metadata_in(json: Seq<char>) -> Option<
    (Option<Seq<char>>, Option<Seq<char>>),
>;

/// `nostr_sdk::Metadata::from_json`: whether the text can be read, and the two names in it, depend
/// on the text alone.
#[verifier::external_body]
fn read_metadata(json: &str) -> (r: Option<(Option<String>, Option<String>)>)
    ensures
        match r {
            Some((name, display_name)) => metadata_in(json@) == Some(
                (owned_text(name), owned_text(display_name)),
            ),
            None => metadata_in(json@) is None,
        },
{
    let metadata = <nostr_sdk::Metadata as nostr_sdk::JsonUtil>::from_json(json).ok()?;
    Some((metadata.name, metadata.display_name))
}

impl RelayView {
    pub open spec fn own_events(self) -> Seq<EventView> {
        events_of(self.history, self.sender.key)
    }

    /// The update of each task that the event refers to, if any is known; else a note starts an
    /// activity. None if the event is neither.
    pub open spec fn prop_added(self, event: EventView) -> Option<RelayView> {
        if has_target(self.tasks, event.tags) {
            Some(RelayView { tasks: with_prop_at(self.tasks, event.tags, event), ..self })
        } else if event.kind == TEXT_NOTE_KIND {
            Some(RelayView { tasks: with_task(self.tasks, event), ..self })
        } else {
            None
        }
    }

    /// What is known once an event has come in.
    pub open spec fn added(self, event: EventView) -> RelayView {
        let this = RelayView { users: with_user(self.users, event.pubkey), ..self };
        if event.kind == TASK_KIND {
            RelayView { tasks: with_task(self.tasks, event), ..this }
        } else if event.kind == METADATA_KIND {
            match metadata_in(event.content) {
                Some((name, display_name)) => RelayView {
                    users: with_metadata(
                        this.users,
                        event.pubkey,
                        MetaView { name, display_name },
                        event.created_at,
                    ),
                    ..this
                },
                None => this,
            }
        } else if event.kind == BOOKMARKS_KIND {
            if event.pubkey == self.sender.key {
                RelayView { bookmarks: ids_in(event.tags), ..this }
            } else {
                this
            }
        } else if event.kind == TRACKING_KIND {
            RelayView { history: with_tracking(self.history, event), ..this }
        } else {
            match this.prop_added(event) {
                Some(after) => after,
                None => RelayView { overflow: self.overflow.push(event), ..this },
            }
        }
    }

    /// Events that could not be placed are tried again, the latest first; those that still cannot
    /// be placed are given up.
    pub open spec fn overflow_processed(self) -> RelayView
        decreases self.overflow.len(),
    {
        if self.overflow.len() == 0 {
            self
        } else {
            let event = self.overflow.last();
            let rest = RelayView { overflow: self.overflow.drop_last(), ..self };
            let after = match rest.prop_added(event) {
                Some(after) => after,
                None => rest,
            };
            RelayView { overflow: rest.overflow, ..after }.overflow_processed()
        }
    }

    /// What is known once an event has been taken back.
    pub open spec fn removed(self, event: EventView) -> RelayView {
        let at: int = history_at(self.history, self.sender.key);
        let history = if at < self.history.len() {
            self.history.update(
                at,
                (self.history[at].0, without_event(self.history[at].1, event)),
            )
        } else {
            self.history
        };
        RelayView {
            tasks: without_prop_at(without_task(self.tasks, event.id), event.tags, event),
            history,
            ..self
        }
    }

    /// What is known once the given events have been taken back, the latest first.
    pub open spec fn all_removed(self, events: Seq<EventView>) -> RelayView
        decreases events.len(),
    {
        if events.len() == 0 {
            self
        } else {
            self.removed(events.last()).all_removed(events.drop_last())
        }
    }

    /// All pending events are taken back.
    pub open spec fn undone(self) -> RelayView {
        RelayView { sender: self.sender.cleared(), ..self }.all_removed(self.sender.queue)
    }

    /// An event of one's own is made, held back and taken in.
    pub open spec fn submitted(self, builder: BuilderView, clock: u64) -> RelayView {
        let event = self.event_from(builder, clock);
        RelayView { sender: self.sender.with_event(event, clock), ..self }.added(event)
    }

    /// The event that is made: at the time that is set for all actions, if there is one.
    pub open spec fn event_from(self, builder: BuilderView, clock: u64) -> EventView {
        (match self.custom_time {
            Some(time) => builder.custom_created_at(time),
            None => builder,
        }).signed(self.sender.key, clock)
    }

    /// The last change of position until the given time, and the position then.
    pub open spec fn position_at(self, time: u64, clock: u64) -> (u64, Option<EventId>) {
        match latest_until(self.own_events(), time) {
            Some(e) => (e.created_at, first_ref(e)),
            None => (clock, None),
        }
    }

    /// The task that is active when the clock shows the given time.
    pub open spec fn position(self, clock: u64) -> Option<EventId> {
        self.position_at(now_of(clock), clock).1
    }

    /// The time that tracking is recorded with: for a stop the second before, for a start the
    /// next one that is free.
    pub open spec fn tracking_time(self, time: u64, target: Option<EventId>) -> u64 {
        match target {
            None => if time > 0 {
                (time - 1) as u64
            } else {
                0
            },
            Some(_) => free_time(self.own_events(), time),
        }
    }

    /// Whether tracking the target from the given time would change nothing.
    pub open spec fn is_tracked_at(self, time: u64, target: Option<EventId>, clock: u64) -> bool {
        (time < clock || target is None) && self.position_at(time, clock).1 == target
    }

    pub open spec fn track_builder(self, time: u64, target: Option<EventId>) -> BuilderView {
        tracking_view(target).custom_created_at(self.tracking_time(time, target))
    }

    /// The target is tracked from the given time on.
    pub open spec fn tracking_at(self, time: u64, target: Option<EventId>, clock: u64) -> RelayView {
        if self.is_tracked_at(self.tracking_time(time, target), target, clock) {
            self
        } else {
            self.submitted(self.track_builder(time, target), clock)
        }
    }

    /// Whether the target is a child of the current position.
    pub open spec fn is_child_of_position(self, target: Option<EventId>, clock: u64) -> bool {
        target matches Some(id) && (task_of(self.tasks, id) matches Some(t) && t.parent()
            == self.position(clock))
    }

    /// The time that a move is recorded with: each of several moves within the same second gets a
    /// second of its own.
    pub open spec fn move_time(self, clock: u64) -> u64 {
        let t: int = clock + recent_count(self.own_events(), clock);
        if t > u64::MAX {
            u64::MAX
        } else {
            t as u64
        }
    }

    /// The target becomes the position. Pending events are handed over unless the move is to a
    /// child.
    pub open spec fn moved_to(self, target: Option<EventId>, clock: u64) -> RelayView {
        match self.custom_time {
            Some(time) => self.tracking_at(time, target, clock),
            None => {
                let this = RelayView { view: Seq::empty(), ..self };
                if target == self.position(clock) {
                    RelayView { sender: self.sender.flushed(), ..this }
                } else {
                    let flushed = if self.is_child_of_position(target, clock) {
                        this
                    } else {
                        RelayView { sender: self.sender.flushed(), ..this }
                    };
                    flushed.submitted(
                        tracking_view(target).custom_created_at(self.move_time(clock)),
                        clock,
                    )
                }
            },
        }
    }
}

pub proof fn lemma_prop_at_ids(tasks: TasksView, tags: Seq<TagView>, event: EventView)
    ensures
        with_prop_at(tasks, tags, event).len() == tasks.len(),
        forall|i: int|
            0 <= i < tasks.len() ==> (#[trigger] with_prop_at(tasks, tags, event)[i]).event
                == tasks[i].event,
        without_prop_at(tasks, tags, event).len() == tasks.len(),
        forall|i: int|
            0 <= i < tasks.len() ==> (#[trigger] without_prop_at(tasks, tags, event)[i]).event
                == tasks[i].event,
    decreases tags.len(),
{
    if tags.len() > 0 {
        lemma_prop_at_ids(tasks, tags.drop_last(), event);
        let a = with_prop_at(tasks, tags.drop_last(), event);
        let b = without_prop_at(tasks, tags.drop_last(), event);
        match prop_target(tags.last()) {
            Some(id) => {
                lemma_task_found(a, id);
                lemma_task_found(b, id);
            },
            None => {},
        }
    }
}

/// Where a task stands depends on the ids alone.
pub proof fn lemma_same_ids(a: TasksView, b: TasksView, id: EventId)
    requires
        a.len() == b.len(),
        forall|i: int| 0 <= i < a.len() ==> (#[trigger] a[i]).event.id == b[i].event.id,
    ensures
        task_at(a, id) == task_at(b, id),
{
    lemma_task_found(a, id);
    let at = task_at(a, id);
    assert forall|i: int| 0 <= i < at implies (#[trigger] b[i]).event.id != id by {
        assert(a[i].event.id != id);
    }
    lemma_task_at(b, id, at);
}

impl TasksRelay {
    pub fn with_sender(sender: EventSender) -> (r: TasksRelay)
        ensures
            r@ == RelayView::new(sender@),
    {
        broadcast use group_views;

        let mut properties: Vec<String> = Vec::new();
        properties.push("owner".to_string());
        properties.push("prio".to_string());
        properties.push("state".to_string());
        properties.push("rtime".to_string());
        properties.push("hashtags".to_string());
        properties.push("rpath".to_string());
        properties.push("desc".to_string());
        let mut sorting: Vec<String> = Vec::new();
        sorting.push("priority".to_string());
        sorting.push("status".to_string());
        sorting.push("owner".to_string());
        sorting.push("hashtags".to_string());
        sorting.push("rtime".to_string());
        sorting.push("name".to_string());
        let key: PublicKey = sender.pubkey();
        let mut keys: Vec<PublicKey> = Vec::new();
        keys.push(key);
        let mut own_keys: Vec<PublicKey> = Vec::new();
        own_keys.push(key);
        let r: TasksRelay = TasksRelay {
            tasks: Vec::new(),
            history: Vec::new(),
            users: NostrUsers::default(),
            bookmarks: Vec::new(),
            properties,
            sorting,
            view: Vec::new(),
            search_depth: 4,
            view_depth: 0,
            recurse_activities: false,
            tags: Vec::new(),
            tags_excluded: Vec::new(),
            state: StateFilter::Default,
            priority: None,
            keys,
            own_keys,
            sender,
            overflow: Vec::new(),
            custom_time: None,
            progress: Vec::new(),
        };
        assert(r@ =~= RelayView::new(sender@));
        r
    }

    pub fn from_at(
        url: Option<String>,
        signer: Signer,
        metadata: Option<Metadata>,
        clock: u64,
    ) -> (r: TasksRelay)
        ensures
            r@ == RelayView::from(
                owned_text(url),
                signer.key(),
                owned_meta(metadata),
                clock,
            ),
    {
        let key: PublicKey = signer.pubkey();
        let mut r: TasksRelay = TasksRelay::with_sender(EventSender::from(url, signer));
        match metadata {
            Some(m) => {
                r.users.insert(key, m, clock);
            },
            None => {},
        }
        assert(r@ =~= RelayView::from(
            owned_text(url),
            key,
            owned_meta(metadata),
            clock,
        ));
        r
    }

    pub fn from(url: Option<String>, signer: Signer, metadata: Option<Metadata>) -> (r: TasksRelay)
        ensures
            exists|clock: u64|
                r@ == #[trigger] RelayView::from(
                    owned_text(url),
                    signer.key(),
                    owned_meta(metadata),
                    clock,
                ),
    {
        TasksRelay::from_at(url, signer, metadata, clock())
    }

    // Accessors

    pub fn get_by_id(&self, id: &EventId) -> (r: Option<&Task>)
        ensures
            match r {
                Some(t) => task_of(self@.tasks, *id) == Some(t@),
                None => task_of(self@.tasks, *id) is None,
            },
    {
        let at: usize = find_task(&self.tasks, *id);
        if at < self.tasks.len() {
            assert(self@.tasks[at as int] == self.tasks@[at as int]@);
            Some(&self.tasks[at])
        } else {
            None
        }
    }

    pub fn len(&self) -> (r: usize)
        ensures
            r == self@.tasks.len(),
    {
        self.tasks.len()
    }

    pub fn own_keys(&self) -> (r: &Vec<PublicKey>)
        ensures
            r@ == self@.own_keys,
    {
        &self.own_keys
    }

    pub fn own_key(&self) -> (r: PublicKey)
        ensures
            r == self@.sender.key,
    {
        self.sender.pubkey()
    }

    fn find_history(&self, key: PublicKey) -> (r: usize)
        ensures
            r == history_at(self@.history, key),
            r <= self.history.len(),
            r < self.history.len() ==> self.history[r as int].key == key,
            r < self.history.len() ==> self@.history[r as int] == self.history[r as int]@,
    {
        let ghost all = self@.history;
        let mut i: usize = 0;
        while i < self.history.len() && self.history[i].key != key
            invariant
                0 <= i <= self.history.len(),
                all == views(self.history@),
                forall|k: int| 0 <= k < i ==> (#[trigger] all[k]).0 != key,
            decreases self.history.len() - i,
        {
            i += 1;
        }
        proof {
            assert(i < self.history.len() ==> all[i as int] == self.history@[i as int]@);
            lemma_history_at(all, key, i as int);
        }
        i
    }

    /// What the current user has tracked, if there is anything.
    pub fn get_own_history(&self) -> (r: Option<&Vec<Event>>)
        ensures
            match r {
                Some(events) => views(events@) == self@.own_events() && history_at(
                    self@.history,
                    self@.sender.key,
                ) < self@.history.len(),
                None => self@.own_events() == Seq::<EventView>::empty() && history_at(
                    self@.history,
                    self@.sender.key,
                ) == self@.history.len(),
            },
    {
        let at: usize = self.find_history(self.sender.pubkey());
        if at < self.history.len() {
            Some(&self.history[at].events)
        } else {
            None
        }
    }

    /// What the current user has tracked.
    pub fn get_own_events_history(&self) -> (r: Vec<Event>)
        ensures
            views(r@) == self@.own_events(),
    {
        broadcast use group_views;

        match self.get_own_history() {
            Some(events) => crate::nostr::clone_events(events),
            None => Vec::new(),
        }
    }

    /// Returns all recent events from history until the first event at or before the given timestamp.
    pub fn history_from(&self, stamp: u64) -> (r: Vec<Event>)
        ensures
            views(r@) == recent(self@.own_events(), stamp),
    {
        broadcast use group_views;

        let events: Vec<Event> = self.get_own_events_history();
        let ghost all = views(events@);
        let mut r: Vec<Event> = Vec::new();
        let mut i: usize = events.len();
        assert(all.take(events@.len() as int) =~= all);
        assert(views(r@) + recent(all, stamp) =~= recent(all, stamp));
        while i > 0
            invariant
                0 <= i <= events.len(),
                all == views(events@),
                all == self@.own_events(),
                views(r@) + recent(all.take(i as int), stamp) == recent(all, stamp),
            decreases i,
        {
            assert(all.take(i as int).drop_last() =~= all.take(i - 1));
            assert(all.take(i as int).last() == events@[i - 1]@);
            let ghost before = views(r@);
            i -= 1;
            r.push(events[i].clone());
            if events[i].created_at <= stamp {
                assert(views(r@) =~= recent(all, stamp));
                return r;
            }
            assert(views(r@) + recent(all.take(i as int), stamp) =~= before + recent(
                all.take(i + 1),
                stamp,
            ));
        }
        assert(views(r@) =~= recent(all, stamp));
        r
    }

    /// Gets last position change before the given timestamp
    pub fn get_position_at(&self, timestamp: u64, clock: u64) -> (r: (u64, Option<EventId>))
        ensures
            r == self@.position_at(timestamp, clock),
    {
        match self.get_own_history() {
            Some(events) => {
                let ghost all = views(events@);
                let mut i: usize = events.len();
                assert(all.take(events@.len() as int) =~= all);
                while i > 0
                    invariant
                        0 <= i <= events.len(),
                        all == views(events@),
                        all == self@.own_events(),
                        latest_until(all, timestamp) == latest_until(all.take(i as int), timestamp),
                    decreases i,
                {
                    assert(all.take(i as int).drop_last() =~= all.take(i - 1));
                    assert(all.take(i as int).last() == events@[i - 1]@);
                    i -= 1;
                    if events[i].created_at <= timestamp {
                        return (events[i].created_at, referenced_event(&events[i]));
                    }
                }
                (clock, None)
            },
            None => (clock, None),
        }
    }

    pub fn position(&self, clock: u64) -> (r: Option<EventId>)
        ensures
            r == self@.position(clock),
    {
        self.get_position_at(now_at(clock), clock).1
    }

    pub fn get_position(&self) -> (r: Option<EventId>)
        ensures
            exists|clock: u64| r == #[trigger] self@.position(clock),
    {
        self.position(clock())
    }

    pub fn get_position_timestamped(&self) -> (r: (u64, Option<EventId>))
        ensures
            exists|clock: u64| r == self@.position_at(#[trigger] now_of(clock), clock),
    {
        let now: u64 = clock();
        let r: (u64, Option<EventId>) = self.get_position_at(now_at(now), now);
        assert(r == self@.position_at(now_of(now), now));
        r
    }

    // Updates

    pub fn add_task(&mut self, event: Event)
        ensures
            final(self)@ == (RelayView {
                tasks: with_task(old(self)@.tasks, event@),
                ..old(self)@
            }),
    {
        broadcast use group_views;

        if find_task(&self.tasks, event.id) >= self.tasks.len() {
            self.tasks.push(Task::new(event));
        }
        assert(self@ =~= RelayView { tasks: with_task(old(self)@.tasks, event@), ..old(self)@ });
    }

    /// Adds the event to each task referenced by it with no or property marker.
    /// Returns true if any task was found.
    fn add_to_referenced_tasks(&mut self, event: &Event) -> (r: bool)
        ensures
            r == has_target(old(self)@.tasks, event@.tags),
            final(self)@ == (RelayView {
                tasks: with_prop_at(old(self)@.tasks, event@.tags, event@),
                ..old(self)@
            }),
    {
        broadcast use group_views;

        let ghost start = self@.tasks;
        let ghost all = event@.tags;
        let mut found: bool = false;
        let mut i: usize = 0;
        assert(all.take(0) =~= Seq::<TagView>::empty());
        while i < event.tags.len()
            invariant
                0 <= i <= event.tags.len(),
                all == views(event.tags@),
                all == event@.tags,
                start == old(self)@.tasks,
                self@ == (RelayView {
                    tasks: with_prop_at(start, all.take(i as int), event@),
                    ..old(self)@
                }),
                found == has_target(start, all.take(i as int)),
            decreases event.tags.len() - i,
        {
            let ghost before = self@;
            assert(all.take(i + 1).drop_last() =~= all.take(i as int));
            assert(all.take(i + 1).last() == event.tags@[i as int]@);
            let target: Option<EventId> = target_of(&event.tags[i]);
            proof {
                lemma_prop_at_ids(start, all.take(i as int), event@);
                match target {
                    Some(id) => {
                        lemma_same_ids(start, before.tasks, id);
                    },
                    None => {},
                }
            }
            let ghost was = found;
            match target {
                Some(id) => {
                    let at: usize = find_task(&self.tasks, id);
                    if at < self.tasks.len() {
                        found = true;
                        let mut task: Task = self.tasks.remove(at);
                        task.add_prop(event.clone());
                        self.tasks.insert(at, task);
                        assert(self@.tasks =~= before.tasks.update(
                            at as int,
                            before.tasks[at as int].with_prop(event@),
                        ));
                    }
                },
                None => {},
            }
            assert(found == has_target(start, all.take(i + 1))) by {
                if was {
                    let k = choose|k: int|
                        0 <= k < i && (prop_target(#[trigger] all.take(i as int)[k]) matches Some(id)
                            && has_task(start, id));
                    assert(all.take(i + 1)[k] == all.take(i as int)[k]);
                }
                if found && !was {
                    assert(prop_target(all.take(i + 1)[i as int]) == target);
                }
                if has_target(start, all.take(i + 1)) {
                    let k = choose|k: int|
                        0 <= k < i + 1 && (prop_target(#[trigger] all.take(i + 1)[k]) matches Some(
                            id,
                        ) && has_task(start, id));
                    if k < i {
                        assert(all.take(i as int)[k] == all.take(i + 1)[k]);
                    }
                }
            }
            assert(self@ =~= RelayView {
                tasks: with_prop_at(start, all.take(i + 1), event@),
                ..old(self)@
            });
            i += 1;
        }
        assert(all.take(event.tags@.len() as int) =~= all);
        found
    }

    /// Takes the event out of each task referenced by it with no or property marker.
    fn remove_from_referenced_tasks(&mut self, event: &Event)
        ensures
            final(self)@ == (RelayView {
                tasks: without_prop_at(old(self)@.tasks, event@.tags, event@),
                ..old(self)@
            }),
    {
        broadcast use group_views;

        let ghost start = self@.tasks;
        let ghost all = event@.tags;
        let mut i: usize = 0;
        assert(all.take(0) =~= Seq::<TagView>::empty());
        while i < event.tags.len()
            invariant
                0 <= i <= event.tags.len(),
                all == views(event.tags@),
                all == event@.tags,
                start == old(self)@.tasks,
                self@ == (RelayView {
                    tasks: without_prop_at(start, all.take(i as int), event@),
                    ..old(self)@
                }),
            decreases event.tags.len() - i,
        {
            let ghost before = self@;
            assert(all.take(i + 1).drop_last() =~= all.take(i as int));
            assert(all.take(i + 1).last() == event.tags@[i as int]@);
            match target_of(&event.tags[i]) {
                Some(id) => {
                    let at: usize = find_task(&self.tasks, id);
                    if at < self.tasks.len() {
                        let mut task: Task = self.tasks.remove(at);
                        task.remove_prop(event);
                        self.tasks.insert(at, task);
                        assert(self@.tasks =~= before.tasks.update(
                            at as int,
                            before.tasks[at as int].without_prop(event@),
                        ));
                    }
                },
                None => {},
            }
            assert(self@ =~= RelayView {
                tasks: without_prop_at(start, all.take(i + 1), event@),
                ..old(self)@
            });
            i += 1;
        }
        assert(all.take(event.tags@.len() as int) =~= all);
    }

    /// Add event as prop, returning it if not processable
    fn add_prop(&mut self, event: Event) -> (r: Option<Event>)
        ensures
            match r {
                Some(e) => e@ == event@ && old(self)@.prop_added(event@) is None && final(self)@
                    == old(self)@,
                None => old(self)@.prop_added(event@) == Some(final(self)@),
            },
    {
        let found: bool = self.add_to_referenced_tasks(&event);
        if !found {
            proof {
                lemma_no_target(old(self)@.tasks, event@.tags, event@);
            }
            if event.kind == TEXT_NOTE_KIND {
                self.add_task(event);
            } else {
                return Some(event);
            }
        }
        None
    }

    pub fn add(&mut self, event: Event)
        ensures
            final(self)@ == old(self)@.added(event@),
    {
        broadcast use group_views;

        let author: PublicKey = event.pubkey;
        self.users.create(author);
        if event.kind == TASK_KIND {
            self.add_task(event);
        } else if event.kind == METADATA_KIND {
            match read_metadata(event.content.as_str()) {
                Some((name, display_name)) => {
                    self.users.insert(author, Metadata { name, display_name }, event.created_at);
                },
                None => {},
            }
        } else if event.kind == BOOKMARKS_KIND {
            if author == self.sender.pubkey() {
                self.bookmarks = referenced_events(&event);
            }
        } else if event.kind == TRACKING_KIND {
            self.add_tracking(event);
        } else {
            match self.add_prop(event) {
                Some(event) => {
                    self.overflow.push(event);
                },
                None => {},
            }
        }
        assert(self@ =~= old(self)@.added(event@));
    }

    fn add_tracking(&mut self, event: Event)
        ensures
            final(self)@ == (RelayView {
                history: with_tracking(old(self)@.history, event@),
                ..old(self)@
            }),
    {
        broadcast use group_views;

        let at: usize = self.find_history(event.pubkey);
        if at < self.history.len() {
            let mut history: History = self.history.remove(at);
            insert_event(&mut history.events, event);
            self.history.insert(at, history);
            assert(self@.history =~= with_tracking(old(self)@.history, event@));
        } else {
            let key: PublicKey = event.pubkey;
            let mut events: Vec<Event> = Vec::new();
            events.push(event);
            assert(views(events@) =~= seq![event@]);
            self.history.push(History { key, events });
        }
        assert(self@ =~= RelayView {
            history: with_tracking(old(self)@.history, event@),
            ..old(self)@
        });
    }

    /// Tries again to place events that could not be placed.
    pub fn process_overflow(&mut self)
        ensures
            final(self)@ == old(self)@.overflow_processed(),
    {
        broadcast use group_views;

        while self.overflow.len() > 0
            invariant
                old(self)@.overflow_processed() == self@.overflow_processed(),
            decreases self.overflow.len(),
        {
            let ghost before = self@;
            match self.overflow.pop() {
                Some(event) => {
                    let ghost rest = RelayView { overflow: before.overflow.drop_last(), ..before };
                    assert(before.overflow.last() == event@);
                    assert(self@ =~= rest);
                    self.add_prop(event);
                },
                None => {},
            }
        }
    }

    fn remove(&mut self, event: &Event)
        ensures
            final(self)@ == old(self)@.removed(event@),
    {
        broadcast use group_views;

        let at: usize = find_task(&self.tasks, event.id);
        if at < self.tasks.len() {
            self.tasks.remove(at);
        }
        assert(self@.tasks =~= without_task(old(self)@.tasks, event.id));
        let at: usize = self.find_history(self.sender.pubkey());
        if at < self.history.len() {
            let mut history: History = self.history.remove(at);
            remove_event(&mut history.events, event);
            self.history.insert(at, history);
            assert(self@.history =~= old(self)@.removed(event@).history);
        }
        self.remove_from_referenced_tasks(event);
        assert(self@ =~= old(self)@.removed(event@));
    }

    /// Takes back all pending events.
    pub fn undo(&mut self)
        ensures
            final(self)@ == old(self)@.undone(),
    {
        broadcast use group_views;

        let mut events: Vec<Event> = self.sender.clear();
        assert(self@ =~= RelayView { sender: old(self)@.sender.cleared(), ..old(self)@ });
        while events.len() > 0
            invariant
                old(self)@.undone() == self@.all_removed(views(events@)),
            decreases events.len(),
        {
            let ghost all = views(events@);
            match events.pop() {
                Some(event) => {
                    assert(all.last() == event@);
                    assert(all.drop_last() =~= views(events@));
                    self.remove(&event);
                },
                None => {},
            }
        }
    }

    /// Sign and queue the event to the relay, returning its id
    pub fn submit_at(&mut self, builder: EventBuilder, clock: u64) -> (r: EventId)
        ensures
            r == old(self)@.event_from(builder@, clock).id,
            final(self)@ == old(self)@.submitted(builder@, clock),
            final(self).sender.signed(),
    {
        let builder: EventBuilder = match self.custom_time {
            Some(stamp) => builder.custom_created_at(stamp),
            None => builder,
        };
        let event: Event = self.sender.submit_at(builder, clock);
        let id: EventId = event.id;
        self.add(event);
        proof {
            use_type_invariant(&self.sender);
        }
        id
    }

    pub fn submit(&mut self, builder: EventBuilder) -> (r: EventId)
        ensures
            exists|clock: u64|
                r == (#[trigger] old(self)@.event_from(builder@, clock)).id && final(self)@ == old(
                    self,
                )@.submitted(builder@, clock),
            final(self).sender.signed(),
    {
        let now: u64 = clock();
        let r: EventId = self.submit_at(builder, now);
        assert(r == old(self)@.event_from(builder@, now).id);
        r
    }

    fn free_time(&self, time: u64) -> (r: u64)
        ensures
            r == free_time(self@.own_events(), time),
    {
        let mut t: u64 = time;
        match self.get_own_history() {
            Some(events) => {
                let ghost all = views(events@);
                while t < u64::MAX && taken_at(events, t)
                    invariant
                        all == views(events@),
                        free_time(all, time) == free_time(all, t),
                    decreases u64::MAX - t,
                {
                    t += 1;
                }
                t
            },
            None => t,
        }
    }

    /// Track the target from the given time, or stop tracking. None if that changes nothing.
    pub fn track_at_clock(&mut self, time: u64, target: Option<EventId>, clock: u64) -> (r: Option<
        EventId,
    >)
        ensures
            final(self)@ == old(self)@.tracking_at(time, target, clock),
            match r {
                Some(id) => !old(self)@.is_tracked_at(
                    old(self)@.tracking_time(time, target),
                    target,
                    clock,
                ) && id == old(self)@.event_from(old(self)@.track_builder(time, target), clock).id,
                None => old(self)@.is_tracked_at(
                    old(self)@.tracking_time(time, target),
                    target,
                    clock,
                ),
            },
    {
        let time: u64 = match target {
            None => {
                // Prevent random overlap with tracking started in the same second
                time.saturating_sub(1)
            },
            Some(_) => self.free_time(time),
        };
        let pos_at: (u64, Option<EventId>) = self.get_position_at(time, clock);
        if (time < clock || target.is_none()) && pos_at.1 == target {
            return None;
        }
        let id: EventId = self.submit_at(build_tracking(target).custom_created_at(time), clock);
        Some(id)
    }

    pub fn track_at(&mut self, time: u64, target: Option<EventId>) -> (r: Option<EventId>)
        ensures
            exists|clock: u64|
                {
                    &&& final(self)@ == #[trigger] old(self)@.tracking_at(time, target, clock)
                    &&& r is None <==> old(self)@.is_tracked_at(
                        old(self)@.tracking_time(time, target),
                        target,
                        clock,
                    )
                    &&& r matches Some(id) ==> id == old(self)@.event_from(
                        old(self)@.track_builder(time, target),
                        clock,
                    ).id
                },
    {
        let now: u64 = clock();
        let r: Option<EventId> = self.track_at_clock(time, target, now);
        assert(self@ == old(self)@.tracking_at(time, target, now));
        r
    }

    fn move_time(&self, clock: u64) -> (r: u64)
        ensures
            r == self@.move_time(clock),
    {
        let mut t: u64 = clock;
        match self.get_own_history() {
            Some(events) => {
                let ghost all = views(events@);
                let end: u64 = now_at(clock);
                let mut i: usize = events.len();
                let ghost mut count: nat = 0;
                assert(all.take(events@.len() as int) =~= all);
                while i > 0
                    invariant
                        0 <= i <= events.len(),
                        all == views(events@),
                        all == self@.own_events(),
                        end == now_of(clock),
                        recent_count(all, clock) == count + recent_count(
                            all.take(i as int),
                            clock,
                        ),
                        t == if clock + count > u64::MAX {
                            u64::MAX as int
                        } else {
                            clock + count
                        },
                    decreases i,
                {
                    assert(all.take(i as int).drop_last() =~= all.take(i - 1));
                    assert(all.take(i as int).last() == events@[i - 1]@);
                    i -= 1;
                    let time: u64 = events[i].created_at;
                    if time <= end {
                        t = t.saturating_add(1);
                        proof {
                            count = count + 1;
                        }
                        if time <= clock {
                            return t;
                        }
                    }
                }
                t
            },
            None => t,
        }
    }

    pub fn move_to_at(&mut self, target: Option<EventId>, clock: u64)
        ensures
            final(self)@ == old(self)@.moved_to(target, clock),
    {
        match self.custom_time {
            Some(time) => {
                self.track_at_clock(time, target, clock);
                return ;
            },
            None => {},
        }
        self.view.clear();
        let pos: Option<EventId> = self.position(clock);
        let ghost this = RelayView { view: Seq::empty(), ..old(self)@ };
        assert(self@ =~= this);
        if target == pos {
            self.sender.flush();
            assert(self@ =~= old(self)@.moved_to(target, clock));
            return ;
        }
        let child: bool = match target {
            Some(id) => match self.get_by_id(&id) {
                Some(t) => t.parent_id() == pos,
                None => false,
            },
            None => false,
        };
        if !child {
            self.sender.flush();
            assert(self@ =~= RelayView { sender: this.sender.flushed(), ..this });
        }
        let time: u64 = self.move_time(clock);
        self.submit_at(build_tracking(target).custom_created_at(time), clock);
    }

    pub fn move_to(&mut self, target: Option<EventId>)
        ensures
            exists|clock: u64| final(self)@ == #[trigger] old(self)@.moved_to(target, clock),
    {
        self.move_to_at(target, clock());
    }
}

pub open spec fn owned_meta(m: Option<Metadata>) -> Option<MetaView> {
    match m {
        Some(m) => Some(m@),
        None => None,
    }
}

impl RelayView {
    pub open spec fn new(sender: SenderView) -> RelayView {
        RelayView {
            tasks: Seq::empty(),
            history: Seq::empty(),
            users: Seq::empty(),
            bookmarks: Seq::empty(),
            properties: seq![
                "owner"@,
                "prio"@,
                "state"@,
                "rtime"@,
                "hashtags"@,
                "rpath"@,
                "desc"@,
            ],
            sorting: seq!["priority"@, "status"@, "owner"@, "hashtags"@, "rtime"@, "name"@],
            view: Seq::empty(),
            search_depth: 4,
            view_depth: 0,
            recurse_activities: false,
            tags: Seq::empty(),
            tags_excluded: Seq::empty(),
            state: FilterView::Default,
            priority: None,
            keys: seq![sender.key],
            own_keys: seq![sender.key],
            sender,
            overflow: Seq::empty(),
            custom_time: None,
            progress: Seq::empty(),
        }
    }

    pub open spec fn from(
        url: Option<Seq<char>>,
        key: PublicKey,
        metadata: Option<MetaView>,
        clock: u64,
    ) -> RelayView {
        let this = RelayView::new(
            SenderView { url, key, queue: Seq::empty(), outbox: Seq::empty() },
        );
        match metadata {
            Some(m) => RelayView { users: with_metadata(this.users, key, m, clock), ..this },
            None => this,
        }
    }
}

proof fn lemma_no_target(tasks: TasksView, tags: Seq<TagView>, event: EventView)
    requires
        !has_target(tasks, tags),
    ensures
        with_prop_at(tasks, tags, event) == tasks,
    decreases tags.len(),
{
    if tags.len() > 0 {
        let rest = tags.drop_last();
        assert(!has_target(tasks, rest)) by {
            if has_target(tasks, rest) {
                let i = choose|i: int|
                    0 <= i < rest.len() && (prop_target(#[trigger] rest[i]) matches Some(id)
                        && has_task(tasks, id));
                assert(tags[i] == rest[i]);
            }
        }
        lemma_no_target(tasks, rest, event);
        assert(tags[tags.len() - 1] == tags.last());
    }
}

fn target_of(tag: &crate::nostr::Tag) -> (r: Option<EventId>)
    ensures
        r == prop_target(tag@),
{
    match match_event_tag(tag) {
        Some(et) => match et.marker {
            Some(m) => if same_text(m.as_str(), MARKER_PROPERTY) {
                Some(et.id)
            } else {
                None
            },
            None => Some(et.id),
        },
        None => None,
    }
}

fn taken_at(events: &Vec<Event>, time: u64) -> (r: bool)
    ensures
        r == has_time(views(events@), time),
{
    let mut i: usize = 0;
    while i < events.len()
        invariant
            0 <= i <= events.len(),
            forall|k: int| 0 <= k < i ==> (#[trigger] views(events@)[k]).created_at != time,
        decreases events.len() - i,
    {
        if events[i].created_at == time {
            assert(views(events@)[i as int].created_at == time);
            return true;
        }
        i += 1;
    }
    false
}

fn remove_event(events: &mut Vec<Event>, event: &Event)
    ensures
        views(final(events)@) == without_event(views(old(events)@), event@),
{
    broadcast use group_views;

    let ghost all = views(events@);
    let mut kept: Vec<Event> = Vec::new();
    let mut i: usize = 0;
    assert(all.take(0) =~= Seq::<EventView>::empty());
    while i < events.len()
        invariant
            0 <= i <= events.len(),
            *events == *old(events),
            all == views(events@),
            views(kept@) == without_event(all.take(i as int), event@),
        decreases events.len() - i,
    {
        assert(all.take(i + 1).drop_last() =~= all.take(i as int));
        assert(all.take(i + 1).last() == events@[i as int]@);
        let refers: bool = match referenced_event(&events[i]) {
            Some(id) => id == event.id,
            None => false,
        };
        if !events[i].same(event) && !refers {
            kept.push(events[i].clone());
        }
        i += 1;
    }
    assert(all.take(events@.len() as int) =~= all);
    *events = kept;
}

} // verus!
