//! Tasks: an event with the updates that refer to it.

pub mod state;

use crate::hashtag::{hashtags_in, is_hashtag, is_hashtag_tag, Hashtag};
use crate::helpers::{non_empty, some_non_empty};
use crate::kinds::{
    event_ref, match_event_tag, Prio, MARKER_DEPENDS, MARKER_PARENT, PRIO, TASK_KIND,
    TEXT_NOTE_KIND,
};
use crate::lists::{
    group_views, sort_to_set, sorted_set, views, with_member, Ordered,
};
use crate::nostr::{
    public_key_of, tag_content, tag_is, Event, EventId, EventView, PublicKey, Tag, TagView,
};
use crate::paint::painted;
pub use crate::task::state::{ChangeView, State, StateChange};
use crate::task::state::{pure_state_of, state_of_kind};
use crate::tasks::{now, now_of};
use crate::text::{
    decimal, join, joined, parse_unsigned, same_text, to_decimal, trim, trim_leading, trimmed,
    unsigned_value, without_leading,
};
use crate::time::{format_timestamp_local, stamp_text, LOCAL_FORMAT};
use vstd::prelude::*;

verus! {

/// A reference of a task to another event.
#[derive(Debug)]
pub struct Reference {
    pub marker: String,
    pub id: EventId,
}

impl View for Reference {
    type V = (Seq<char>, EventId);

    open spec fn view(&self) -> (Seq<char>, EventId) {
        (self.marker@, self.id)
    }
}

#[derive(Debug)]
pub struct Task {
    /// Event that defines the task
    pub event: Event,
    /// Cached sorted tags of the event with references removed
    tags: Vec<Tag>,
    /// Task references derived from the event tags
    refs: Vec<Reference>,
    /// Events belonging to the task, such as state updates and notes, newest first
    pub props: Vec<Event>,
}

#[verifier::ext_equal]
pub struct TaskView {
    pub event: EventView,
    pub tags: Seq<TagView>,
    pub refs: Seq<(Seq<char>, EventId)>,
    pub props: Seq<EventView>,
}

impl View for Task {
    type V = TaskView;

    closed spec fn view(&self) -> TaskView {
        TaskView {
            event: self.event@,
            tags: views(self.tags@),
            refs: views(self.refs@),
            props: views(self.props@),
        }
    }
}

// ---------------------------------------------------------------------------
// Model

/// The references in tags, each with its marker; one without a marker is to a parent.
pub open spec fn refs_in(tags: Seq<TagView>) -> Seq<(Seq<char>, EventId)>
    decreases tags.len(),
{
    if tags.len() == 0 {
        Seq::empty()
    } else {
        let before = refs_in(tags.drop_last());
        match event_ref(tags.last()) {
            Some(r) => before.push(
                (
                    match r.marker {
                        Some(m) => m,
                        None => MARKER_PARENT@,
                    },
                    r.id,
                ),
            ),
            None => before,
        }
    }
}

/// The tags that are no references.
pub open spec fn non_refs_in(tags: Seq<TagView>) -> Seq<TagView>
    decreases tags.len(),
{
    if tags.len() == 0 {
        Seq::empty()
    } else {
        let before = non_refs_in(tags.drop_last());
        match event_ref(tags.last()) {
            Some(_) => before,
            None => before.push(tags.last()),
        }
    }
}

/// The tags whose kind is not the letter e, in either case.
pub open spec fn other_tags(tags: Seq<TagView>) -> Seq<TagView>
    decreases tags.len(),
{
    if tags.len() == 0 {
        Seq::empty()
    } else {
        let before = other_tags(tags.drop_last());
        if tag_is(tags.last(), "e"@) || tag_is(tags.last(), "E"@) {
            before
        } else {
            before.push(tags.last())
        }
    }
}

pub open spec fn other_tags_of(events: Seq<EventView>) -> Seq<TagView>
    decreases events.len(),
{
    if events.len() == 0 {
        Seq::empty()
    } else {
        other_tags_of(events.drop_last()) + other_tags(events.last().tags)
    }
}

/// The keys that tags assign a task to.
pub open spec fn participants_in(tags: Seq<TagView>) -> Seq<PublicKey>
    decreases tags.len(),
{
    if tags.len() == 0 {
        Seq::empty()
    } else {
        let before = participants_in(tags.drop_last());
        match participant(tags.last()) {
            Some(key) => before.push(key),
            None => before,
        }
    }
}

pub open spec fn participant(tag: TagView) -> Option<PublicKey> {
    if tag_is(tag, "p"@) && tag.len() > 1 {
        public_key_of(tag[1])
    } else {
        None
    }
}

/// The ids that carry the given marker.
pub open spec fn marked(refs: Seq<(Seq<char>, EventId)>, marker: Seq<char>) -> Seq<EventId>
    decreases refs.len(),
{
    if refs.len() == 0 {
        Seq::empty()
    } else {
        let before = marked(refs.drop_last(), marker);
        if refs.last().0 == marker {
            before.push(refs.last().1)
        } else {
            before
        }
    }
}

/// The notes that say something, in order.
pub open spec fn notes_in(props: Seq<EventView>) -> Seq<Seq<char>>
    decreases props.len(),
{
    if props.len() == 0 {
        Seq::empty()
    } else {
        let before = notes_in(props.drop_last());
        let e = props.last();
        if e.kind == TEXT_NOTE_KIND && trimmed(e.content).len() > 0 {
            before.push(e.content)
        } else {
            before
        }
    }
}

/// The priority in tags: the content of the first tag of that kind which has content.
pub open spec fn prio_in(tags: Seq<TagView>) -> Option<Seq<char>>
    decreases tags.len(),
{
    if tags.len() == 0 {
        None
    } else if tag_is(tags[0], PRIO@) && tags[0].len() > 1 {
        Some(tags[0][1])
    } else {
        prio_in(tags.drop_first())
    }
}

/// The priority in the first of the events that has one.
pub open spec fn prio_of(events: Seq<EventView>) -> Option<Seq<char>>
    decreases events.len(),
{
    if events.len() == 0 {
        None
    } else {
        match prio_in(events[0].tags) {
            Some(p) => Some(p),
            None => prio_of(events.drop_first()),
        }
    }
}

/// The change of state that an event is.
pub open spec fn change_of(event: EventView) -> Option<ChangeView> {
    match state_of_kind(event.kind) {
        Some(state) => Some(
            ChangeView { state, name: non_empty(event.content), time: event.created_at },
        ),
        None => None,
    }
}

/// The first change of state among events that is not after the given time.
pub open spec fn change_at(props: Seq<EventView>, time: u64) -> Option<ChangeView>
    decreases props.len(),
{
    if props.len() == 0 {
        None
    } else {
        match change_of(props[0]) {
            Some(c) => if c.time <= time {
                Some(c)
            } else {
                change_at(props.drop_first(), time)
            },
            None => change_at(props.drop_first(), time),
        }
    }
}

/// The changes of state among updates.
pub open spec fn changes_among(props: Seq<EventView>) -> Seq<ChangeView>
    decreases props.len(),
{
    if props.len() == 0 {
        Seq::empty()
    } else {
        match change_of(props.last()) {
            Some(c) => changes_among(props.drop_last()).push(c),
            None => changes_among(props.drop_last()),
        }
    }
}

pub open spec fn has_change(props: Seq<EventView>) -> bool {
    exists|i: int| 0 <= i < props.len() && state_of_kind((#[trigger] props[i]).kind) is Some
}

/// The contents of hashtags, or of all tags.
pub open spec fn contents_in(tags: Seq<TagView>, hashtags_only: bool) -> Seq<Seq<char>>
    decreases tags.len(),
{
    if tags.len() == 0 {
        Seq::empty()
    } else {
        let before = contents_in(tags.drop_last(), hashtags_only);
        match tag_content(tags.last()) {
            Some(content) => if !hashtags_only || is_hashtag_tag(tags.last()) {
                before.push(content)
            } else {
                before
            },
            None => before,
        }
    }
}

impl TaskView {
    /// The task that an event starts.
    pub open spec fn of(event: EventView) -> TaskView {
        TaskView {
            event,
            tags: sorted_set::<Tag>(non_refs_in(event.tags)),
            refs: refs_in(event.tags),
            props: Seq::empty(),
        }
    }

    /// Tags of the task that are not event references, newest to oldest
    pub open spec fn all_tags(self) -> Seq<TagView> {
        other_tags_of(self.props) + self.tags
    }

    pub open spec fn participants(self) -> Seq<PublicKey> {
        participants_in(self.all_tags())
    }

    pub open spec fn assignee(self) -> Option<PublicKey> {
        if self.participants().len() > 0 {
            Some(self.participants()[0])
        } else {
            None
        }
    }

    /// Whom the task is assigned to, or else who made it.
    pub open spec fn owner(self) -> PublicKey {
        match self.assignee() {
            Some(key) => key,
            None => self.event.pubkey,
        }
    }

    pub open spec fn title(self) -> Seq<char> {
        match non_empty(trimmed(self.event.content)) {
            Some(t) => t,
            None => self.event.id.text(),
        }
    }

    pub open spec fn filter_title(self) -> Seq<char> {
        without_leading(trimmed(self.event.content), '#')
    }

    pub open spec fn parent(self) -> Option<EventId> {
        let ids = marked(self.refs, MARKER_PARENT@);
        if ids.len() > 0 {
            Some(ids[0])
        } else {
            None
        }
    }

    pub open spec fn is_task(self) -> bool {
        self.event.kind == TASK_KIND || has_change(self.props)
    }

    pub open spec fn priority_text(self) -> Option<Seq<char>> {
        match prio_of(self.props) {
            Some(p) => Some(p),
            None => prio_in(self.event.tags),
        }
    }

    pub open spec fn priority(self) -> Option<Prio> {
        match self.priority_text() {
            Some(p) => match unsigned_value(p, 0xffff) {
                Some(n) => Some(n as u16),
                None => None,
            },
            None => None,
        }
    }

    /// The state that a task has before any change.
    pub open spec fn default_state(self) -> ChangeView {
        ChangeView { state: State::Open, name: None, time: self.event.created_at }
    }

    /// The state at the given time: the latest change until then, or the first state where all
    /// changes come later. Without any change there is none.
    pub open spec fn state_at(self, time: u64) -> Option<ChangeView> {
        match change_at(self.props, time) {
            Some(c) => Some(c),
            None => if has_change(self.props) {
                Some(self.default_state())
            } else {
                None
            },
        }
    }

    pub open spec fn pure_state(self, now: u64) -> State {
        pure_state_of(self.state_at(now))
    }

    pub open spec fn state_or_default(self, now: u64) -> ChangeView {
        match self.state_at(now) {
            Some(c) => c,
            None => self.default_state(),
        }
    }

    pub open spec fn last_update(self, now: u64) -> u64 {
        self.state_or_default(now).time
    }

    /// What the state is called, in its colour where `on`; none for activities.
    pub open spec fn state_label(self, now: u64, on: bool) -> Option<Seq<char>> {
        if self.state_at(now) is Some || self.is_task() {
            let c = self.state_or_default(now);
            Some(painted(c.state.paint().code(), c.label(), on))
        } else {
            None
        }
    }

    pub open spec fn hashtags(self) -> Seq<Seq<char>> {
        hashtags_in(self.all_tags())
    }

    pub open spec fn joined_contents(self, hashtags_only: bool) -> Seq<char> {
        joined(sorted_set::<String>(contents_in(self.all_tags(), hashtags_only)), " "@)
    }

    /// The task with another update.
    pub open spec fn with_prop(self, event: EventView) -> TaskView {
        TaskView { props: with_member::<Event>(self.props, event), ..self }
    }

    /// The task without an update.
    pub open spec fn without_prop(self, event: EventView) -> TaskView {
        TaskView { props: without_tie(self.props, event), ..self }
    }
}

/// The events that do not share the place of the given one.
pub open spec fn without_tie(props: Seq<EventView>, event: EventView) -> Seq<EventView>
    decreases props.len(),
{
    if props.len() == 0 {
        Seq::empty()
    } else {
        let before = without_tie(props.drop_last(), event);
        if same_place(props.last(), event) {
            before
        } else {
            before.push(props.last())
        }
    }
}

pub open spec fn same_place(a: EventView, b: EventView) -> bool {
    a.created_at == b.created_at && a.id == b.id
}

/// Tasks are put like the events that start them.
impl Ordered for Task {
    open spec fn leq(a: TaskView, b: TaskView) -> bool {
        Event::leq(a.event, b.event)
    }

    proof fn leq_total(a: TaskView, b: TaskView) {
    }

    proof fn leq_transitive(a: TaskView, b: TaskView, c: TaskView) {
    }

    fn at_most(&self, other: &Self) -> (r: bool) {
        self.event.at_most(&other.event)
    }
}

// ---------------------------------------------------------------------------
// Debugging text

/// What the debug form of a text is: the text in quotes, with escapes.
pub uninterp spec fn debug_text(s: Seq<char>) -> Seq<char>;

/// The debug form of `str` in `std`: it depends on the text alone.
#[verifier::external_body]
pub(crate) fn debug_str(s: &str) -> (r: String)
    ensures
        r@ == debug_text(s@),
{
    format!("{:?}", s)
}

pub open spec fn debug_texts(s: Seq<Seq<char>>) -> Seq<Seq<char>> {
    Seq::new(s.len(), |i: int| debug_text(s[i]))
}

/// The debug form of a list of texts.
pub open spec fn debug_list(s: Seq<Seq<char>>) -> Seq<char> {
    "["@ + joined(debug_texts(s), ", "@) + "]"@
}

fn debug_strs(v: &Vec<String>) -> (r: String)
    ensures
        r@ == debug_list(views(v@)),
{
    broadcast use group_views;

    let ghost all = debug_texts(views(v@));
    let mut parts: Vec<String> = Vec::new();
    let mut i: usize = 0;
    assert(all.take(0) =~= Seq::<Seq<char>>::empty());
    while i < v.len()
        invariant
            0 <= i <= v.len(),
            all == debug_texts(views(v@)),
            views(parts@) == all.take(i as int),
        decreases v.len() - i,
    {
        parts.push(debug_str(v[i].as_str()));
        assert(all.take(i as int).push(all[i as int]) =~= all.take(i + 1));
        i += 1;
    }
    assert(all.take(v@.len() as int) =~= all);
    let inner: String = join(&parts, ", ");
    let mut r: String = "[".to_string();
    r.append(inner.as_str());
    r.append("]");
    r
}

pub open spec fn debug_tags(tags: Seq<TagView>) -> Seq<Seq<char>> {
    Seq::new(tags.len(), |i: int| "Tag("@ + debug_list(tags[i]) + ")"@)
}

/// The debug form of an optional set of tags.
pub open spec fn debug_tag_set(tags: Seq<TagView>) -> Seq<char> {
    if tags.len() == 0 {
        "None"@
    } else {
        "Some({"@ + joined(debug_tags(tags), ", "@) + "})"@
    }
}

pub open spec fn ref_texts(refs: Seq<(Seq<char>, EventId)>) -> Seq<Seq<char>> {
    Seq::new(refs.len(), |i: int| refs[i].0 + ": "@ + refs[i].1.text())
}

pub open spec fn prop_text(e: EventView) -> Seq<char> {
    decimal(e.created_at as nat) + " kind "@ + decimal(e.kind as nat) + " \""@ + e.content + "\""@
}

pub open spec fn prop_texts(props: Seq<EventView>) -> Seq<Seq<char>> {
    Seq::new(props.len(), |i: int| prop_text(props[i]))
}

pub open spec fn reversed(s: Seq<Seq<char>>) -> Seq<Seq<char>> {
    Seq::new(s.len(), |i: int| s[s.len() - 1 - i])
}

// ---------------------------------------------------------------------------
// Properties

impl TaskView {
    /// The property of the given name. The creation time is shown where the local clock is
    /// `offset` seconds from UTC, the status in its colour where `on`.
    pub open spec fn property(
        self,
        name: Seq<char>,
        now: u64,
        on: bool,
        offset: Option<i32>,
    ) -> Option<Seq<char>> {
        if name == "id"@ {
            Some(self.event.id.text())
        } else if name == "parentid"@ {
            match self.parent() {
                Some(id) => Some(id.text()),
                None => None,
            }
        } else if name == "name"@ {
            Some(self.event.content)
        } else if name == "key"@ || name == "pubkey"@ {
            Some(self.event.pubkey.text())
        } else if name == "created"@ {
            Some(stamp_text(self.event.created_at, LOCAL_FORMAT@, offset))
        } else if name == "kind"@ {
            Some(decimal(self.event.kind as nat))
        } else if name == "priority"@ {
            self.priority_text()
        } else if name == "status"@ {
            self.state_label(now, on)
        } else if name == "desc"@ {
            if notes_in(self.props).len() > 0 {
                Some(notes_in(self.props)[0])
            } else {
                None
            }
        } else if name == "description"@ {
            Some(joined(reversed(notes_in(self.props)), " "@))
        } else if name == "hashtags"@ {
            Some(self.joined_contents(true))
        } else if name == "tags"@ {
            Some(self.joined_contents(false))
        } else if name == "alltags"@ {
            Some(debug_tag_set(self.tags))
        } else if name == "refs"@ {
            Some(debug_list(ref_texts(self.refs)))
        } else if name == "props"@ {
            Some(debug_list(prop_texts(self.props)))
        } else if name == "descriptions"@ {
            Some(debug_list(notes_in(self.props)))
        } else {
            None
        }
    }
}

// ---------------------------------------------------------------------------
// Tasks

pub open spec fn change_option(c: Option<StateChange>) -> Option<ChangeView> {
    match c {
        Some(c) => Some(c@),
        None => None,
    }
}

pub open spec fn string_option(s: Option<String>) -> Option<Seq<char>> {
    match s {
        Some(s) => Some(s@),
        None => None,
    }
}

fn is_event_letter(tag: &Tag) -> (r: bool)
    ensures
        r == (tag_is(tag@, "e"@) || tag_is(tag@, "E"@)),
{
    tag.is_kind("e") || tag.is_kind("E")
}

fn first_prio(tags: &Vec<Tag>) -> (r: Option<&String>)
    ensures
        match r {
            Some(s) => prio_in(views(tags@)) == Some(s@),
            None => prio_in(views(tags@)) is None,
        },
{
    let ghost all = views(tags@);
    let mut i: usize = 0;
    assert(all.skip(0) =~= all);
    while i < tags.len()
        invariant
            0 <= i <= tags.len(),
            all == views(tags@),
            prio_in(all) == prio_in(all.skip(i as int)),
        decreases tags.len() - i,
    {
        assert(all.skip(i as int)[0] == tags@[i as int]@);
        assert(all.skip(i as int).drop_first() =~= all.skip(i + 1));
        if tags[i].is_kind(PRIO) {
            match tags[i].content() {
                Some(c) => {
                    return Some(c);
                },
                None => {},
            }
        }
        i += 1;
    }
    None
}

fn to_change(event: &Event) -> (r: Option<StateChange>)
    ensures
        change_option(r) == change_of(event@),
{
    match State::try_from(event.kind) {
        Ok(state) => Some(
            StateChange {
                state,
                name: some_non_empty(event.content.as_str()),
                time: event.created_at,
            },
        ),
        Err(_) => None,
    }
}

impl Task {
    pub fn new(event: Event) -> (r: Task)
        ensures
            r@ == TaskView::of(event@),
    {
        broadcast use group_views;

        let mut refs: Vec<Reference> = Vec::new();
        let mut tags: Vec<Tag> = Vec::new();
        let ghost all = views(event.tags@);
        let mut i: usize = 0;
        assert(all.take(0) =~= Seq::<TagView>::empty());
        while i < event.tags.len()
            invariant
                0 <= i <= event.tags.len(),
                all == views(event.tags@),
                views(refs@) == refs_in(all.take(i as int)),
                views(tags@) == non_refs_in(all.take(i as int)),
            decreases event.tags.len() - i,
        {
            assert(all.take(i + 1).drop_last() =~= all.take(i as int));
            assert(all.take(i + 1).last() == event.tags@[i as int]@);
            match match_event_tag(&event.tags[i]) {
                Some(et) => {
                    let marker: String = match et.marker {
                        Some(m) => m,
                        None => MARKER_PARENT.to_string(),
                    };
                    refs.push(Reference { marker, id: et.id });
                },
                None => {
                    tags.push(event.tags[i].clone());
                },
            }
            i += 1;
        }
        assert(all.take(event.tags@.len() as int) =~= all);
        // Separate refs for dependencies
        Task { event, tags: sort_to_set(tags), refs, props: Vec::new() }
    }

    pub fn event(&self) -> (r: &Event)
        ensures
            r@ == self@.event,
    {
        &self.event
    }

    pub fn props(&self) -> (r: &Vec<Event>)
        ensures
            views(r@) == self@.props,
    {
        &self.props
    }

    /// Takes in an update, unless it is there.
    pub fn add_prop(&mut self, event: Event)
        ensures
            final(self)@ == old(self)@.with_prop(event@),
    {
        crate::lists::add_member(&mut self.props, event);
    }

    /// Takes out an update.
    pub fn remove_prop(&mut self, event: &Event)
        ensures
            final(self)@ == old(self)@.without_prop(event@),
    {
        broadcast use group_views;

        let mut kept: Vec<Event> = Vec::new();
        let ghost all = views(self.props@);
        let mut i: usize = 0;
        assert(all.take(0) =~= Seq::<EventView>::empty());
        while i < self.props.len()
            invariant
                0 <= i <= self.props.len(),
                *self == *old(self),
                all == views(self.props@),
                views(kept@) == without_tie(all.take(i as int), event@),
            decreases self.props.len() - i,
        {
            assert(all.take(i + 1).drop_last() =~= all.take(i as int));
            assert(all.take(i + 1).last() == self.props@[i as int]@);
            if !(self.props[i].created_at == event.created_at && self.props[i].id == event.id) {
                kept.push(self.props[i].clone());
            }
            i += 1;
        }
        assert(all.take(self.props@.len() as int) =~= all);
        self.props = kept;
    }

    /// All Events including the task and its props in chronological order
    pub fn all_events(&self) -> (r: Vec<&Event>)
        ensures
            r@.len() == 1 + self@.props.len(),
            r@[0]@ == self@.event,
            forall|i: int|
                #![trigger r@[i]]
                1 <= i < r@.len() ==> r@[i]@ == self@.props[self@.props.len() - i],
    {
        let mut r: Vec<&Event> = Vec::new();
        r.push(&self.event);
        let mut i: usize = self.props.len();
        while i > 0
            invariant
                0 <= i <= self.props.len(),
                r@.len() == 1 + self.props.len() - i,
                r@[0]@ == self@.event,
                forall|k: int|
                    #![trigger r@[k]]
                    1 <= k < r@.len() ==> r@[k]@ == self@.props[self@.props.len() - k],
            decreases i,
        {
            i -= 1;
            r.push(&self.props[i]);
        }
        r
    }

    pub fn get_id(&self) -> (r: EventId)
        ensures
            r == self@.event.id,
    {
        self.event.id
    }

    /// Tags of the task that are not event references, newest to oldest
    fn tags(&self) -> (r: Vec<&Tag>)
        ensures
            views(r@) == self@.all_tags(),
    {
        broadcast use group_views;

        let mut r: Vec<&Tag> = Vec::new();
        let ghost all = views(self.props@);
        let mut i: usize = 0;
        assert(all.take(0) =~= Seq::<EventView>::empty());
        while i < self.props.len()
            invariant
                0 <= i <= self.props.len(),
                all == views(self.props@),
                views(r@) == other_tags_of(all.take(i as int)),
            decreases self.props.len() - i,
        {
            let tags: &Vec<Tag> = &self.props[i].tags;
            let ghost before = other_tags_of(all.take(i as int));
            let ghost inner = views(tags@);
            let mut j: usize = 0;
            assert(inner.take(0) =~= Seq::<TagView>::empty());
            assert(before + other_tags(inner.take(0)) =~= before);
            while j < tags.len()
                invariant
                    0 <= j <= tags.len(),
                    inner == views(tags@),
                    views(r@) == before + other_tags(inner.take(j as int)),
                decreases tags.len() - j,
            {
                let ghost part = other_tags(inner.take(j as int));
                assert(inner.take(j + 1).drop_last() =~= inner.take(j as int));
                assert(inner.take(j + 1).last() == tags@[j as int]@);
                if !is_event_letter(&tags[j]) {
                    r.push(&tags[j]);
                    assert((before + part).push(tags@[j as int]@) =~= before + part.push(
                        tags@[j as int]@,
                    ));
                }
                j += 1;
            }
            assert(inner.take(tags@.len() as int) =~= inner);
            assert(all.take(i + 1).drop_last() =~= all.take(i as int));
            assert(all.take(i + 1).last().tags == inner);
            i += 1;
        }
        assert(all.take(self.props@.len() as int) =~= all);
        let ghost before = views(r@);
        let ghost own = views(self.tags@);
        let mut i: usize = 0;
        assert(before + own.take(0) =~= before);
        while i < self.tags.len()
            invariant
                0 <= i <= self.tags.len(),
                own == views(self.tags@),
                views(r@) == before + own.take(i as int),
            decreases self.tags.len() - i,
        {
            r.push(&self.tags[i]);
            assert((before + own.take(i as int)).push(self.tags@[i as int]@) =~= before + own.take(
                i + 1,
            ));
            i += 1;
        }
        assert(own.take(self.tags@.len() as int) =~= own);
        r
    }

    pub fn get_participants(&self) -> (r: Vec<PublicKey>)
        ensures
            r@ == self@.participants(),
    {
        let tags: Vec<&Tag> = self.tags();
        let ghost all = views(tags@);
        let mut r: Vec<PublicKey> = Vec::new();
        let mut i: usize = 0;
        assert(all.take(0) =~= Seq::<TagView>::empty());
        while i < tags.len()
            invariant
                0 <= i <= tags.len(),
                all == views(tags@),
                r@ == participants_in(all.take(i as int)),
            decreases tags.len() - i,
        {
            assert(all.take(i + 1).drop_last() =~= all.take(i as int));
            assert(all.take(i + 1).last() == tags@[i as int]@);
            if tags[i].is_kind("p") {
                match tags[i].get(1) {
                    Some(c) => match PublicKey::parse(c.as_str()) {
                        Some(key) => {
                            r.push(key);
                        },
                        None => {},
                    },
                    None => {},
                }
            }
            i += 1;
        }
        assert(all.take(tags@.len() as int) =~= all);
        r
    }

    pub fn get_assignee(&self) -> (r: Option<PublicKey>)
        ensures
            r == self@.assignee(),
    {
        let keys: Vec<PublicKey> = self.get_participants();
        if keys.len() > 0 {
            Some(keys[0])
        } else {
            None
        }
    }

    pub fn get_owner(&self) -> (r: PublicKey)
        ensures
            r == self@.owner(),
    {
        match self.get_assignee() {
            Some(key) => key,
            None => self.event.pubkey,
        }
    }

    /// Trimmed event content or stringified id
    pub fn get_title(&self) -> (r: String)
        ensures
            r@ == self@.title(),
    {
        let content: String = trim(self.event.content.as_str());
        match some_non_empty(content.as_str()) {
            Some(t) => t,
            None => self.event.id.to_string(),
        }
    }

    /// Title with leading hashtags removed
    pub fn get_filter_title(&self) -> (r: String)
        ensures
            r@ == self@.filter_title(),
    {
        let content: String = trim(self.event.content.as_str());
        trim_leading(content.as_str(), '#')
    }

    pub fn find_refs(&self, marker: &str) -> (r: Vec<EventId>)
        ensures
            r@ == marked(self@.refs, marker@),
    {
        let ghost all = views(self.refs@);
        let mut r: Vec<EventId> = Vec::new();
        let mut i: usize = 0;
        assert(all.take(0) =~= Seq::<(Seq<char>, EventId)>::empty());
        while i < self.refs.len()
            invariant
                0 <= i <= self.refs.len(),
                all == views(self.refs@),
                r@ == marked(all.take(i as int), marker@),
            decreases self.refs.len() - i,
        {
            assert(all.take(i + 1).drop_last() =~= all.take(i as int));
            assert(all.take(i + 1).last() == self.refs@[i as int]@);
            if same_text(self.refs[i].marker.as_str(), marker) {
                r.push(self.refs[i].id);
            }
            i += 1;
        }
        assert(all.take(self.refs@.len() as int) =~= all);
        r
    }

    pub fn parent_id(&self) -> (r: Option<EventId>)
        ensures
            r == self@.parent(),
    {
        let ids: Vec<EventId> = self.find_refs(MARKER_PARENT);
        if ids.len() > 0 {
            Some(ids[0])
        } else {
            None
        }
    }

    pub fn find_dependents(&self) -> (r: Vec<EventId>)
        ensures
            r@ == marked(self@.refs, MARKER_DEPENDS@),
    {
        self.find_refs(MARKER_DEPENDS)
    }

    /// Description items, ordered newest to oldest
    pub fn descriptions(&self) -> (r: Vec<String>)
        ensures
            views(r@) == notes_in(self@.props),
    {
        broadcast use group_views;

        let ghost all = views(self.props@);
        let mut r: Vec<String> = Vec::new();
        let mut i: usize = 0;
        assert(all.take(0) =~= Seq::<EventView>::empty());
        while i < self.props.len()
            invariant
                0 <= i <= self.props.len(),
                all == views(self.props@),
                views(r@) == notes_in(all.take(i as int)),
            decreases self.props.len() - i,
        {
            assert(all.take(i + 1).drop_last() =~= all.take(i as int));
            assert(all.take(i + 1).last() == self.props@[i as int]@);
            if self.props[i].kind == TEXT_NOTE_KIND {
                let content: String = trim(self.props[i].content.as_str());
                if !content.as_str().is_empty() {
                    r.push(self.props[i].content.clone());
                }
            }
            i += 1;
        }
        assert(all.take(self.props@.len() as int) =~= all);
        r
    }

    pub fn is_task_kind(&self) -> (r: bool)
        ensures
            r == (self@.event.kind == TASK_KIND),
    {
        self.event.kind == TASK_KIND
    }

    fn has_state(&self) -> (r: bool)
        ensures
            r == has_change(self@.props),
    {
        let mut i: usize = 0;
        while i < self.props.len()
            invariant
                0 <= i <= self.props.len(),
                forall|k: int|
                    0 <= k < i ==> state_of_kind((#[trigger] self@.props[k]).kind) is None,
            decreases self.props.len() - i,
        {
            match State::try_from(self.props[i].kind) {
                Ok(_) => {
                    assert(state_of_kind(self@.props[i as int].kind) is Some);
                    return true;
                },
                Err(_) => {},
            }
            i += 1;
        }
        false
    }

    /// Whether this is an actionable task - false if stateless activity
    pub fn is_task(&self) -> (r: bool)
        ensures
            r == self@.is_task(),
    {
        self.is_task_kind() || self.has_state()
    }

    pub fn priority(&self) -> (r: Option<Prio>)
        ensures
            r == self@.priority(),
    {
        match self.priority_raw() {
            Some(p) => match parse_unsigned(p.as_str(), 0xffff) {
                Some(n) => Some(n as u16),
                None => None,
            },
            None => None,
        }
    }

    pub fn priority_raw(&self) -> (r: Option<&String>)
        ensures
            match r {
                Some(s) => self@.priority_text() == Some(s@),
                None => self@.priority_text() is None,
            },
    {
        let ghost all = views(self.props@);
        let mut i: usize = 0;
        assert(all.skip(0) =~= all);
        while i < self.props.len()
            invariant
                0 <= i <= self.props.len(),
                all == views(self.props@),
                prio_of(all) == prio_of(all.skip(i as int)),
            decreases self.props.len() - i,
        {
            assert(all.skip(i as int)[0] == self.props@[i as int]@);
            assert(all.skip(i as int).drop_first() =~= all.skip(i + 1));
            match first_prio(&self.props[i].tags) {
                Some(p) => {
                    return Some(p);
                },
                None => {},
            }
            i += 1;
        }
        first_prio(&self.event.tags)
    }

    fn default_state(&self) -> (r: StateChange)
        ensures
            r@ == self@.default_state(),
    {
        StateChange { state: State::Open, name: None, time: self.event.created_at }
    }

    /// Changes of state, ordered newest to oldest
    pub fn states(&self) -> (r: Vec<StateChange>)
        ensures
            views(r@) == changes_among(self@.props),
    {
        broadcast use group_views;

        let ghost all = views(self.props@);
        let mut r: Vec<StateChange> = Vec::new();
        let mut i: usize = 0;
        assert(all.take(0) =~= Seq::<EventView>::empty());
        while i < self.props.len()
            invariant
                0 <= i <= self.props.len(),
                all == views(self.props@),
                views(r@) == changes_among(all.take(i as int)),
            decreases self.props.len() - i,
        {
            assert(all.take(i + 1).drop_last() =~= all.take(i as int));
            assert(all.take(i + 1).last() == self.props@[i as int]@);
            match to_change(&self.props[i]) {
                Some(c) => {
                    r.push(c);
                },
                None => {},
            }
            i += 1;
        }
        assert(all.take(self.props@.len() as int) =~= all);
        r
    }

    /// The state at the given time, if this is a task rather than an activity
    pub fn state_at(&self, time: u64) -> (r: Option<StateChange>)
        ensures
            change_option(r) == self@.state_at(time),
    {
        let ghost all = views(self.props@);
        let mut i: usize = 0;
        assert(all.skip(0) =~= all);
        while i < self.props.len()
            invariant
                0 <= i <= self.props.len(),
                all == views(self.props@),
                change_at(all, time) == change_at(all.skip(i as int), time),
            decreases self.props.len() - i,
        {
            assert(all.skip(i as int)[0] == self.props@[i as int]@);
            assert(all.skip(i as int).drop_first() =~= all.skip(i + 1));
            match to_change(&self.props[i]) {
                Some(c) => {
                    if c.time <= time {
                        return Some(c);
                    }
                },
                None => {},
            }
            i += 1;
        }
        if self.has_state() {
            Some(self.default_state())
        } else {
            None
        }
    }

    pub fn last_state_update_at(&self, now: u64) -> (r: u64)
        ensures
            r == self@.last_update(now),
    {
        self.state_or_default_at(now).time
    }

    pub fn last_state_update(&self) -> (r: u64)
        ensures
            exists|clock: u64| r == self@.last_update(#[trigger] now_of(clock)),
    {
        self.last_state_update_at(now())
    }

    /// Returns the current state if this is a task rather than an activity
    pub fn state(&self) -> (r: Option<StateChange>)
        ensures
            exists|clock: u64| change_option(r) == self@.state_at(#[trigger] now_of(clock)),
    {
        self.state_at(now())
    }

    pub fn pure_state_at(&self, now: u64) -> (r: State)
        ensures
            r == self@.pure_state(now),
    {
        State::from(self.state_at(now))
    }

    pub fn pure_state(&self) -> (r: State)
        ensures
            exists|clock: u64| r == self@.pure_state(#[trigger] now_of(clock)),
    {
        self.pure_state_at(now())
    }

    pub fn state_or_default_at(&self, now: u64) -> (r: StateChange)
        ensures
            r@ == self@.state_or_default(now),
    {
        match self.state_at(now) {
            Some(c) => c,
            None => self.default_state(),
        }
    }

    pub fn state_or_default(&self) -> (r: StateChange)
        ensures
            exists|clock: u64| r@ == self@.state_or_default(#[trigger] now_of(clock)),
    {
        self.state_or_default_at(now())
    }

    /// Returns None for activities.
    pub fn state_label_at(&self, now: u64) -> (r: Option<String>)
        ensures
            exists|on: bool| string_option(r) == #[trigger] self@.state_label(now, on),
    {
        let state: Option<StateChange> = match self.state_at(now) {
            Some(c) => Some(c),
            None => if self.is_task() {
                Some(self.default_state())
            } else {
                None
            },
        };
        match state {
            Some(c) => {
                let r: String = c.get_colored_label();
                proof {
                    let on = choose|on: bool| r@ == #[trigger] painted(
                        c.state.paint().code(),
                        c@.label(),
                        on,
                    );
                    assert(string_option(Some(r)) == self@.state_label(now, on));
                }
                Some(r)
            },
            None => {
                assert(string_option(None) == self@.state_label(now, false));
                None
            },
        }
    }

    pub fn state_label(&self) -> (r: Option<String>)
        ensures
            exists|clock: u64, on: bool|
                string_option(r) == #[trigger] self@.state_label(now_of(clock), on),
    {
        self.state_label_at(now())
    }

    pub fn list_hashtags(&self) -> (r: Vec<Hashtag>)
        ensures
            views(r@) == self@.hashtags(),
    {
        broadcast use group_views;

        let tags: Vec<&Tag> = self.tags();
        let ghost all = views(tags@);
        let mut r: Vec<Hashtag> = Vec::new();
        let mut i: usize = 0;
        assert(all.take(0) =~= Seq::<TagView>::empty());
        while i < tags.len()
            invariant
                0 <= i <= tags.len(),
                all == views(tags@),
                views(r@) == hashtags_in(all.take(i as int)),
            decreases tags.len() - i,
        {
            assert(all.take(i + 1).drop_last() =~= all.take(i as int));
            assert(all.take(i + 1).last() == tags@[i as int]@);
            match Hashtag::try_from(tags[i]) {
                Ok(h) => {
                    r.push(h);
                },
                Err(_) => {},
            }
            i += 1;
        }
        assert(all.take(tags@.len() as int) =~= all);
        r
    }

    /// The contents of the hashtags, or of all tags, each once.
    pub fn join_tags(&self, hashtags_only: bool) -> (r: String)
        ensures
            r@ == self@.joined_contents(hashtags_only),
    {
        broadcast use group_views;

        let tags: Vec<&Tag> = self.tags();
        let ghost all = views(tags@);
        let mut r: Vec<String> = Vec::new();
        let mut i: usize = 0;
        assert(all.take(0) =~= Seq::<TagView>::empty());
        while i < tags.len()
            invariant
                0 <= i <= tags.len(),
                all == views(tags@),
                views(r@) == contents_in(all.take(i as int), hashtags_only),
            decreases tags.len() - i,
        {
            assert(all.take(i + 1).drop_last() =~= all.take(i as int));
            assert(all.take(i + 1).last() == tags@[i as int]@);
            match tags[i].content() {
                Some(c) => {
                    if !hashtags_only || is_hashtag(tags[i]) {
                        r.push(c.clone());
                    }
                },
                None => {},
            }
            i += 1;
        }
        assert(all.take(tags@.len() as int) =~= all);
        let r: Vec<String> = sort_to_set(r);
        join(&r, " ")
    }
}

fn reverse(v: &Vec<String>) -> (r: Vec<String>)
    ensures
        views(r@) == reversed(views(v@)),
{
    broadcast use group_views;

    let ghost all = reversed(views(v@));
    let mut r: Vec<String> = Vec::new();
    let mut i: usize = v.len();
    assert(all.take(0) =~= Seq::<Seq<char>>::empty());
    while i > 0
        invariant
            0 <= i <= v.len(),
            all == reversed(views(v@)),
            views(r@) == all.take(v.len() - i),
        decreases i,
    {
        i -= 1;
        r.push(v[i].clone());
        assert(all.take(v.len() - i - 1).push(all[v.len() - i - 1]) =~= all.take(v.len() - i));
    }
    assert(all.take(v@.len() as int) =~= all);
    r
}

fn show_tag_set(tags: &Vec<Tag>) -> (r: String)
    ensures
        r@ == debug_tag_set(views(tags@)),
{
    broadcast use group_views;

    if tags.len() == 0 {
        return "None".to_string();
    }
    let ghost all = debug_tags(views(tags@));
    let mut parts: Vec<String> = Vec::new();
    let mut i: usize = 0;
    assert(all.take(0) =~= Seq::<Seq<char>>::empty());
    while i < tags.len()
        invariant
            0 <= i <= tags.len(),
            all == debug_tags(views(tags@)),
            views(parts@) == all.take(i as int),
        decreases tags.len() - i,
    {
        let inner: String = debug_strs(tags[i].as_slice());
        let mut part: String = "Tag(".to_string();
        part.append(inner.as_str());
        part.append(")");
        assert(part@ == all[i as int]);
        parts.push(part);
        assert(all.take(i as int).push(all[i as int]) =~= all.take(i + 1));
        i += 1;
    }
    assert(all.take(tags@.len() as int) =~= all);
    let inner: String = join(&parts, ", ");
    let mut r: String = "Some({".to_string();
    r.append(inner.as_str());
    r.append("})");
    r
}

fn show_refs(refs: &Vec<Reference>) -> (r: String)
    ensures
        r@ == debug_list(ref_texts(views(refs@))),
{
    broadcast use group_views;

    let ghost all = ref_texts(views(refs@));
    let mut parts: Vec<String> = Vec::new();
    let mut i: usize = 0;
    assert(all.take(0) =~= Seq::<Seq<char>>::empty());
    while i < refs.len()
        invariant
            0 <= i <= refs.len(),
            all == ref_texts(views(refs@)),
            views(parts@) == all.take(i as int),
        decreases refs.len() - i,
    {
        let id: String = refs[i].id.to_string();
        let mut part: String = refs[i].marker.clone();
        part.append(": ");
        part.append(id.as_str());
        assert(part@ == all[i as int]);
        parts.push(part);
        assert(all.take(i as int).push(all[i as int]) =~= all.take(i + 1));
        i += 1;
    }
    assert(all.take(refs@.len() as int) =~= all);
    debug_strs(&parts)
}

fn show_props(props: &Vec<Event>) -> (r: String)
    ensures
        r@ == debug_list(prop_texts(views(props@))),
{
    broadcast use group_views;

    let ghost all = prop_texts(views(props@));
    let mut parts: Vec<String> = Vec::new();
    let mut i: usize = 0;
    assert(all.take(0) =~= Seq::<Seq<char>>::empty());
    while i < props.len()
        invariant
            0 <= i <= props.len(),
            all == prop_texts(views(props@)),
            views(parts@) == all.take(i as int),
        decreases props.len() - i,
    {
        let mut part: String = to_decimal(props[i].created_at);
        let kind: String = to_decimal(props[i].kind as u64);
        part.append(" kind ");
        part.append(kind.as_str());
        part.append(" \"");
        part.append(props[i].content.as_str());
        part.append("\"");
        assert(part@ == all[i as int]);
        parts.push(part);
        assert(all.take(i as int).push(all[i as int]) =~= all.take(i + 1));
        i += 1;
    }
    assert(all.take(props@.len() as int) =~= all);
    debug_strs(&parts)
}

impl Task {
    /// The properties that neither the clock nor the terminal takes part in.
    fn get_static(&self, property: &str, now: u64) -> (r: Option<String>)
        requires
            property@ != "created"@,
            property@ != "status"@,
        ensures
            forall|on: bool, offset: Option<i32>|
                string_option(r) == #[trigger] self@.property(property@, now, on, offset),
    {
        if same_text(property, "id") {
            Some(self.event.id.to_string())
        } else if same_text(property, "parentid") {
            match self.parent_id() {
                Some(id) => Some(id.to_string()),
                None => None,
            }
        } else if same_text(property, "name") {
            Some(self.event.content.clone())
        } else if same_text(property, "key") || same_text(property, "pubkey") {
            Some(self.event.pubkey.to_string())
        } else if same_text(property, "kind") {
            Some(to_decimal(self.event.kind as u64))
        } else if same_text(property, "priority") {
            match self.priority_raw() {
                Some(p) => Some(p.clone()),
                None => None,
            }
        } else if same_text(property, "desc") {
            let notes: Vec<String> = self.descriptions();
            if notes.len() > 0 {
                assert(views(notes@)[0] == notes@[0]@);
                Some(notes[0].clone())
            } else {
                None
            }
        } else if same_text(property, "description") {
            let notes: Vec<String> = self.descriptions();
            let notes: Vec<String> = reverse(&notes);
            Some(join(&notes, " "))
        } else if same_text(property, "hashtags") {
            Some(self.join_tags(true))
        } else if same_text(property, "tags") {
            Some(self.join_tags(false))
        } else if same_text(property, "alltags") {
            Some(show_tag_set(&self.tags))
        } else if same_text(property, "refs") {
            Some(show_refs(&self.refs))
        } else if same_text(property, "props") {
            Some(show_props(&self.props))
        } else if same_text(property, "descriptions") {
            let notes: Vec<String> = self.descriptions();
            Some(debug_strs(&notes))
        } else {
            None
        }
    }

    /// The property of the given name, if there is one.
    pub fn get_at(&self, property: &str, now: u64) -> (r: Option<String>)
        ensures
            exists|on: bool, offset: Option<i32>|
                string_option(r) == #[trigger] self@.property(property@, now, on, offset),
    {
        proof {
            reveal_strlit("created");
            reveal_strlit("status");
            reveal_strlit("id");
            reveal_strlit("parentid");
            reveal_strlit("name");
            reveal_strlit("key");
            reveal_strlit("pubkey");
            reveal_strlit("kind");
            reveal_strlit("priority");
        }
        if same_text(property, "created") {
            let r: String = format_timestamp_local(self.event.created_at);
            proof {
                let offset = choose|offset: Option<i32>| r@ == #[trigger] stamp_text(
                    self.event.created_at,
                    LOCAL_FORMAT@,
                    offset,
                );
                assert("created"@[0] != "parentid"@[0]);
                assert("created"@.len() == 7);
                assert(string_option(Some(r)) == self@.property(property@, now, false, offset));
            }
            Some(r)
        } else if same_text(property, "status") {
            let r: Option<String> = self.state_label_at(now);
            proof {
                let on = choose|on: bool| string_option(r) == #[trigger] self@.state_label(now, on);
                assert("status"@[0] != "pubkey"@[0]);
                assert("status"@.len() == 6);
                assert(string_option(r) == self@.property(property@, now, on, None));
            }
            r
        } else {
            let r: Option<String> = self.get_static(property, now);
            assert(string_option(r) == self@.property(property@, now, false, None));
            r
        }
    }

    pub fn get(&self, property: &str) -> (r: Option<String>)
        ensures
            exists|clock: u64, on: bool, offset: Option<i32>|
                string_option(r) == #[trigger] self@.property(
                    property@,
                    now_of(clock),
                    on,
                    offset,
                ),
    {
        let clock: u64 = crate::time::clock();
        let r: Option<String> = self.get_at(property, crate::tasks::now_at(clock));
        proof {
            let (on, offset) = choose|on: bool, offset: Option<i32>|
                string_option(r) == #[trigger] self@.property(
                    property@,
                    now_of(clock),
                    on,
                    offset,
                );
            assert(string_option(r) == self@.property(property@, now_of(clock), on, offset));
        }
        r
    }
}

} // verus!
