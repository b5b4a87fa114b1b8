//! Creating tasks and notes, and changing their state.

use crate::helpers::{to_string_or_default, CHARACTER_THRESHOLD};
use crate::kinds::{
    extract_tags, extracted_name, extracted_tags, prio_tag, to_prio_tag, MARKER_DEPENDS,
    MARKER_PARENT, MARKER_PROPERTY, PRIO, TASK_KIND, TEXT_NOTE_KIND,
};
use crate::lists::{group_views, views, Ordered};
use crate::nostr::{
    lowercase, tag_is, BuilderView, Event, EventBuilder, EventId, EventView, PublicKey, Tag, TagView,
};
use crate::task::state::{state_of_name, State};
use crate::task::Task;
use crate::tasks::children_traversal::{subtree, ChildrenTraversal};
use crate::tasks::filter::KeysView;
use crate::tasks::task_map::{children, children_for, places, task_of, TasksView};
use crate::tasks::{now_at, now_of, FilterView, RelayView, TasksRelay};
use crate::text::{byte_len, shorter_than, trim, trimmed};
use crate::time::clock;
use vstd::prelude::*;

verus! {

// ---------------------------------------------------------------------------
// Tags

/// A reference to a task by its id: where to find it and what for.
pub open spec fn id_tag(url: Option<Seq<char>>, id: EventId, marker: Seq<char>) -> TagView {
    seq![
        "e"@,
        id.text(),
        match url {
            Some(u) => u,
            None => Seq::empty(),
        },
        marker,
    ]
}

/// A reference to an event, with its author.
pub open spec fn event_tag(url: Option<Seq<char>>, event: EventView, marker: Seq<char>) -> TagView {
    id_tag(url, event.id, marker).push(event.pubkey.text())
}

/// The place of the latest of the tasks at the given places.
pub open spec fn newest(tasks: TasksView, at: Seq<int>) -> Option<int>
    decreases at.len(),
{
    if at.len() == 0 {
        None
    } else {
        match newest(tasks, at.drop_last()) {
            Some(n) => if Task::leq(tasks[n], tasks[at.last()]) {
                Some(n)
            } else {
                Some(at.last())
            },
            None => Some(at.last()),
        }
    }
}

pub open spec fn hashtag_tags(tags: Seq<Seq<char>>) -> Seq<TagView> {
    Seq::new(tags.len(), |i: int| seq!["t"@, lowercase(tags[i])])
}

pub open spec fn has_kind(tags: Seq<TagView>, kind: Seq<char>) -> bool {
    exists|i: int| 0 <= i < tags.len() && tag_is(#[trigger] tags[i], kind)
}

pub open spec fn id_tags(url: Option<Seq<char>>, ids: Seq<EventId>, marker: Seq<char>) -> Seq<
    TagView,
> {
    Seq::new(ids.len(), |i: int| id_tag(url, ids[i], marker))
}

pub open spec fn pin_tags(ids: Seq<EventId>) -> Seq<TagView> {
    Seq::new(ids.len(), |i: int| seq!["e"@, ids[i].text()])
}

impl RelayView {
    /// The tags that place a new task below a position. Below a procedure it depends on the latest
    /// subtask.
    pub open spec fn position_tags_for(self, position: Option<EventId>, now: u64) -> Seq<TagView> {
        match position {
            None => Seq::empty(),
            Some(pos) => {
                let parent = seq![id_tag(self.sender.url, pos, MARKER_PARENT@)];
                match task_of(self.tasks, pos) {
                    Some(task) => if task.pure_state(now) == State::Procedure {
                        match newest(self.tasks, children(self.tasks, Some(pos))) {
                            Some(i) => parent.push(
                                event_tag(self.sender.url, self.tasks[i].event, MARKER_DEPENDS@),
                            ),
                            None => parent,
                        }
                    } else {
                        parent
                    },
                    None => parent,
                }
            },
        }
    }

    pub open spec fn position_tags(self, clock: u64) -> Seq<TagView> {
        self.position_tags_for(self.position(clock), now_of(clock))
    }

    /// The priority for a new task, unless its tags set one.
    pub open spec fn prio_tags(self, tags: Seq<TagView>) -> Seq<TagView> {
        match self.priority {
            Some(p) => if has_kind(tags, PRIO@) {
                Seq::empty()
            } else {
                seq![prio_tag(p)]
            },
            None => Seq::empty(),
        }
    }

    /// To whom a new task is assigned: the first user filtered by or, where all are shown, the one
    /// who makes it.
    pub open spec fn assignee(self) -> PublicKey {
        if self.keys.len() > 0 {
            self.keys[0]
        } else {
            self.sender.key
        }
    }

    /// The assignee of a new task, unless its tags name one.
    pub open spec fn assignee_tags(self, tags: Seq<TagView>) -> Seq<TagView> {
        if has_kind(tags, "p"@) {
            Seq::empty()
        } else {
            seq![seq!["p"@, self.assignee().text()]]
        }
    }

    /// A new task, with the hashtags, priority and assignee that are filtered by.
    pub open spec fn task_builder(self, name: Seq<char>, tags: Seq<TagView>) -> BuilderView {
        BuilderView::new(TASK_KIND, name).tags(hashtag_tags(self.tags)).tags(tags).tags(
            self.prio_tags(tags),
        ).tags(self.assignee_tags(tags))
    }

    /// What an update of the state of a task refers to: the task, or all of its subtree where it
    /// is closed.
    pub open spec fn state_targets(self, id: EventId, state: State) -> Seq<EventId> {
        if state == State::Closed {
            subtree(self.tasks, id)
        } else {
            seq![id]
        }
    }

    pub open spec fn state_builder(
        self,
        id: EventId,
        comment: Seq<char>,
        state: State,
    ) -> BuilderView {
        BuilderView::new(state.kind_of(), extracted_name(comment, self.users)).tags(
            id_tags(self.sender.url, self.state_targets(id, state), MARKER_PROPERTY@),
        ).tags(extracted_tags(comment, self.users))
    }

    /// The state of a task is set, with a comment that may hold tags.
    pub open spec fn state_set(
        self,
        id: EventId,
        comment: Seq<char>,
        state: State,
        clock: u64,
    ) -> RelayView {
        self.submitted(self.state_builder(id, comment, state), clock)
    }

    pub open spec fn state_for(comment: Seq<char>) -> State {
        match state_of_name(comment) {
            Some(s) => s,
            None => State::Open,
        }
    }

    /// A new task from text that may hold tags, if a name is left.
    pub open spec fn new_task_builder(self, input: Seq<char>, tags: Seq<TagView>) -> Option<
        BuilderView,
    > {
        let name = extracted_name(trimmed(input), self.users);
        if name.len() == 0 {
            None
        } else {
            Some(self.task_builder(name, extracted_tags(trimmed(input), self.users) + tags))
        }
    }

    /// The id of the task that is made from an input.
    pub open spec fn new_task_id(
        self,
        input: Seq<char>,
        tags: Seq<TagView>,
        clock: u64,
    ) -> Option<EventId> {
        match self.new_task_builder(input, tags) {
            Some(b) => Some(self.event_from(b, clock).id),
            None => None,
        }
    }

    /// A task is made from an input; where a state is filtered by and `set_state`, it gets it.
    pub open spec fn task_made(
        self,
        input: Seq<char>,
        tags: Seq<TagView>,
        set_state: bool,
        clock: u64,
    ) -> RelayView {
        match self.new_task_builder(input, tags) {
            Some(b) => {
                let made = self.submitted(b, clock);
                match self.state {
                    FilterView::State(s) => if set_state {
                        made.state_set(
                            self.event_from(b, clock).id,
                            s,
                            RelayView::state_for(s),
                            clock,
                        )
                    } else {
                        made
                    },
                    _ => made,
                }
            },
            None => self,
        }
    }

    /// The parent of the active task, if both are known.
    pub open spec fn position_parent(self, clock: u64) -> Option<EventId> {
        match self.position(clock) {
            Some(id) => match task_of(self.tasks, id) {
                Some(t) => t.parent(),
                None => None,
            },
            None => None,
        }
    }

    pub open spec fn moved_up(self, clock: u64) -> RelayView {
        self.moved_to(self.position_parent(clock), clock)
    }

    /// The tags of a task next to the active one that depends on it.
    pub open spec fn sibling_tags(self, pos: EventId, clock: u64) -> Seq<TagView> {
        let depends = id_tag(self.sender.url, pos, MARKER_DEPENDS@);
        match self.position(clock) {
            Some(par) => seq![id_tag(self.sender.url, par, MARKER_PARENT@), depends],
            None => seq![depends],
        }
    }

    pub open spec fn dependent_sibling_made(self, input: Seq<char>, clock: u64) -> RelayView {
        match self.position(clock) {
            Some(pos) => {
                let up = self.moved_up(clock);
                up.task_made(input, up.sibling_tags(pos, clock), true, clock)
            },
            None => self,
        }
    }

    /// A task is made below the active one, gets the state and becomes active.
    pub open spec fn task_entered(self, input: Seq<char>, state: State, clock: u64) -> RelayView {
        match self.new_task_id(input, self.position_tags(clock), clock) {
            Some(id) => self.task_made(input, self.position_tags(clock), false, clock).state_set(
                id,
                ""@,
                state,
                clock,
            ).moved_to(Some(id), clock),
            None => self,
        }
    }

    /// Whether the active task is known as one that can be acted on.
    pub open spec fn on_task(self, clock: u64) -> bool {
        self.position(clock) matches Some(id) && (task_of(self.tasks, id) matches Some(t)
            && t.is_task())
    }

    pub open spec fn position_tag(self, marker: Seq<char>, clock: u64) -> Seq<TagView> {
        match self.position(clock) {
            Some(pos) => seq![id_tag(self.sender.url, pos, marker)],
            None => Seq::empty(),
        }
    }

    /// A note on the active task; an activity, with the hashtags filtered by, elsewhere.
    pub open spec fn note_builder(self, note: Seq<char>, clock: u64) -> BuilderView {
        let name = extracted_name(trimmed(note), self.users);
        let tags = extracted_tags(trimmed(note), self.users);
        let base = BuilderView::new(TEXT_NOTE_KIND, name).tags(tags);
        if self.on_task(clock) {
            base.tags(self.position_tag(MARKER_PROPERTY@, clock))
        } else {
            base.tags(hashtag_tags(self.tags)).tags(self.position_tag(MARKER_PARENT@, clock))
        }
    }

    /// Where the given text matches no task a new one is made; where it matches one that becomes
    /// active, and several are put into view.
    pub open spec fn matched_or_created(
        self,
        position: Option<EventId>,
        arg: Seq<char>,
        matching: Seq<EventId>,
        clock: u64,
    ) -> RelayView {
        if matching.len() == 0 {
            let this = RelayView { view: Seq::empty(), ..self };
            if byte_len(arg) < CHARACTER_THRESHOLD {
                this
            } else {
                this.task_made(arg, self.position_tags_for(position, now_of(clock)), true, clock)
            }
        } else if matching.len() == 1 {
            self.moved_to(Some(matching[0]), clock)
        } else {
            RelayView { view: matching, ..self.moved_to(position, clock) }
        }
    }

    /// The id of the task that is made where the given text matches none.
    pub open spec fn created_id(
        self,
        position: Option<EventId>,
        arg: Seq<char>,
        matching: Seq<EventId>,
        clock: u64,
    ) -> Option<EventId> {
        if matching.len() == 0 && byte_len(arg) >= CHARACTER_THRESHOLD {
            self.new_task_id(arg, self.position_tags_for(position, now_of(clock)), clock)
        } else {
            None
        }
    }
}

// ---------------------------------------------------------------------------
// Creating

fn find_newest(tasks: &Vec<Task>, at: &Vec<usize>) -> (r: Option<usize>)
    requires
        forall|k: int| 0 <= k < at@.len() ==> #[trigger] at@[k] < tasks.len(),
    ensures
        match r {
            Some(i) => i < tasks.len() && newest(views(tasks@), places(at@)) == Some(i as int),
            None => newest(views(tasks@), places(at@)) is None,
        },
{
    let ghost all = views(tasks@);
    let ghost walk = places(at@);
    let mut r: Option<usize> = None;
    let mut i: usize = 0;
    assert(walk.take(0) =~= Seq::<int>::empty());
    while i < at.len()
        invariant
            0 <= i <= at.len(),
            all == views(tasks@),
            walk == places(at@),
            forall|k: int| 0 <= k < at@.len() ==> #[trigger] at@[k] < tasks.len(),
            match r {
                Some(n) => n < tasks.len() && newest(all, walk.take(i as int)) == Some(n as int),
                None => newest(all, walk.take(i as int)) is None,
            },
        decreases at.len() - i,
    {
        assert(walk.take(i + 1).drop_last() =~= walk.take(i as int));
        assert(walk.take(i + 1).last() == at@[i as int]);
        let this: usize = at[i];
        match r {
            Some(n) => {
                if !tasks[n].at_most(&tasks[this]) {
                    r = Some(this);
                }
            },
            None => {
                r = Some(this);
            },
        }
        i += 1;
    }
    assert(walk.take(at@.len() as int) =~= walk);
    r
}

fn any_of_kind(tags: &Vec<Tag>, kind: &str) -> (r: bool)
    ensures
        r == has_kind(views(tags@), kind@),
{
    let mut i: usize = 0;
    while i < tags.len()
        invariant
            0 <= i <= tags.len(),
            forall|k: int| 0 <= k < i ==> !tag_is(#[trigger] views(tags@)[k], kind@),
        decreases tags.len() - i,
    {
        if tags[i].is_kind(kind) {
            assert(tag_is(views(tags@)[i as int], kind@));
            return true;
        }
        i += 1;
    }
    false
}

fn one_tag(tag: Tag) -> (r: Vec<Tag>)
    ensures
        views(r@) == seq![tag@],
{
    let mut r: Vec<Tag> = Vec::new();
    r.push(tag);
    assert(views(r@) =~= seq![tag@]);
    r
}

impl TasksRelay {
    pub fn make_event_tag_from_id(&self, id: EventId, marker: &str) -> (r: Tag)
        ensures
            r@ == id_tag(self@.sender.url, id, marker@),
    {
        let url: String = to_string_or_default(self.sender.url());
        let r: Tag = Tag::custom("e", id.to_string()).with(url).with(marker.to_string());
        assert(r@ =~= id_tag(self@.sender.url, id, marker@));
        r
    }

    pub fn make_event_tag(&self, event: &Event, marker: &str) -> (r: Tag)
        ensures
            r@ == event_tag(self@.sender.url, event@, marker@),
    {
        self.make_event_tag_from_id(event.id, marker).with(event.pubkey.to_string())
    }

    pub fn parent_tag_at(&self, clock: u64) -> (r: Option<Tag>)
        ensures
            match r {
                Some(t) => self@.position_tag(MARKER_PARENT@, clock) == seq![t@],
                None => self@.position_tag(MARKER_PARENT@, clock).len() == 0,
            },
    {
        match self.position(clock) {
            Some(pos) => Some(self.make_event_tag_from_id(pos, MARKER_PARENT)),
            None => None,
        }
    }

    pub fn parent_tag(&self) -> (r: Option<Tag>)
        ensures
            exists|clock: u64|
                match r {
                    Some(t) => #[trigger] self@.position_tag(MARKER_PARENT@, clock) == seq![t@],
                    None => self@.position_tag(MARKER_PARENT@, clock).len() == 0,
                },
    {
        let now: u64 = clock();
        let r: Option<Tag> = self.parent_tag_at(now);
        assert(match r {
            Some(t) => self@.position_tag(MARKER_PARENT@, now) == seq![t@],
            None => self@.position_tag(MARKER_PARENT@, now).len() == 0,
        });
        r
    }

    pub fn position_tags_for_at(&self, position: Option<EventId>, now: u64) -> (r: Vec<Tag>)
        ensures
            views(r@) == self@.position_tags_for(position, now),
    {
        broadcast use group_views;

        let mut tags: Vec<Tag> = Vec::new();
        match position {
            Some(pos) => {
                tags.push(self.make_event_tag_from_id(pos, MARKER_PARENT));
                assert(views(tags@) =~= seq![id_tag(self@.sender.url, pos, MARKER_PARENT@)]);
                match self.get_by_id(&pos) {
                    Some(task) => {
                        if task.pure_state_at(now) == State::Procedure {
                            let at: Vec<usize> = children_for(&self.tasks, Some(pos));
                            match find_newest(&self.tasks, &at) {
                                Some(i) => {
                                    assert(self@.tasks[i as int] == self.tasks@[i as int]@);
                                    tags.push(
                                        self.make_event_tag(self.tasks[i].event(), MARKER_DEPENDS),
                                    );
                                },
                                None => {},
                            }
                        }
                    },
                    None => {},
                }
            },
            None => {},
        }
        tags
    }

    pub fn position_tags_for(&self, position: Option<EventId>) -> (r: Vec<Tag>)
        ensures
            exists|clock: u64|
                views(r@) == self@.position_tags_for(position, #[trigger] now_of(clock)),
    {
        self.position_tags_for_at(position, crate::tasks::now())
    }

    pub fn position_tags_at(&self, clock: u64) -> (r: Vec<Tag>)
        ensures
            views(r@) == self@.position_tags(clock),
    {
        self.position_tags_for_at(self.position(clock), now_at(clock))
    }

    pub fn position_tags(&self) -> (r: Vec<Tag>)
        ensures
            exists|clock: u64| views(r@) == #[trigger] self@.position_tags(clock),
    {
        self.position_tags_at(clock())
    }

    fn context_hashtags(&self) -> (r: Vec<Tag>)
        ensures
            views(r@) == hashtag_tags(self@.tags),
    {
        broadcast use group_views;

        let ghost all = hashtag_tags(self@.tags);
        let mut r: Vec<Tag> = Vec::new();
        let mut i: usize = 0;
        assert(all.take(0) =~= Seq::<TagView>::empty());
        while i < self.tags.len()
            invariant
                0 <= i <= self.tags.len(),
                all == hashtag_tags(self@.tags),
                views(r@) == all.take(i as int),
            decreases self.tags.len() - i,
        {
            assert(self@.tags[i as int] == self.tags@[i as int]@);
            let tag: Tag = self.tags[i].to_tag();
            assert(tag@ == all[i as int]);
            r.push(tag);
            assert(all.take(i as int).push(all[i as int]) =~= all.take(i + 1));
            i += 1;
        }
        assert(all.take(self.tags@.len() as int) =~= all);
        r
    }

    fn id_tags(&self, ids: &Vec<EventId>, marker: &str) -> (r: Vec<Tag>)
        ensures
            views(r@) == id_tags(self@.sender.url, ids@, marker@),
    {
        broadcast use group_views;

        let ghost all = id_tags(self@.sender.url, ids@, marker@);
        let mut r: Vec<Tag> = Vec::new();
        let mut i: usize = 0;
        assert(all.take(0) =~= Seq::<TagView>::empty());
        while i < ids.len()
            invariant
                0 <= i <= ids.len(),
                all == id_tags(self@.sender.url, ids@, marker@),
                views(r@) == all.take(i as int),
            decreases ids.len() - i,
        {
            r.push(self.make_event_tag_from_id(ids[i], marker));
            assert(all.take(i as int).push(all[i as int]) =~= all.take(i + 1));
            i += 1;
        }
        assert(all.take(ids@.len() as int) =~= all);
        r
    }

    /// Create the task, only adding context tags
    pub fn make_task_unchecked_at(&mut self, input: &str, tags: Vec<Tag>, clock: u64) -> (r: EventId)
        ensures
            r == old(self)@.event_from(old(self)@.task_builder(input@, views(tags@)), clock).id,
            final(self)@ == old(self)@.submitted(
                old(self)@.task_builder(input@, views(tags@)),
                clock,
            ),
    {
        broadcast use group_views;

        let assignee: Vec<Tag> = if any_of_kind(&tags, "p") {
            Vec::new()
        } else if self.keys.len() > 0 {
            one_tag(Tag::public_key(self.keys[0]))
        } else {
            one_tag(Tag::public_key(self.own_key()))
        };
        let prio: Vec<Tag> = match self.priority {
            Some(p) => if any_of_kind(&tags, PRIO) {
                Vec::new()
            } else {
                one_tag(to_prio_tag(p))
            },
            None => Vec::new(),
        };
        let builder: EventBuilder = EventBuilder::new(TASK_KIND, input).tags(
            self.context_hashtags(),
        ).tags(tags).tags(prio).tags(assignee);
        self.submit_at(builder, clock)
    }

    pub fn make_task_unchecked(&mut self, input: &str, tags: Vec<Tag>) -> (r: EventId)
        ensures
            exists|clock: u64|
                r == (#[trigger] old(self)@.event_from(
                    old(self)@.task_builder(input@, views(tags@)),
                    clock,
                )).id && final(self)@ == old(self)@.submitted(
                    old(self)@.task_builder(input@, views(tags@)),
                    clock,
                ),
    {
        let now: u64 = clock();
        let r: EventId = self.make_task_unchecked_at(input, tags, now);
        assert(r == old(self)@.event_from(
            old(self)@.task_builder(input@, views(tags@)),
            now,
        ).id);
        r
    }

    /// Sets the state of a task, with a comment that may hold tags.
    pub fn set_state_for_at(&mut self, id: EventId, comment: &str, state: State, clock: u64) -> (r:
        EventId)
        ensures
            r == old(self)@.event_from(old(self)@.state_builder(id, comment@, state), clock).id,
            final(self)@ == old(self)@.state_set(id, comment@, state, clock),
    {
        let ids: Vec<EventId> = if state == State::Closed {
            // Close whole subtree
            ChildrenTraversal::from(&self.tasks, id).get_all()
        } else {
            let mut ids: Vec<EventId> = Vec::new();
            ids.push(id);
            assert(ids@ =~= seq![id]);
            ids
        };
        let (desc, tags): (String, Vec<Tag>) = extract_tags(comment, &self.users);
        let prop: EventBuilder = EventBuilder::new(state.kind(), desc.as_str()).tags(
            self.id_tags(&ids, MARKER_PROPERTY),
        ).tags(tags);
        self.submit_at(prop, clock)
    }

    pub fn set_state_for(&mut self, id: EventId, comment: &str, state: State) -> (r: EventId)
        ensures
            exists|clock: u64|
                final(self)@ == #[trigger] old(self)@.state_set(id, comment@, state, clock) && r
                    == old(self)@.event_from(
                    old(self)@.state_builder(id, comment@, state),
                    clock,
                ).id,
    {
        let now: u64 = clock();
        let r: EventId = self.set_state_for_at(id, comment, state, now);
        assert(self@ == old(self)@.state_set(id, comment@, state, now));
        r
    }

    pub fn set_state_for_with_at(&mut self, id: EventId, comment: &str, clock: u64)
        ensures
            final(self)@ == old(self)@.state_set(
                id,
                comment@,
                RelayView::state_for(comment@),
                clock,
            ),
    {
        let state: State = match State::try_from(comment) {
            Ok(s) => s,
            Err(_) => State::Open,
        };
        self.set_state_for_at(id, comment, state, clock);
    }

    pub fn set_state_for_with(&mut self, id: EventId, comment: &str)
        ensures
            exists|clock: u64|
                final(self)@ == #[trigger] old(self)@.state_set(
                    id,
                    comment@,
                    RelayView::state_for(comment@),
                    clock,
                ),
    {
        self.set_state_for_with_at(id, comment, clock());
    }

    /// Sets the state of the active task, if there is one.
    pub fn update_state_at(&mut self, comment: &str, state: State, clock: u64) -> (r: Option<
        EventId,
    >)
        ensures
            match old(self)@.position(clock) {
                Some(id) => final(self)@ == old(self)@.state_set(id, comment@, state, clock) && r
                    == Some(
                    old(self)@.event_from(
                        old(self)@.state_builder(id, comment@, state),
                        clock,
                    ).id,
                ),
                None => final(self)@ == old(self)@ && r is None,
            },
    {
        match self.position(clock) {
            Some(id) => Some(self.set_state_for_at(id, comment, state, clock)),
            None => None,
        }
    }

    pub fn update_state(&mut self, comment: &str, state: State) -> (r: Option<EventId>)
        ensures
            exists|clock: u64|
                match #[trigger] old(self)@.position(clock) {
                    Some(id) => final(self)@ == old(self)@.state_set(id, comment@, state, clock)
                        && r == Some(
                        old(self)@.event_from(
                            old(self)@.state_builder(id, comment@, state),
                            clock,
                        ).id,
                    ),
                    None => final(self)@ == old(self)@ && r is None,
                },
    {
        let now: u64 = clock();
        let r: Option<EventId> = self.update_state_at(comment, state, now);
        assert(match old(self)@.position(now) {
            Some(id) => self@ == old(self)@.state_set(id, comment@, state, now) && r == Some(
                old(self)@.event_from(old(self)@.state_builder(id, comment@, state), now).id,
            ),
            None => self@ == old(self)@ && r is None,
        });
        r
    }

    /// Creates a task including current tag filters if content is not empty.
    ///
    /// @param set_state: whether to set context state - use false if setting state manually
    ///
    /// Sanitizes input
    pub fn make_task_with_at(
        &mut self,
        input: &str,
        tags: Vec<Tag>,
        set_state: bool,
        clock: u64,
    ) -> (r: Option<EventId>)
        ensures
            r == old(self)@.new_task_id(input@, views(tags@), clock),
            final(self)@ == old(self)@.task_made(input@, views(tags@), set_state, clock),
    {
        broadcast use group_views;

        let input: String = trim(input);
        let (name, mut input_tags): (String, Vec<Tag>) = extract_tags(input.as_str(), &self.users);
        if name.as_str().is_empty() {
            return None;
        }
        let mut more: Vec<Tag> = tags;
        input_tags.append(&mut more);
        let state: Option<String> = self.state.as_option();
        let id: EventId = self.make_task_unchecked_at(name.as_str(), input_tags, clock);
        if set_state {
            match state {
                Some(s) => {
                    self.set_state_for_with_at(id, s.as_str(), clock);
                },
                None => {},
            }
        }
        Some(id)
    }

    pub fn make_task_with(&mut self, input: &str, tags: Vec<Tag>, set_state: bool) -> (r: Option<
        EventId,
    >)
        ensures
            exists|clock: u64|
                r == old(self)@.new_task_id(input@, views(tags@), clock) && final(self)@
                    == #[trigger] old(self)@.task_made(input@, views(tags@), set_state, clock),
    {
        let now: u64 = clock();
        let r: Option<EventId> = self.make_task_with_at(input, tags, set_state, now);
        assert(self@ == old(self)@.task_made(input@, views(tags@), set_state, now));
        r
    }

    /// Creates a task following the current state if input is sufficient.
    ///
    /// Sanitizes input
    pub fn make_task_at(&mut self, input: &str, clock: u64) -> (r: Option<EventId>)
        ensures
            r == old(self)@.new_task_id(input@, old(self)@.position_tags(clock), clock),
            final(self)@ == old(self)@.task_made(
                input@,
                old(self)@.position_tags(clock),
                true,
                clock,
            ),
    {
        let tags: Vec<Tag> = self.position_tags_at(clock);
        self.make_task_with_at(input, tags, true, clock)
    }

    pub fn make_task(&mut self, input: &str) -> (r: Option<EventId>)
        ensures
            exists|clock: u64|
                {
                    let tags = #[trigger] old(self)@.position_tags(clock);
                    r == old(self)@.new_task_id(input@, tags, clock) && final(self)@ == old(
                        self,
                    )@.task_made(input@, tags, true, clock)
                },
    {
        let now: u64 = clock();
        let r: Option<EventId> = self.make_task_at(input, now);
        assert({
            let tags = old(self)@.position_tags(now);
            r == old(self)@.new_task_id(input@, tags, now) && self@ == old(self)@.task_made(
                input@,
                tags,
                true,
                now,
            )
        });
        r
    }

    pub fn move_up_at(&mut self, clock: u64)
        ensures
            final(self)@ == old(self)@.moved_up(clock),
    {
        let parent: Option<EventId> = match self.position(clock) {
            Some(id) => match self.get_by_id(&id) {
                Some(t) => t.parent_id(),
                None => None,
            },
            None => None,
        };
        self.move_to_at(parent, clock);
    }

    pub fn move_up(&mut self)
        ensures
            exists|clock: u64| final(self)@ == #[trigger] old(self)@.moved_up(clock),
    {
        self.move_up_at(clock());
    }

    /// Moves up and creates a sibling task dependent on the current one
    ///
    /// Returns true if successful, false if there is no current task
    pub fn make_dependent_sibling_at(&mut self, input: &str, clock: u64) -> (r: bool)
        ensures
            r == old(self)@.position(clock) is Some,
            final(self)@ == old(self)@.dependent_sibling_made(input@, clock),
    {
        broadcast use group_views;

        match self.position(clock) {
            Some(pos) => {
                self.move_up_at(clock);
                let mut tags: Vec<Tag> = Vec::new();
                match self.parent_tag_at(clock) {
                    Some(t) => {
                        tags.push(t);
                    },
                    None => {},
                }
                tags.push(self.make_event_tag_from_id(pos, MARKER_DEPENDS));
                assert(views(tags@) =~= self@.sibling_tags(pos, clock));
                self.make_task_with_at(input, tags, true, clock);
                true
            },
            None => false,
        }
    }

    pub fn make_dependent_sibling(&mut self, input: &str) -> (r: bool)
        ensures
            exists|clock: u64|
                r == old(self)@.position(clock) is Some && final(self)@ == #[trigger] old(
                    self,
                )@.dependent_sibling_made(input@, clock),
    {
        let now: u64 = clock();
        let r: bool = self.make_dependent_sibling_at(input, now);
        assert(self@ == old(self)@.dependent_sibling_made(input@, now));
        r
    }

    pub fn make_task_and_enter_at(&mut self, input: &str, state: State, clock: u64)
        ensures
            final(self)@ == old(self)@.task_entered(input@, state, clock),
    {
        let tags: Vec<Tag> = self.position_tags_at(clock);
        match self.make_task_with_at(input, tags, false, clock) {
            Some(id) => {
                self.set_state_for_at(id, "", state, clock);
                self.move_to_at(Some(id), clock);
            },
            None => {},
        }
    }

    pub fn make_task_and_enter(&mut self, input: &str, state: State)
        ensures
            exists|clock: u64|
                final(self)@ == #[trigger] old(self)@.task_entered(input@, state, clock),
    {
        self.make_task_and_enter_at(input, state, clock());
    }

    /// Creates a note or activity, depending on whether the parent is a task.
    /// Sanitizes Input.
    pub fn make_note_at(&mut self, note: &str, clock: u64) -> (r: EventId)
        ensures
            r == old(self)@.event_from(old(self)@.note_builder(note@, clock), clock).id,
            final(self)@ == old(self)@.submitted(old(self)@.note_builder(note@, clock), clock),
    {
        broadcast use group_views;

        let note: String = trim(note);
        let (name, tags): (String, Vec<Tag>) = extract_tags(note.as_str(), &self.users);
        let mut prop: EventBuilder = EventBuilder::new(TEXT_NOTE_KIND, name.as_str()).tags(tags);
        let pos: Option<EventId> = self.position(clock);
        let on_task: bool = match pos {
            Some(id) => match self.get_by_id(&id) {
                Some(t) => t.is_task(),
                None => false,
            },
            None => false,
        };
        assert(on_task == self@.on_task(clock));
        let marker: &str = if on_task {
            MARKER_PROPERTY
        } else {
            // Activity if parent is not a task
            prop = prop.tags(self.context_hashtags());
            MARKER_PARENT
        };
        let place: Vec<Tag> = match pos {
            Some(id) => one_tag(self.make_event_tag_from_id(id, marker)),
            None => Vec::new(),
        };
        assert(views(place@) =~= self@.position_tag(marker@, clock));
        self.submit_at(prop.tags(place), clock)
    }

    pub fn make_note(&mut self, note: &str) -> (r: EventId)
        ensures
            exists|clock: u64|
                {
                    let builder = #[trigger] old(self)@.note_builder(note@, clock);
                    r == old(self)@.event_from(builder, clock).id && final(self)@ == old(
                        self,
                    )@.submitted(builder, clock)
                },
    {
        let now: u64 = clock();
        let r: EventId = self.make_note_at(note, now);
        assert({
            let builder = old(self)@.note_builder(note@, now);
            r == old(self)@.event_from(builder, now).id && self@ == old(self)@.submitted(
                builder,
                now,
            )
        });
        r
    }

    /// Finds out what to do with the given string, of which the matching tasks are given, one of:
    /// - filtering the visible tasks
    /// - entering the only matching task
    /// - creating a new task
    /// Returns an EventId if a new Task was created.
    pub fn match_or_create(
        &mut self,
        position: Option<EventId>,
        arg: &str,
        matching: Vec<EventId>,
        clock: u64,
    ) -> (r: Option<EventId>)
        ensures
            r == old(self)@.created_id(position, arg@, matching@, clock),
            final(self)@ == old(self)@.matched_or_created(position, arg@, matching@, clock),
    {
        if matching.len() == 0 {
            // No match, new task
            self.view.clear();
            let ghost this = RelayView { view: Seq::empty(), ..old(self)@ };
            assert(self@ =~= this);
            if shorter_than(arg, CHARACTER_THRESHOLD) {
                return None;
            }
            let tags: Vec<Tag> = self.position_tags_for_at(position, now_at(clock));
            self.make_task_with_at(arg, tags, true, clock)
        } else if matching.len() == 1 {
            // One match, activate
            self.move_to_at(Some(matching[0]), clock);
            None
        } else {
            // Multiple match, filter
            self.move_to_at(position, clock);
            let ghost moved = self@;
            self.view = matching;
            assert(self@ =~= RelayView { view: matching@, ..moved });
            None
        }
    }

    /// Finds out what to do with the given string, one of:
    /// - filtering the visible tasks
    /// - entering the only matching task
    /// - creating a new task
    /// Returns an EventId if a new Task was created.
    pub fn filter_or_create(&mut self, position: Option<EventId>, arg: &str) -> (r: Option<EventId>)
        ensures
            exists|clock: u64, keys: KeysView|
                {
                    let matching = #[trigger] old(self)@.matching(
                        now_of(clock),
                        keys,
                        position,
                        arg@,
                    );
                    &&& old(self)@.are_keys(clock, keys)
                    &&& r == old(self)@.created_id(position, arg@, matching, clock)
                    &&& final(self)@ == old(self)@.matched_or_created(
                        position,
                        arg@,
                        matching,
                        clock,
                    )
                },
    {
        let now: u64 = clock();
        let keys: Vec<Vec<String>> = self.sorting_keys(now);
        let matching: Vec<EventId> = self.get_matching_at(now_at(now), &keys, position, arg);
        let ghost found = self@.matching(
            now_of(now),
            crate::tasks::filter::table(keys@),
            position,
            arg@,
        );
        assert(matching@ == found);
        self.match_or_create(position, arg, matching, now)
    }
}

} // verus!
