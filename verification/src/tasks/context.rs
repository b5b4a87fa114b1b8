//! What the user filters by, and moving through the history.

use crate::hashtag::{same_hashtag, Hashtag};
use crate::kinds::{Prio, BOOKMARKS_KIND};
use crate::lists::{
    add_member, group_views, sort_to_set, sorted_set, views, with_member,
};
use crate::nostr::{BuilderView, Event, EventBuilder, EventId, EventView, PublicKey, Tag, TagView};
use crate::task::state::State;
use crate::task::{Task, TaskView};
use crate::tasks::create::pin_tags;
use crate::tasks::durations::{first_ref, referenced_event};
use crate::tasks::filter::{any_hashtag_has, table, within, KeysView};
use crate::tasks::nostr_users::{displayname, found_users, username};
use crate::tasks::task_map::{places, task_of, TasksView};
use crate::tasks::{now_at, now_of, FilterView, RelayView, StateFilter, TasksRelay};
use crate::text::{
    begins_with, contains, decimal, has_part, join, joined, lower, pad, padded, starts_with,
    to_decimal, to_lower, trimmed,
};
use crate::time::clock;
use vstd::prelude::*;

verus! {

// ---------------------------------------------------------------------------
// Model

/// The hashtags that are not the given one.
pub open spec fn without_hashtag(tags: Seq<Seq<char>>, tag: Seq<char>) -> Seq<Seq<char>>
    decreases tags.len(),
{
    if tags.len() == 0 {
        Seq::empty()
    } else {
        let before = without_hashtag(tags.drop_last(), tag);
        if same_hashtag(tags.last(), tag) {
            before
        } else {
            before.push(tags.last())
        }
    }
}

/// The hashtags that do not begin with the given text, in any case.
pub open spec fn not_beginning(tags: Seq<Seq<char>>, text: Seq<char>) -> Seq<Seq<char>>
    decreases tags.len(),
{
    if tags.len() == 0 {
        Seq::empty()
    } else {
        let before = not_beginning(tags.drop_last(), text);
        if begins_with(lower(tags.last()), lower(text)) {
            before
        } else {
            before.push(tags.last())
        }
    }
}

/// Texts one after another, each behind the given mark.
pub open spec fn marked_texts(mark: Seq<char>, texts: Seq<Seq<char>>) -> Seq<char>
    decreases texts.len(),
{
    if texts.len() == 0 {
        Seq::empty()
    } else {
        marked_texts(mark, texts.drop_last()) + mark + texts.last()
    }
}

/// The hashtags of the tasks that are not closed.
pub open spec fn hashtags_of(tasks: TasksView, now: u64) -> Seq<Seq<char>>
    decreases tasks.len(),
{
    if tasks.len() == 0 {
        Seq::empty()
    } else {
        let before = hashtags_of(tasks.drop_last(), now);
        if tasks.last().pure_state(now) != State::Closed {
            before + tasks.last().hashtags()
        } else {
            before
        }
    }
}

/// The events until now from place `from` on, the latest first, without those that repeat the id
/// of the one before.
pub open spec fn past_events(events: Seq<EventView>, now: u64, from: nat) -> Seq<EventView>
    decreases events.len() - from,
{
    if from >= events.len() {
        Seq::empty()
    } else {
        let later = past_events(events, now, from + 1);
        let e = events[from as int];
        if later.len() == 0 && e.created_at > now {
            later
        } else if later.len() > 0 && later.last().id == e.id {
            later
        } else {
            later.push(e)
        }
    }
}

/// The ids without the first occurrence of the given one.
pub open spec fn without_first(ids: Seq<EventId>, id: EventId) -> Seq<EventId>
    decreases ids.len(),
{
    if ids.len() == 0 {
        ids
    } else if ids[0] == id {
        ids.drop_first()
    } else {
        seq![ids[0]] + without_first(ids.drop_first(), id)
    }
}

/// The ids with the given one added, or taken out if it is there.
pub open spec fn toggled(ids: Seq<EventId>, id: EventId) -> Seq<EventId> {
    if ids.contains(id) {
        without_first(ids, id)
    } else {
        ids.push(id)
    }
}

/// The first of the events that refers to a task with the text in its title, in any case.
pub open spec fn first_titled(tasks: TasksView, events: Seq<EventView>, text: Seq<char>) -> Option<
    EventView,
>
    decreases events.len(),
{
    if events.len() == 0 {
        None
    } else if refers_to_titled(tasks, events[0], text) {
        Some(events[0])
    } else {
        first_titled(tasks, events.drop_first(), text)
    }
}

pub open spec fn refers_to_titled(tasks: TasksView, event: EventView, text: Seq<char>) -> bool {
    first_ref(event) matches Some(id) && (task_of(tasks, id) matches Some(t) && has_part(
        lower(t.title()),
        lower(text),
    ))
}

/// The ids of those of the tasks at the given places that are flagged.
pub open spec fn flagged(tasks: TasksView, at: Seq<int>, flags: Seq<bool>) -> Seq<EventId>
    decreases at.len(),
{
    if at.len() == 0 || flags.len() == 0 {
        Seq::empty()
    } else {
        let before = flagged(tasks, at.drop_last(), flags.drop_last());
        if flags.last() {
            before.push(tasks[at.last()].event.id)
        } else {
            before
        }
    }
}

/// The ids of those of the tasks at the given places whose state was last set after a time.
pub open spec fn updated_since(tasks: TasksView, at: Seq<int>, now: u64, time: u64) -> Seq<EventId>
    decreases at.len(),
{
    if at.len() == 0 {
        Seq::empty()
    } else {
        let before = updated_since(tasks, at.drop_last(), now, time);
        if tasks[at.last()].last_update(now) > time {
            before.push(tasks[at.last()].event.id)
        } else {
            before
        }
    }
}

/// Whether there is a capital letter of the Latin alphabet in a text.
pub open spec fn has_capital(s: Seq<char>) -> bool {
    exists|i: int| 0 <= i < s.len() && 'A' <= #[trigger] s[i] && s[i] <= 'Z'
}

/// Whether a task has the text in its title or one of its hashtags. The case of the title counts
/// only where there is a capital letter in the text.
pub open spec fn mentions(task: TaskView, text: Seq<char>) -> bool {
    has_part(
        if has_capital(text) {
            task.title()
        } else {
            lower(task.title())
        },
        text,
    ) || any_hashtag_has(task.hashtags(), text)
}

/// The ids of the tasks at the given places that have the text in them.
pub open spec fn searched(tasks: TasksView, at: Seq<int>, text: Seq<char>) -> Seq<EventId>
    decreases at.len(),
{
    if at.len() == 0 {
        Seq::empty()
    } else {
        let before = searched(tasks, at.drop_last(), text);
        if mentions(tasks[at.last()], text) {
            before.push(tasks[at.last()].event.id)
        } else {
            before
        }
    }
}

impl RelayView {
    /// Visual representation of current context
    pub open spec fn prompt_suffix(self) -> Seq<char> {
        marked_texts(" #"@, self.tags) + marked_texts(" -#"@, self.tags_excluded)
            + self.state.indicator() + (match self.priority {
            Some(p) => " *"@ + padded(decimal(p as nat), '0', 2),
            None => Seq::empty(),
        })
    }

    /// Whom is filtered by, unless it is the current user.
    pub open spec fn pubkey_text(self) -> Option<Seq<char>> {
        if self.keys.len() == 0 {
            Some("ALL"@)
        } else if self.keys != self.own_keys {
            Some(username(self.users, self.keys[0]))
        } else {
            None
        }
    }

    pub open spec fn all_hashtags(self, now: u64) -> Seq<Seq<char>> {
        sorted_set::<Hashtag>(hashtags_of(self.tasks, now))
    }

    pub open spec fn pin_builder(self) -> BuilderView {
        BuilderView::new(BOOKMARKS_KIND, "mostr pins"@).tags(pin_tags(self.bookmarks))
    }

    /// The bookmark of a task is set, or taken off if it is there, and told to the relay.
    pub open spec fn bookmark_toggled(self, id: EventId, clock: u64) -> RelayView {
        let this = RelayView { bookmarks: toggled(self.bookmarks, id), ..self };
        RelayView {
            sender: self.sender.with_event(
                this.pin_builder().signed(self.sender.key, clock),
                clock,
            ),
            ..this
        }
    }

    /// From the own tasks to those of everybody, and from any others to the own.
    pub open spec fn key_filter_reset(self) -> RelayView {
        if self.keys == self.own_keys {
            RelayView { view: Seq::empty(), keys: Seq::empty(), ..self }
        } else {
            RelayView { keys: self.own_keys, ..self }
        }
    }

    pub open spec fn filters_cleared(self) -> RelayView {
        RelayView {
            state: FilterView::Default,
            keys: self.own_keys,
            priority: None,
            view: Seq::empty(),
            tags: Seq::empty(),
            tags_excluded: Seq::empty(),
            ..self
        }
    }

    pub open spec fn tags_updated(self, tags: Seq<Seq<char>>) -> RelayView {
        if self.tags.len() == 0 && tags.len() == 0 {
            RelayView { tags_excluded: Seq::empty(), ..self }
        } else {
            RelayView { tags: sorted_set::<Hashtag>(tags), ..self }
        }
    }

    pub open spec fn tag_added(self, tag: Seq<char>) -> RelayView {
        RelayView {
            view: Seq::empty(),
            tags_excluded: without_hashtag(self.tags_excluded, trimmed(tag)),
            tags: with_member::<Hashtag>(self.tags, trimmed(tag)),
            ..self
        }
    }

    /// The tags that begin with the text are no longer filtered by; where there are none, the tag
    /// is filtered out.
    pub open spec fn tag_removed(self, tag: Seq<char>) -> RelayView {
        let kept = not_beginning(self.tags, tag);
        if kept.len() < self.tags.len() {
            RelayView { view: Seq::empty(), tags: kept, ..self }
        } else {
            RelayView {
                view: Seq::empty(),
                tags_excluded: with_member::<Hashtag>(self.tags_excluded, trimmed(tag)),
                ..self
            }
        }
    }

    pub open spec fn past(self, now: u64) -> Seq<EventView> {
        past_events(self.own_events(), now, 0)
    }

    pub open spec fn moved_back_to(self, text: Seq<char>, clock: u64) -> RelayView {
        match first_titled(self.tasks, self.past(now_of(clock)), text) {
            Some(e) => self.moved_to(first_ref(e), clock),
            None => self,
        }
    }

    /// The position that many changes ago, or none.
    pub open spec fn position_back(self, steps: nat, clock: u64) -> Option<EventId> {
        let past = self.past(now_of(clock));
        if steps < past.len() {
            first_ref(past[steps as int])
        } else {
            None
        }
    }

    /// The parent of a task, if both are known.
    pub open spec fn parent_of(self, id: Option<EventId>) -> Option<EventId> {
        match id {
            Some(i) => match task_of(self.tasks, i) {
                Some(t) => t.parent(),
                None => None,
            },
            None => None,
        }
    }

    /// What lies the given number of parents above.
    pub open spec fn up(self, id: Option<EventId>, count: nat) -> Option<EventId>
        decreases count,
    {
        if count == 0 {
            id
        } else {
            self.up(self.parent_of(id), (count - 1) as nat)
        }
    }

    pub open spec fn task_title(self, id: EventId) -> Seq<char> {
        match task_of(self.tasks, id) {
            Some(t) => t.title(),
            None => id.text(),
        }
    }

    pub open spec fn search_depth_set(self, depth: usize) -> RelayView {
        RelayView { view: Seq::empty(), search_depth: depth, ..self }
    }

    /// Another property to sort by first, at most four in all.
    pub open spec fn sorting_added(self, property: Seq<char>) -> RelayView {
        let all = seq![property] + self.sorting;
        RelayView {
            sorting: if all.len() > 4 {
                all.take(4)
            } else {
                all
            },
            ..self
        }
    }
}

// ---------------------------------------------------------------------------
// Filters

impl TasksRelay {
    pub fn pubkey_str(&self) -> (r: Option<String>)
        ensures
            match r {
                Some(s) => self@.pubkey_text() == Some(s@),
                None => self@.pubkey_text() is None,
            },
    {
        if self.keys.len() == 0 {
            Some("ALL".to_string())
        } else if !same_keys(&self.keys, &self.own_keys) {
            Some(self.users.get_username(&self.keys[0]))
        } else {
            None
        }
    }

    /// Visual representation of current context
    pub fn get_prompt_suffix(&self) -> (r: String)
        ensures
            r@ == self@.prompt_suffix(),
    {
        let mut prompt: String = mark_all(" #", &self.tags);
        let excluded: String = mark_all(" -#", &self.tags_excluded);
        prompt.append(excluded.as_str());
        let state: String = self.state.indicator();
        prompt.append(state.as_str());
        match self.priority {
            Some(p) => {
                let number: String = to_decimal(p as u64);
                let number: String = pad(number.as_str(), '0', 2);
                prompt.append(" *");
                prompt.append(number.as_str());
            },
            None => {},
        }
        assert(prompt@ =~= self@.prompt_suffix());
        prompt
    }

    /// The tasks that are not closed.
    pub fn nonclosed_tasks_at(&self, now: u64) -> (r: Vec<&Task>)
        ensures
            views(r@) == nonclosed(self@.tasks, now),
    {
        broadcast use group_views;

        let ghost all = self@.tasks;
        let mut r: Vec<&Task> = Vec::new();
        let mut i: usize = 0;
        assert(all.take(0) =~= Seq::<TaskView>::empty());
        while i < self.tasks.len()
            invariant
                0 <= i <= self.tasks.len(),
                all == views(self.tasks@),
                views(r@) == nonclosed(all.take(i as int), now),
            decreases self.tasks.len() - i,
        {
            assert(all.take(i + 1).drop_last() =~= all.take(i as int));
            assert(all.take(i + 1).last() == self.tasks@[i as int]@);
            if self.tasks[i].pure_state_at(now) != State::Closed {
                r.push(&self.tasks[i]);
            }
            i += 1;
        }
        assert(all.take(self.tasks@.len() as int) =~= all);
        r
    }

    pub fn nonclosed_tasks(&self) -> (r: Vec<&Task>)
        ensures
            exists|clock: u64| views(r@) == nonclosed(self@.tasks, #[trigger] now_of(clock)),
    {
        self.nonclosed_tasks_at(crate::tasks::now())
    }

    /// The hashtags of all tasks that are not closed.
    pub fn all_hashtags_at(&self, now: u64) -> (r: Vec<Hashtag>)
        ensures
            views(r@) == self@.all_hashtags(now),
    {
        broadcast use group_views;

        let ghost all = self@.tasks;
        let mut r: Vec<Hashtag> = Vec::new();
        let mut i: usize = 0;
        assert(all.take(0) =~= Seq::<TaskView>::empty());
        while i < self.tasks.len()
            invariant
                0 <= i <= self.tasks.len(),
                all == views(self.tasks@),
                views(r@) == hashtags_of(all.take(i as int), now),
            decreases self.tasks.len() - i,
        {
            assert(all.take(i + 1).drop_last() =~= all.take(i as int));
            assert(all.take(i + 1).last() == self.tasks@[i as int]@);
            if self.tasks[i].pure_state_at(now) != State::Closed {
                let mut own: Vec<Hashtag> = self.tasks[i].list_hashtags();
                r.append(&mut own);
            }
            i += 1;
        }
        assert(all.take(self.tasks@.len() as int) =~= all);
        sort_to_set(r)
    }

    pub fn all_hashtags(&self) -> (r: Vec<Hashtag>)
        ensures
            exists|clock: u64| views(r@) == self@.all_hashtags(#[trigger] now_of(clock)),
    {
        self.all_hashtags_at(crate::tasks::now())
    }

    /// The hashtags of all tasks that are not closed, as a text.
    pub fn hashtags_text_at(&self, now: u64) -> (r: String)
        ensures
            r@ == joined(self@.all_hashtags(now), " "@),
    {
        broadcast use group_views;

        let tags: Vec<Hashtag> = self.all_hashtags_at(now);
        let ghost all = views(tags@);
        let mut parts: Vec<String> = Vec::new();
        let mut i: usize = 0;
        assert(all.take(0) =~= Seq::<Seq<char>>::empty());
        while i < tags.len()
            invariant
                0 <= i <= tags.len(),
                all == views(tags@),
                views(parts@) == all.take(i as int),
            decreases tags.len() - i,
        {
            parts.push(tags[i].content().to_string());
            assert(all.take(i as int).push(all[i as int]) =~= all.take(i + 1));
            i += 1;
        }
        assert(all.take(tags@.len() as int) =~= all);
        join(&parts, " ")
    }

    pub fn find_users(&self, name: &str) -> (r: Vec<(PublicKey, String)>)
        ensures
            r@.len() == found_users(self@.users, name@).len(),
            forall|i: int|
                #![trigger r@[i]]
                0 <= i < r@.len() ==> r@[i].0 == found_users(self@.users, name@)[i] && r@[i].1@
                    == displayname(self@.users, r@[i].0),
    {
        self.users.find_user_with_displayname(name)
    }

    fn pin_tags(&self) -> (r: Vec<Tag>)
        ensures
            views(r@) == pin_tags(self@.bookmarks),
    {
        broadcast use group_views;

        let ghost all = pin_tags(self@.bookmarks);
        let mut r: Vec<Tag> = Vec::new();
        let mut i: usize = 0;
        assert(all.take(0) =~= Seq::<TagView>::empty());
        while i < self.bookmarks.len()
            invariant
                0 <= i <= self.bookmarks.len(),
                all == pin_tags(self@.bookmarks),
                views(r@) == all.take(i as int),
            decreases self.bookmarks.len() - i,
        {
            r.push(Tag::event(self.bookmarks[i]));
            assert(all.take(i as int).push(all[i as int]) =~= all.take(i + 1));
            i += 1;
        }
        assert(all.take(self.bookmarks@.len() as int) =~= all);
        r
    }

    /// Toggle bookmark on the given id.
    /// Returns whether it was added (true) or removed (false).
    pub fn toggle_bookmark_at(&mut self, id: EventId, clock: u64) -> (r: bool)
        ensures
            r == !old(self)@.bookmarks.contains(id),
            final(self)@ == old(self)@.bookmark_toggled(id, clock),
    {
        let mut i: usize = 0;
        assert(self.bookmarks@.take(0) + without_first(self.bookmarks@.skip(0), id)
            =~= without_first(self.bookmarks@, id)) by {
            assert(self.bookmarks@.skip(0) =~= self.bookmarks@);
        }
        while i < self.bookmarks.len() && self.bookmarks[i] != id
            invariant
                0 <= i <= self.bookmarks.len(),
                *self == *old(self),
                forall|k: int| 0 <= k < i ==> self.bookmarks@[k] != id,
                without_first(self.bookmarks@, id) == self.bookmarks@.take(i as int)
                    + without_first(self.bookmarks@.skip(i as int), id),
            decreases self.bookmarks.len() - i,
        {
            let ghost all = self.bookmarks@;
            assert(all.skip(i as int).drop_first() =~= all.skip(i + 1));
            assert(all.take(i as int) + (seq![all[i as int]] + without_first(
                all.skip(i + 1),
                id,
            )) =~= all.take(i + 1) + without_first(all.skip(i + 1), id));
            i += 1;
        }
        let added: bool = i == self.bookmarks.len();
        if added {
            assert(!self.bookmarks@.contains(id));
            self.bookmarks.push(id);
        } else {
            let ghost all = self.bookmarks@;
            assert(all[i as int] == id);
            assert(all.take(i as int) + all.skip(i as int).drop_first() =~= all.remove(i as int));
            self.bookmarks.remove(i);
        }
        assert(self.bookmarks@ == toggled(old(self)@.bookmarks, id));
        let ghost this = RelayView { bookmarks: toggled(old(self)@.bookmarks, id), ..old(self)@ };
        assert(self@ =~= this);
        let builder: EventBuilder = EventBuilder::new(BOOKMARKS_KIND, "mostr pins").tags(
            self.pin_tags(),
        );
        self.sender.submit_at(builder, clock);
        assert(self@ =~= old(self)@.bookmark_toggled(id, clock));
        added
    }

    pub fn toggle_bookmark(&mut self, id: EventId) -> (r: bool)
        ensures
            r == !old(self)@.bookmarks.contains(id),
            exists|clock: u64| final(self)@ == #[trigger] old(self)@.bookmark_toggled(id, clock),
    {
        self.toggle_bookmark_at(id, clock())
    }

    pub fn reset_key_filter(&mut self)
        ensures
            final(self)@ == old(self)@.key_filter_reset(),
    {
        if same_keys(&self.keys, &self.own_keys) {
            self.view.clear();
            self.keys.clear();
        } else {
            self.keys = clone_keys(&self.own_keys);
        }
        assert(self@ =~= old(self)@.key_filter_reset());
    }

    pub fn set_key_filter(&mut self, key: Vec<PublicKey>)
        ensures
            final(self)@ == (RelayView { keys: key@, ..old(self)@ }),
    {
        self.keys = key;
    }

    /// Set currently visible tasks.
    /// Returns whether there are any.
    pub fn set_view(&mut self, view: Vec<EventId>) -> (r: bool)
        ensures
            r == (view@.len() > 0),
            final(self)@ == (RelayView { view: view@, ..old(self)@ }),
    {
        self.view = view;
        self.view.len() > 0
    }

    pub fn set_view_bookmarks(&mut self) -> (r: bool)
        ensures
            r == (old(self)@.bookmarks.len() > 0),
            final(self)@ == (RelayView { view: old(self)@.bookmarks, ..old(self)@ }),
    {
        let ids: Vec<EventId> = clone_ids(&self.bookmarks);
        self.set_view(ids)
    }

    /// The ids of the filtered tasks below a position that the predicate holds of.
    pub fn get_filtered_at<P: Fn(&Task) -> bool>(
        &self,
        position: Option<EventId>,
        predicate: P,
        clock: u64,
        keys: &Vec<Vec<String>>,
    ) -> (r: Vec<EventId>)
        requires
            keys.len() == self.tasks.len(),
            forall|t: &Task| call_requires(predicate, (t,)),
        ensures
            exists|flags: Seq<bool>|
                {
                    let at = self@.filtered(now_of(clock), table(keys@), position, false);
                    &&& flags.len() == at.len()
                    &&& r@ == #[trigger] flagged(
                        self@.tasks,
                        self@.filtered(now_of(clock), table(keys@), position, false),
                        flags,
                    )
                    &&& forall|i: int|
                        #![trigger flags[i]]
                        0 <= i < flags.len() ==> call_ensures(
                            predicate,
                            (&self.tasks[at[i]],),
                            flags[i],
                        )
                },
    {
        let places_found: Vec<usize> = self.filtered_places(now_at(clock), keys, position, false);
        let ghost at = places(places_found@);
        let ghost mut flags: Seq<bool> = Seq::empty();
        let mut r: Vec<EventId> = Vec::new();
        let mut i: usize = 0;
        assert(at.take(0) =~= Seq::<int>::empty());
        while i < places_found.len()
            invariant
                0 <= i <= places_found.len(),
                within(places_found@, self.tasks.len() as int),
                at == places(places_found@),
                forall|t: &Task| call_requires(predicate, (t,)),
                flags.len() == i,
                r@ == flagged(self@.tasks, at.take(i as int), flags),
                forall|k: int|
                    #![trigger flags[k]]
                    0 <= k < i ==> call_ensures(predicate, (&self.tasks[at[k]],), flags[k]),
            decreases places_found.len() - i,
        {
            assert(at.take(i + 1).drop_last() =~= at.take(i as int));
            assert(at.take(i + 1).last() == places_found@[i as int]);
            let task: &Task = &self.tasks[places_found[i]];
            assert(self@.tasks[places_found@[i as int] as int] == task@);
            let holds: bool = predicate(task);
            let ghost before = flags;
            proof {
                flags = flags.push(holds);
                assert(flags.drop_last() =~= before);
            }
            if holds {
                r.push(task.get_id());
            }
            i += 1;
        }
        assert(at.take(places_found@.len() as int) =~= at);
        assert(r@ == flagged(self@.tasks, at, flags));
        r
    }

    /// The ids of the filtered tasks below a position that the predicate holds of.
    pub fn get_filtered<P: Fn(&Task) -> bool>(&self, position: Option<EventId>, predicate: P) -> (r:
        Vec<EventId>)
        requires
            forall|t: &Task| call_requires(predicate, (t,)),
        ensures
            exists|clock: u64, keys: KeysView, flags: Seq<bool>|
                {
                    let at = self@.filtered(now_of(clock), keys, position, false);
                    &&& #[trigger] self@.are_keys(clock, keys)
                    &&& flags.len() == at.len()
                    &&& r@ == #[trigger] flagged(
                        self@.tasks,
                        self@.filtered(now_of(clock), keys, position, false),
                        flags,
                    )
                    &&& forall|i: int|
                        #![trigger flags[i]]
                        0 <= i < flags.len() ==> call_ensures(
                            predicate,
                            (&self.tasks[at[i]],),
                            flags[i],
                        )
                },
    {
        let now: u64 = clock();
        let keys: Vec<Vec<String>> = self.sorting_keys(now);
        self.get_filtered_at(position, predicate, now, &keys)
    }

    /// Puts those of the filtered tasks below the position into view that the predicate holds of.
    /// Returns whether there are any.
    pub fn set_filter<P: Fn(&Task) -> bool>(&mut self, predicate: P) -> (r: bool)
        requires
            forall|t: &Task| call_requires(predicate, (t,)),
        ensures
            exists|clock: u64, keys: KeysView, flags: Seq<bool>|
                {
                    let at = old(self)@.filtered(
                        now_of(clock),
                        keys,
                        old(self)@.position(clock),
                        false,
                    );
                    let ids = flagged(old(self)@.tasks, at, flags);
                    &&& #[trigger] old(self)@.are_keys(clock, keys)
                    &&& #[trigger] flags.len() == at.len()
                    &&& forall|i: int|
                        #![trigger flags[i]]
                        0 <= i < flags.len() ==> call_ensures(
                            predicate,
                            (&old(self).tasks[at[i]],),
                            flags[i],
                        )
                    &&& final(self)@ == (RelayView { view: ids, ..old(self)@ })
                    &&& r == (ids.len() > 0)
                },
    {
        let now: u64 = clock();
        let keys: Vec<Vec<String>> = self.sorting_keys(now);
        let ghost shown = table(keys@);
        assert(self@.are_keys(now, shown));
        let position: Option<EventId> = self.position(now);
        let ids: Vec<EventId> = self.get_filtered_at(position, predicate, now, &keys);
        proof {
            let at = self@.filtered(now_of(now), shown, position, false);
            let flags = choose|flags: Seq<bool>|
                {
                    &&& flags.len() == at.len()
                    &&& ids@ == #[trigger] flagged(
                        self@.tasks,
                        self@.filtered(now_of(now), table(keys@), position, false),
                        flags,
                    )
                    &&& forall|i: int|
                        #![trigger flags[i]]
                        0 <= i < flags.len() ==> call_ensures(
                            predicate,
                            (&self.tasks[at[i]],),
                            flags[i],
                        )
                };
            assert(flags.len() == at.len());
        }
        self.set_view(ids)
    }

    /// The ids of the filtered tasks below a position that have the text in their title or one of
    /// their hashtags.
    pub fn search_at(
        &self,
        position: Option<EventId>,
        text: &str,
        now: u64,
        keys: &Vec<Vec<String>>,
    ) -> (r: Vec<EventId>)
        requires
            keys.len() == self.tasks.len(),
        ensures
            r@ == searched(
                self@.tasks,
                self@.filtered(now, table(keys@), position, false),
                text@,
            ),
    {
        let found: Vec<usize> = self.filtered_places(now, keys, position, false);
        let ghost at = places(found@);
        let mut ids: Vec<EventId> = Vec::new();
        let mut i: usize = 0;
        assert(at.take(0) =~= Seq::<int>::empty());
        while i < found.len()
            invariant
                0 <= i <= found.len(),
                within(found@, self.tasks.len() as int),
                at == places(found@),
                ids@ == searched(self@.tasks, at.take(i as int), text@),
            decreases found.len() - i,
        {
            assert(at.take(i + 1).drop_last() =~= at.take(i as int));
            assert(at.take(i + 1).last() == found@[i as int]);
            let task: &Task = &self.tasks[found[i]];
            assert(self@.tasks[found@[i as int] as int] == task@);
            if mentions_text(task, text) {
                ids.push(task.get_id());
            }
            i += 1;
        }
        assert(at.take(found@.len() as int) =~= at);
        ids
    }

    /// Puts those of the tasks below the position into view whose state was set after a time.
    pub fn set_filter_since_at(&mut self, time: u64, clock: u64, keys: &Vec<Vec<String>>) -> (r: bool)
        requires
            keys.len() == old(self).tasks.len(),
        ensures
            ({
                let at = old(self)@.filtered(
                    now_of(clock),
                    table(keys@),
                    old(self)@.position(clock),
                    false,
                );
                let ids = updated_since(old(self)@.tasks, at, now_of(clock), time);
                &&& final(self)@ == (RelayView { view: ids, ..old(self)@ })
                &&& r == (ids.len() > 0)
            }),
    {
        let now: u64 = now_at(clock);
        let position: Option<EventId> = self.position(clock);
        let found: Vec<usize> = self.filtered_places(now, keys, position, false);
        let ghost at = places(found@);
        let mut ids: Vec<EventId> = Vec::new();
        let mut i: usize = 0;
        assert(at.take(0) =~= Seq::<int>::empty());
        while i < found.len()
            invariant
                0 <= i <= found.len(),
                *self == *old(self),
                within(found@, self.tasks.len() as int),
                at == places(found@),
                ids@ == updated_since(self@.tasks, at.take(i as int), now, time),
            decreases found.len() - i,
        {
            assert(at.take(i + 1).drop_last() =~= at.take(i as int));
            assert(at.take(i + 1).last() == found@[i as int]);
            let task: &Task = &self.tasks[found[i]];
            assert(self@.tasks[found@[i as int] as int] == task@);
            if task.last_state_update_at(now) > time {
                ids.push(task.get_id());
            }
            i += 1;
        }
        assert(at.take(found@.len() as int) =~= at);
        self.set_view(ids)
    }

    pub fn set_filter_since(&mut self, time: u64) -> (r: bool)
        ensures
            exists|clock: u64, keys: KeysView|
                {
                    let at = old(self)@.filtered(
                        now_of(clock),
                        keys,
                        old(self)@.position(clock),
                        false,
                    );
                    let ids = updated_since(old(self)@.tasks, at, now_of(clock), time);
                    &&& #[trigger] old(self)@.are_keys(clock, keys)
                    &&& final(self)@ == (RelayView { view: ids, ..old(self)@ })
                    &&& r == (ids.len() > 0)
                },
    {
        let now: u64 = clock();
        let keys: Vec<Vec<String>> = self.sorting_keys(now);
        let ghost shown = table(keys@);
        assert(self@.are_keys(now, shown));
        self.set_filter_since_at(time, now, &keys)
    }

    pub fn clear_filters(&mut self)
        ensures
            final(self)@ == old(self)@.filters_cleared(),
    {
        broadcast use group_views;

        self.state = StateFilter::Default;
        self.keys = clone_keys(&self.own_keys);
        self.priority = None;
        self.view.clear();
        self.tags.clear();
        self.tags_excluded.clear();
        assert(self@ =~= old(self)@.filters_cleared());
    }

    pub fn has_tag_filter(&self) -> (r: bool)
        ensures
            r == (self@.tags.len() > 0 || self@.tags_excluded.len() > 0),
    {
        self.tags.len() > 0 || self.tags_excluded.len() > 0
    }

    /// Returns true if tags have been updated, false if there is nothing to filter by
    pub fn update_tags(&mut self, tags: Vec<Hashtag>) -> (r: bool)
        ensures
            r == (old(self)@.tags.len() > 0 || tags@.len() > 0),
            final(self)@ == old(self)@.tags_updated(views(tags@)),
    {
        broadcast use group_views;

        if self.tags.len() == 0 && tags.len() == 0 {
            self.tags_excluded.clear();
            assert(self@ =~= old(self)@.tags_updated(views(tags@)));
            false
        } else {
            self.tags = sort_to_set(tags);
            true
        }
    }

    pub fn add_tag(&mut self, tag: &str)
        ensures
            final(self)@ == old(self)@.tag_added(tag@),
    {
        self.view.clear();
        let wanted: Hashtag = Hashtag::from(tag);
        remove_hashtag(&mut self.tags_excluded, &wanted);
        add_member(&mut self.tags, wanted);
        assert(self@ =~= old(self)@.tag_added(tag@));
    }

    pub fn remove_tag(&mut self, tag: &str)
        ensures
            final(self)@ == old(self)@.tag_removed(tag@),
    {
        self.view.clear();
        let kept: Vec<Hashtag> = keep_not_beginning(&self.tags, tag);
        assert(views(kept@).len() == kept@.len());
        if kept.len() < self.tags.len() {
            self.tags = kept;
        } else {
            add_member(&mut self.tags_excluded, Hashtag::from(tag));
        }
        assert(self@ =~= old(self)@.tag_removed(tag@));
    }

    pub fn set_priority(&mut self, priority: Option<Prio>)
        ensures
            final(self)@ == (RelayView { view: Seq::empty(), priority, ..old(self)@ }),
    {
        self.view.clear();
        self.priority = priority;
        assert(self@ =~= RelayView { view: Seq::empty(), priority, ..old(self)@ });
    }

    pub fn set_state_filter(&mut self, state: StateFilter)
        ensures
            final(self)@ == (RelayView { view: Seq::empty(), state: state@, ..old(self)@ }),
    {
        self.view.clear();
        self.state = state;
        assert(self@ =~= RelayView { view: Seq::empty(), state: state@, ..old(self)@ });
    }

    pub fn flush(&mut self)
        ensures
            final(self)@ == (RelayView { sender: old(self)@.sender.force_flushed(), ..old(self)@ }),
            final(self).sender.has_handed_over(old(self).sender),
            final(self).sender.signed(),
    {
        self.sender.force_flush();
    }

    // Parents

    pub fn get_parent(&self, id: Option<EventId>) -> (r: Option<EventId>)
        ensures
            r == self@.parent_of(id),
    {
        match id {
            Some(i) => match self.get_by_id(&i) {
                Some(t) => t.parent_id(),
                None => None,
            },
            None => None,
        }
    }

    /// Move up `count` parent tasks from current position
    pub fn up_by_at(&self, count: usize, clock: u64) -> (r: Option<EventId>)
        ensures
            r == self@.up(self@.position(clock), count as nat),
    {
        let pos: Option<EventId> = self.position(clock);
        let mut r: Option<EventId> = pos;
        let mut left: usize = count;
        while left > 0
            invariant
                self@.up(pos, count as nat) == self@.up(r, left as nat),
            decreases left,
        {
            r = self.get_parent(r);
            left -= 1;
        }
        r
    }

    pub fn up_by(&self, count: usize) -> (r: Option<EventId>)
        ensures
            exists|clock: u64| r == self@.up(#[trigger] self@.position(clock), count as nat),
    {
        let now: u64 = clock();
        let r: Option<EventId> = self.up_by_at(count, now);
        assert(r == self@.up(self@.position(now), count as nat));
        r
    }

    pub fn get_current_task_at(&self, clock: u64) -> (r: Option<&Task>)
        ensures
            match self@.position(clock) {
                Some(id) => match r {
                    Some(t) => task_of(self@.tasks, id) == Some(t@),
                    None => task_of(self@.tasks, id) is None,
                },
                None => r is None,
            },
    {
        match self.position(clock) {
            Some(id) => self.get_by_id(&id),
            None => None,
        }
    }

    pub fn get_current_task(&self) -> (r: Option<&Task>)
        ensures
            exists|clock: u64|
                match #[trigger] self@.position(clock) {
                    Some(id) => match r {
                        Some(t) => task_of(self@.tasks, id) == Some(t@),
                        None => task_of(self@.tasks, id) is None,
                    },
                    None => r is None,
                },
    {
        let now: u64 = clock();
        let r: Option<&Task> = self.get_current_task_at(now);
        assert(match self@.position(now) {
            Some(id) => match r {
                Some(t) => task_of(self@.tasks, id) == Some(t@),
                None => task_of(self@.tasks, id) is None,
            },
            None => r is None,
        });
        r
    }

    pub fn get_task_title(&self, id: &EventId) -> (r: String)
        ensures
            r@ == self@.task_title(*id),
    {
        match self.get_by_id(id) {
            Some(t) => t.get_title(),
            None => id.to_string(),
        }
    }

    // History

    /// The own changes of position until now, the latest first.
    pub fn history_before(&self, now: u64) -> (r: Vec<Event>)
        ensures
            views(r@) == self@.past(now),
    {
        broadcast use group_views;

        let mut r: Vec<Event> = Vec::new();
        match self.get_own_history() {
            Some(events) => {
                let ghost all = views(events@);
                let mut i: usize = events.len();
                while i > 0
                    invariant
                        0 <= i <= events.len(),
                        all == views(events@),
                        views(r@) == past_events(all, now, i as nat),
                    decreases i,
                {
                    i -= 1;
                    assert(all[i as int] == events@[i as int]@);
                    assert(views(r@).len() == r@.len());
                    assert(r@.len() > 0 ==> views(r@).last() == r@.last()@);
                    if r.len() == 0 && events[i].created_at > now {
                    } else if r.len() > 0 && r[r.len() - 1].id == events[i].id {
                    } else {
                        r.push(events[i].clone());
                    }
                }
            },
            None => {},
        }
        r
    }

    pub fn history_before_now(&self) -> (r: Vec<Event>)
        ensures
            exists|clock: u64| views(r@) == self@.past(#[trigger] now_of(clock)),
    {
        self.history_before(crate::tasks::now())
    }

    /// Moves to the latest position whose title holds the text, if there is one.
    pub fn move_back_to_at(&mut self, str: &str, clock: u64) -> (r: bool)
        ensures
            r == first_titled(old(self)@.tasks, old(self)@.past(now_of(clock)), str@) is Some,
            final(self)@ == old(self)@.moved_back_to(str@, clock),
    {
        let lowered: String = to_lower(str);
        let past: Vec<Event> = self.history_before(now_at(clock));
        let ghost all = views(past@);
        let mut i: usize = 0;
        assert(all.skip(0) =~= all);
        while i < past.len()
            invariant
                0 <= i <= past.len(),
                *self == *old(self),
                lowered@ == lower(str@),
                all == views(past@),
                all == self@.past(now_of(clock)),
                first_titled(self@.tasks, all, str@) == first_titled(
                    self@.tasks,
                    all.skip(i as int),
                    str@,
                ),
            decreases past.len() - i,
        {
            assert(all.skip(i as int)[0] == past@[i as int]@);
            assert(all.skip(i as int).drop_first() =~= all.skip(i + 1));
            let target: Option<EventId> = referenced_event(&past[i]);
            let found: bool = match target {
                Some(id) => match self.get_by_id(&id) {
                    Some(t) => {
                        let title: String = t.get_title();
                        let title: String = to_lower(title.as_str());
                        contains(title.as_str(), lowered.as_str())
                    },
                    None => false,
                },
                None => false,
            };
            if found {
                self.move_to_at(target, clock);
                return true;
            }
            i += 1;
        }
        false
    }

    pub fn move_back_to(&mut self, str: &str) -> (r: bool)
        ensures
            exists|clock: u64|
                r == first_titled(old(self)@.tasks, old(self)@.past(now_of(clock)), str@) is Some
                    && final(self)@ == #[trigger] old(self)@.moved_back_to(str@, clock),
    {
        let now: u64 = clock();
        let r: bool = self.move_back_to_at(str, now);
        assert(self@ == old(self)@.moved_back_to(str@, now));
        r
    }

    /// Moves to the position that many changes ago.
    pub fn move_back_by_at(&mut self, steps: usize, clock: u64)
        ensures
            final(self)@ == old(self)@.moved_to(
                old(self)@.position_back(steps as nat, clock),
                clock,
            ),
    {
        let past: Vec<Event> = self.history_before(now_at(clock));
        assert(views(past@).len() == past@.len());
        let target: Option<EventId> = if steps < past.len() {
            assert(views(past@)[steps as int] == past@[steps as int]@);
            referenced_event(&past[steps])
        } else {
            None
        };
        self.move_to_at(target, clock);
    }

    pub fn move_back_by(&mut self, steps: usize)
        ensures
            exists|clock: u64|
                final(self)@ == old(self)@.moved_to(
                    #[trigger] old(self)@.position_back(steps as nat, clock),
                    clock,
                ),
    {
        let now: u64 = clock();
        self.move_back_by_at(steps, now);
        assert(self@ == old(self)@.moved_to(old(self)@.position_back(steps as nat, now), now));
    }

    // Properties

    pub fn set_view_depth(&mut self, depth: usize)
        ensures
            final(self)@ == (RelayView { view_depth: depth, ..old(self)@ }),
    {
        self.view_depth = depth;
    }

    pub fn set_search_depth(&mut self, depth: usize)
        ensures
            final(self)@ == old(self)@.search_depth_set(depth),
    {
        self.view.clear();
        self.search_depth = depth;
        assert(self@ =~= old(self)@.search_depth_set(depth));
    }

    pub fn get_columns(&mut self) -> (r: &mut Vec<String>)
        ensures
            views(r@) == old(self)@.properties,
            final(self)@ == (RelayView { properties: views(final(r)@), ..old(self)@ }),
    {
        &mut self.properties
    }

    pub fn set_sorting(&mut self, vec: Vec<String>)
        ensures
            final(self)@ == (RelayView { sorting: views(vec@), ..old(self)@ }),
    {
        self.sorting = vec;
    }

    pub fn add_sorting_property(&mut self, property: String)
        ensures
            final(self)@ == old(self)@.sorting_added(property@),
    {
        broadcast use group_views;

        let ghost all = seq![property@] + self@.sorting;
        self.sorting.insert(0, property);
        assert(views(self.sorting@) =~= all);
        if self.sorting.len() > 4 {
            let ghost longer = self.sorting@;
            self.sorting.truncate(4);
            assert(self.sorting@ =~= longer.take(4));
            assert(views(self.sorting@) =~= all.take(4));
        }
        assert(self@ =~= old(self)@.sorting_added(property@));
    }
}

pub open spec fn nonclosed(tasks: TasksView, now: u64) -> TasksView
    decreases tasks.len(),
{
    if tasks.len() == 0 {
        Seq::empty()
    } else {
        let before = nonclosed(tasks.drop_last(), now);
        if tasks.last().pure_state(now) != State::Closed {
            before.push(tasks.last())
        } else {
            before
        }
    }
}

// ---------------------------------------------------------------------------
// Helpers

fn find_capital(s: &str) -> (r: bool)
    ensures
        r == has_capital(s@),
{
    let v: Vec<char> = crate::text::chars_of(s);
    let mut i: usize = 0;
    while i < v.len()
        invariant
            0 <= i <= v.len(),
            v@ == s@,
            forall|k: int| 0 <= k < i ==> !('A' <= #[trigger] v@[k] && v@[k] <= 'Z'),
        decreases v.len() - i,
    {
        if 'A' <= v[i] && v[i] <= 'Z' {
            return true;
        }
        i += 1;
    }
    false
}

fn mentions_text(task: &Task, text: &str) -> (r: bool)
    ensures
        r == mentions(task@, text@),
{
    let title: String = task.get_title();
    let title: String = if find_capital(text) {
        title
    } else {
        to_lower(title.as_str())
    };
    if contains(title.as_str(), text) {
        return true;
    }
    let tags: Vec<Hashtag> = task.list_hashtags();
    let ghost all = views(tags@);
    let mut i: usize = 0;
    while i < tags.len()
        invariant
            0 <= i <= tags.len(),
            all == views(tags@),
            all == task@.hashtags(),
            forall|k: int| 0 <= k < i ==> !has_part(#[trigger] all[k], text@),
        decreases tags.len() - i,
    {
        assert(all[i as int] == tags@[i as int]@);
        if contains(tags[i].content(), text) {
            return true;
        }
        i += 1;
    }
    false
}

fn same_keys(a: &Vec<PublicKey>, b: &Vec<PublicKey>) -> (r: bool)
    ensures
        r == (a@ == b@),
{
    if a.len() != b.len() {
        return false;
    }
    let mut i: usize = 0;
    while i < a.len()
        invariant
            0 <= i <= a.len(),
            a.len() == b.len(),
            forall|k: int| 0 <= k < i ==> a@[k] == b@[k],
        decreases a.len() - i,
    {
        if a[i] != b[i] {
            return false;
        }
        i += 1;
    }
    assert(a@ =~= b@);
    true
}

fn clone_keys(v: &Vec<PublicKey>) -> (r: Vec<PublicKey>)
    ensures
        r@ == v@,
{
    let mut r: Vec<PublicKey> = Vec::new();
    let mut i: usize = 0;
    while i < v.len()
        invariant
            0 <= i <= v.len(),
            r@ == v@.take(i as int),
        decreases v.len() - i,
    {
        r.push(v[i]);
        assert(v@.take(i as int).push(v@[i as int]) =~= v@.take(i + 1));
        i += 1;
    }
    assert(v@.take(v@.len() as int) =~= v@);
    r
}

fn clone_ids(v: &Vec<EventId>) -> (r: Vec<EventId>)
    ensures
        r@ == v@,
{
    let mut r: Vec<EventId> = Vec::new();
    let mut i: usize = 0;
    while i < v.len()
        invariant
            0 <= i <= v.len(),
            r@ == v@.take(i as int),
        decreases v.len() - i,
    {
        r.push(v[i]);
        assert(v@.take(i as int).push(v@[i as int]) =~= v@.take(i + 1));
        i += 1;
    }
    assert(v@.take(v@.len() as int) =~= v@);
    r
}

fn mark_all(mark: &str, tags: &Vec<Hashtag>) -> (r: String)
    ensures
        r@ == marked_texts(mark@, views(tags@)),
{
    let ghost all = views(tags@);
    let mut r: String = String::new();
    let mut i: usize = 0;
    assert(all.take(0) =~= Seq::<Seq<char>>::empty());
    while i < tags.len()
        invariant
            0 <= i <= tags.len(),
            all == views(tags@),
            r@ == marked_texts(mark@, all.take(i as int)),
        decreases tags.len() - i,
    {
        assert(all.take(i + 1).drop_last() =~= all.take(i as int));
        assert(all.take(i + 1).last() == tags@[i as int]@);
        r.append(mark);
        r.append(tags[i].content());
        i += 1;
    }
    assert(all.take(tags@.len() as int) =~= all);
    r
}

fn remove_hashtag(tags: &mut Vec<Hashtag>, tag: &Hashtag)
    ensures
        views(final(tags)@) == without_hashtag(views(old(tags)@), tag@),
{
    broadcast use group_views;

    let ghost all = views(tags@);
    let mut kept: Vec<Hashtag> = Vec::new();
    let mut i: usize = 0;
    assert(all.take(0) =~= Seq::<Seq<char>>::empty());
    while i < tags.len()
        invariant
            0 <= i <= tags.len(),
            *tags == *old(tags),
            all == views(tags@),
            views(kept@) == without_hashtag(all.take(i as int), tag@),
        decreases tags.len() - i,
    {
        assert(all.take(i + 1).drop_last() =~= all.take(i as int));
        assert(all.take(i + 1).last() == tags@[i as int]@);
        if !tags[i].same(tag) {
            kept.push(tags[i].clone());
        }
        i += 1;
    }
    assert(all.take(tags@.len() as int) =~= all);
    *tags = kept;
}

fn keep_not_beginning(tags: &Vec<Hashtag>, text: &str) -> (r: Vec<Hashtag>)
    ensures
        views(r@) == not_beginning(views(tags@), text@),
{
    broadcast use group_views;

    let lowered: String = to_lower(text);
    let ghost all = views(tags@);
    let mut r: Vec<Hashtag> = Vec::new();
    let mut i: usize = 0;
    assert(all.take(0) =~= Seq::<Seq<char>>::empty());
    while i < tags.len()
        invariant
            0 <= i <= tags.len(),
            lowered@ == lower(text@),
            all == views(tags@),
            views(r@) == not_beginning(all.take(i as int), text@),
        decreases tags.len() - i,
    {
        assert(all.take(i + 1).drop_last() =~= all.take(i as int));
        assert(all.take(i + 1).last() == tags@[i as int]@);
        let own: String = to_lower(tags[i].content());
        if !starts_with(own.as_str(), lowered.as_str()) {
            r.push(tags[i].clone());
        }
        i += 1;
    }
    assert(all.take(tags@.len() as int) =~= all);
    r
}

// ---------------------------------------------------------------------------
// Columns

/// The list with a text added, or taken out if it is there.
pub open spec fn column_toggled(columns: Seq<Seq<char>>, property: Seq<char>) -> Seq<Seq<char>>
    decreases columns.len(),
{
    if columns.len() == 0 {
        seq![property]
    } else if columns[0] == property {
        columns.drop_first()
    } else {
        seq![columns[0]] + column_toggled(columns.drop_first(), property)
    }
}

/// Property columns, which can be added and removed.
pub trait PropertyCollection {
    spec fn columns(&self) -> Seq<Seq<char>>;

    fn remove_at(&mut self, index: usize)
        requires
            index < old(self).columns().len(),
        ensures
            final(self).columns() == old(self).columns().remove(index as int),
    ;

    /// Takes the property out if it is there, and adds it at the end otherwise.
    fn add_or_remove(&mut self, property: String)
        ensures
            final(self).columns() == column_toggled(old(self).columns(), property@),
    ;

    /// Takes the property out if it is at the given place, and adds it there otherwise.
    fn add_or_remove_at(&mut self, property: String, index: usize)
        requires
            index <= old(self).columns().len(),
        ensures
            final(self).columns() == if index < old(self).columns().len() && old(self).columns()[
            index as int] == property@ {
                old(self).columns().remove(index as int)
            } else {
                old(self).columns().insert(index as int, property@)
            },
    ;
}

impl PropertyCollection for Vec<String> {
    open spec fn columns(&self) -> Seq<Seq<char>> {
        views(self@)
    }

    fn remove_at(&mut self, index: usize) {
        broadcast use group_views;

        self.remove(index);
    }

    fn add_or_remove(&mut self, property: String) {
        broadcast use group_views;

        let ghost all = views(self@);
        let mut i: usize = 0;
        assert(all.skip(0) =~= all);
        assert(all.take(0) + column_toggled(all, property@) =~= column_toggled(all, property@));
        while i < self.len() && !crate::text::same_text(self[i].as_str(), property.as_str())
            invariant
                0 <= i <= self.len(),
                *self == *old(self),
                all == views(self@),
                column_toggled(all, property@) == all.take(i as int) + column_toggled(
                    all.skip(i as int),
                    property@,
                ),
            decreases self.len() - i,
        {
            assert(all.skip(i as int)[0] == self@[i as int]@);
            assert(all.skip(i as int).drop_first() =~= all.skip(i + 1));
            assert(all.take(i as int) + (seq![all[i as int]] + column_toggled(
                all.skip(i + 1),
                property@,
            )) =~= all.take(i + 1) + column_toggled(all.skip(i + 1), property@));
            i += 1;
        }
        if i < self.len() {
            assert(all.skip(i as int)[0] == self@[i as int]@);
            assert(all.take(i as int) + all.skip(i as int).drop_first() =~= all.remove(i as int));
            self.remove(i);
        } else {
            assert(all.take(i as int) + seq![property@] =~= all.push(property@));
            self.push(property);
        }
    }

    fn add_or_remove_at(&mut self, property: String, index: usize) {
        broadcast use group_views;

        if index < self.len() && crate::text::same_text(self[index].as_str(), property.as_str()) {
            self.remove(index);
        } else {
            self.insert(index, property);
        }
    }
}

} // verus!
