//! Pending events, which can be taken back until they are handed over.

use crate::kinds::TRACKING_KIND;
use crate::lists::{group_views, views};
use crate::nostr::{all_signed, Event, EventBuilder, EventView, PublicKey, Signer};
use crate::tasks::nostr_users::owned_text;
use crate::tasks::{now_at, now_of};
use crate::text::{lemma_parted_is_shorter, parted, split_once};
use crate::time::clock;
use vstd::prelude::*;

verus! {

/// For how many seconds an action can be undone.
pub const UNDO_DELAY: u64 = 60;

/// What is handed to the communication with relays.
#[derive(Debug)]
pub enum MostrMessage {
    Flush,
    NewRelay(String),
    AddTasks(String, Vec<Event>),
}

pub enum MessageView {
    Flush,
    NewRelay(Seq<char>),
    AddTasks(Seq<char>, Seq<EventView>),
}

impl View for MostrMessage {
    type V = MessageView;

    open spec fn view(&self) -> MessageView {
        match self {
            MostrMessage::Flush => MessageView::Flush,
            MostrMessage::NewRelay(url) => MessageView::NewRelay(url@),
            MostrMessage::AddTasks(url, events) => MessageView::AddTasks(url@, views(events@)),
        }
    }
}

impl MostrMessage {
    /// Whether all events that are handed over are signed by their authors.
    pub open spec fn signed(&self) -> bool {
        match self {
            MostrMessage::AddTasks(_, events) => all_signed(events@),
            _ => true,
        }
    }
}

/// Whether all events in the messages are signed by their authors.
pub open spec fn messages_signed(messages: Seq<MostrMessage>) -> bool {
    forall|i: int| 0 <= i < messages.len() ==> (#[trigger] messages[i]).signed()
}

/// Signs events and holds them back. All that is pending or to be handed over is signed.
#[derive(Debug)]
pub struct EventSender {
    url: Option<String>,
    signer: Signer,
    /// Events that are not handed over yet
    queue: Vec<Event>,
    /// Messages to hand over
    outbox: Vec<MostrMessage>,
}

#[verifier::ext_equal]
pub struct SenderView {
    pub url: Option<Seq<char>>,
    pub key: PublicKey,
    pub queue: Seq<EventView>,
    pub outbox: Seq<MessageView>,
}

impl View for EventSender {
    type V = SenderView;

    open spec fn view(&self) -> SenderView {
        SenderView {
            url: self.address(),
            key: self.key(),
            queue: views(self.pending()),
            outbox: views(self.messages()),
        }
    }
}

/// The time that lies the given seconds before, as far back as timestamps reach.
pub open spec fn before(time: u64, secs: u64) -> u64 {
    if time >= secs {
        (time - secs) as u64
    } else {
        0
    }
}

/// Whether an event is too old to be taken back, or from the future.
pub open spec fn is_stale(event: EventView, clock: u64) -> bool {
    event.created_at < before(clock, UNDO_DELAY) || event.created_at > clock
}

pub open spec fn any_stale(events: Seq<EventView>, clock: u64) -> bool {
    exists|i: int| 0 <= i < events.len() && is_stale(#[trigger] events[i], clock)
}

pub open spec fn is_tracking(event: EventView) -> bool {
    event.kind == TRACKING_KIND
}

pub open spec fn all_tracking(events: Seq<EventView>) -> bool {
    forall|i: int| 0 <= i < events.len() ==> is_tracking(#[trigger] events[i])
}

/// The events that do not track time.
pub open spec fn without_tracking(events: Seq<EventView>) -> Seq<EventView>
    decreases events.len(),
{
    if events.len() == 0 {
        Seq::empty()
    } else if is_tracking(events.last()) {
        without_tracking(events.drop_last())
    } else {
        without_tracking(events.drop_last()).push(events.last())
    }
}

impl SenderView {
    pub open spec fn cleared(self) -> SenderView {
        SenderView { queue: Seq::empty(), ..self }
    }

    /// All pending events are handed over, where there is a relay to take them.
    pub open spec fn force_flushed(self) -> SenderView {
        match self.url {
            Some(url) => SenderView {
                queue: Seq::empty(),
                outbox: self.outbox.push(MessageView::AddTasks(url, self.queue)),
                ..self
            },
            None => self.cleared(),
        }
    }

    /// All pending events are handed over if there is one that does not track time.
    pub open spec fn flushed(self) -> SenderView {
        if all_tracking(self.queue) {
            self
        } else {
            self.force_flushed()
        }
    }

    /// A new event is pending. What is too old to be taken back is handed over before. Tracking
    /// from about now takes the place of tracking that is pending.
    pub open spec fn with_event(self, event: EventView, clock: u64) -> SenderView {
        let current = if any_stale(self.queue, clock) {
            self.force_flushed()
        } else {
            self
        };
        let queue = if is_tracking(event) && event.created_at > before(clock, UNDO_DELAY)
            && event.created_at < now_of(clock) {
            without_tracking(current.queue)
        } else {
            current.queue
        };
        SenderView { queue: queue.push(event), ..current }
    }
}

impl EventSender {
    /// The address of the relay.
    pub closed spec fn address(&self) -> Option<Seq<char>> {
        owned_text(self.url)
    }

    /// The key that events are signed with.
    pub closed spec fn key(&self) -> PublicKey {
        self.signer.key()
    }

    /// The events that are not handed over yet.
    pub closed spec fn pending(&self) -> Seq<Event> {
        self.queue@
    }

    /// The messages to hand over.
    pub closed spec fn messages(&self) -> Seq<MostrMessage> {
        self.outbox@
    }

    /// Whether all that is pending or to be handed over is signed.
    #[verifier::type_invariant]
    pub open spec fn signed(self) -> bool {
        all_signed(self.pending()) && messages_signed(self.messages())
    }

    /// Whether all that was pending is handed over as it was, with its signatures, where there is
    /// a relay to take it.
    pub open spec fn has_handed_over(self, before: EventSender) -> bool {
        &&& self.pending().len() == 0
        &&& match before.address() {
            Some(_) => {
                &&& self.messages().len() == before.messages().len() + 1
                &&& self.messages().drop_last() == before.messages()
                &&& self.messages().last() matches MostrMessage::AddTasks(_, events)
                &&& events@ == before.pending()
            },
            None => self.messages() == before.messages(),
        }
    }

    pub fn from(url: Option<String>, signer: Signer) -> (r: EventSender)
        ensures
            r@ == (SenderView {
                url: owned_text(url),
                key: signer.key(),
                queue: Seq::empty(),
                outbox: Seq::empty(),
            }),
            r.signed(),
    {
        broadcast use group_views;

        EventSender { url, signer, queue: Vec::new(), outbox: Vec::new() }
    }

    /// Signs an event and holds it back, when the clock shows the given time.
    pub fn submit_at(&mut self, event_builder: EventBuilder, clock: u64) -> (r: Event)
        ensures
            r@ == event_builder@.signed(old(self)@.key, clock),
            r.signed(),
            final(self)@ == old(self)@.with_event(r@, clock),
            final(self).pending().last().sig@ == r.sig@,
            final(self).signed(),
    {
        broadcast use group_views;

        let min: u64 = clock.saturating_sub(UNDO_DELAY);
        // Always flush if oldest event older than a minute or newer than now
        if self.has_stale(clock) {
            self.force_flush();
        }
        let event: Event = self.signer.sign(event_builder, clock);
        if event.kind == TRACKING_KIND && event.created_at > min && event.created_at < now_at(
            clock,
        ) {
            // Do not send redundant movements
            self.drop_tracking();
        }
        let kept: Event = event.clone();
        assert(kept@.id == event@.id && kept@.pubkey == event@.pubkey);
        let mut queue: Vec<Event> = self.clear();
        queue.push(kept);
        self.queue = queue;
        event
    }

    /// Signs an event and holds it back.
    pub fn submit(&mut self, event_builder: EventBuilder) -> (r: Event)
        ensures
            exists|clock: u64|
                r@ == #[trigger] event_builder@.signed(old(self)@.key, clock) && final(self)@
                    == old(self)@.with_event(r@, clock),
            r.signed(),
            final(self).pending().last().sig@ == r.sig@,
            final(self).signed(),
    {
        let now: u64 = clock();
        let r: Event = self.submit_at(event_builder, now);
        assert(r@ == event_builder@.signed(old(self)@.key, now));
        r
    }

    fn has_stale(&self, clock: u64) -> (r: bool)
        ensures
            r == any_stale(self@.queue, clock),
    {
        let min: u64 = clock.saturating_sub(UNDO_DELAY);
        let mut i: usize = 0;
        while i < self.queue.len()
            invariant
                0 <= i <= self.queue.len(),
                min == before(clock, UNDO_DELAY),
                forall|k: int| 0 <= k < i ==> !is_stale(#[trigger] self@.queue[k], clock),
            decreases self.queue.len() - i,
        {
            if self.queue[i].created_at < min || self.queue[i].created_at > clock {
                assert(is_stale(self@.queue[i as int], clock));
                return true;
            }
            i += 1;
        }
        false
    }

    fn drop_tracking(&mut self)
        ensures
            final(self)@ == (SenderView {
                queue: without_tracking(old(self)@.queue),
                ..old(self)@
            }),
    {
        broadcast use group_views;

        proof {
            use_type_invariant(&*self);
        }
        let mut kept: Vec<Event> = Vec::new();
        let ghost all = views(self.queue@);
        let mut i: usize = 0;
        assert(all.take(0) =~= Seq::<EventView>::empty());
        while i < self.queue.len()
            invariant
                0 <= i <= self.queue.len(),
                *self == *old(self),
                all == views(self.queue@),
                views(kept@) == without_tracking(all.take(i as int)),
                self.signed(),
                all_signed(kept@),
            decreases self.queue.len() - i,
        {
            assert(all.take(i + 1).drop_last() =~= all.take(i as int));
            assert(all.take(i + 1).last() == self.queue@[i as int]@);
            if self.queue[i].kind != TRACKING_KIND {
                kept.push(self.queue[i].clone());
            }
            i += 1;
        }
        assert(all.take(self.queue@.len() as int) =~= all);
        self.queue = kept;
    }

    /// Sends all pending events
    pub fn force_flush(&mut self)
        ensures
            final(self)@ == old(self)@.force_flushed(),
            final(self).has_handed_over(*old(self)),
            final(self).signed(),
    {
        broadcast use group_views;

        proof {
            use_type_invariant(&*self);
        }
        let values: Vec<Event> = self.clear();
        match &self.url {
            Some(url) => {
                let message: MostrMessage = MostrMessage::AddTasks(url.clone(), values);
                let mut outbox: Vec<MostrMessage> = self.take_messages();
                outbox.push(message);
                self.outbox = outbox;
            },
            None => {},
        }
        proof {
            use_type_invariant(&*self);
        }
        assert(self@.queue.len() == 0 && self@.url == old(self)@.url);
        assert(self.address() is Some ==> self.messages().drop_last() =~= old(self).messages());
        assert(self@ =~= old(self)@.force_flushed());
    }

    /// Sends all pending events if there is a non-tracking event
    pub fn flush(&mut self)
        ensures
            final(self)@ == old(self)@.flushed(),
            if all_tracking(old(self)@.queue) {
                *final(self) == *old(self)
            } else {
                final(self).has_handed_over(*old(self))
            },
            final(self).signed(),
    {
        proof {
            use_type_invariant(&*self);
        }
        let mut i: usize = 0;
        while i < self.queue.len()
            invariant
                0 <= i <= self.queue.len(),
                *self == *old(self),
                forall|k: int| 0 <= k < i ==> is_tracking(#[trigger] self@.queue[k]),
            decreases self.queue.len() - i,
        {
            if self.queue[i].kind != TRACKING_KIND {
                assert(!is_tracking(self@.queue[i as int]));
                self.force_flush();
                return ;
            }
            i += 1;
        }
    }

    /// Takes all pending events out.
    pub fn clear(&mut self) -> (r: Vec<Event>)
        ensures
            views(r@) == old(self)@.queue,
            r@ == old(self).pending(),
            all_signed(r@),
            final(self)@ == old(self)@.cleared(),
            final(self).messages() == old(self).messages(),
            final(self).signed(),
    {
        broadcast use group_views;

        proof {
            use_type_invariant(&*self);
        }
        let mut taken: Vec<Event> = Vec::new();
        std::mem::swap(&mut taken, &mut self.queue);
        taken
    }

    pub fn pubkey(&self) -> (r: PublicKey)
        ensures
            r == self@.key,
    {
        self.signer.pubkey()
    }

    pub fn url(&self) -> (r: Option<&String>)
        ensures
            match r {
                Some(url) => self@.url == Some(url@),
                None => self@.url is None,
            },
    {
        self.url.as_ref()
    }

    pub fn signer(&self) -> (r: &Signer)
        ensures
            r.key() == self@.key,
    {
        &self.signer
    }

    /// The events that are not handed over yet.
    pub fn queue(&self) -> (r: &Vec<Event>)
        ensures
            r@ == self.pending(),
            all_signed(r@),
    {
        proof {
            use_type_invariant(self);
        }
        &self.queue
    }

    /// Takes out the messages to hand over.
    pub fn take_messages(&mut self) -> (r: Vec<MostrMessage>)
        ensures
            views(r@) == old(self)@.outbox,
            r@ == old(self).messages(),
            messages_signed(r@),
            final(self)@ == (SenderView { outbox: Seq::empty(), ..old(self)@ }),
            final(self).pending() == old(self).pending(),
            final(self).signed(),
    {
        broadcast use group_views;

        proof {
            use_type_invariant(&*self);
        }
        let mut taken: Vec<MostrMessage> = Vec::new();
        std::mem::swap(&mut taken, &mut self.outbox);
        taken
    }
}

// ---------------------------------------------------------------------------
// Laws

/// A new event is always pending: it can be taken back.
pub proof fn submitted_event_is_pending(sender: SenderView, event: EventView, clock: u64)
    ensures
        sender.with_event(event, clock).queue.len() > 0,
        sender.with_event(event, clock).queue.last() == event,
{
}

pub proof fn lemma_without_tracking(events: Seq<EventView>, e: EventView)
    ensures
        without_tracking(events).contains(e) <==> events.contains(e) && !is_tracking(e),
    decreases events.len(),
{
    if events.len() > 0 {
        let rest = events.drop_last();
        lemma_without_tracking(rest, e);
        assert(events.contains(e) <==> rest.contains(e) || events.last() == e) by {
            if events.contains(e) {
                let i = choose|i: int| 0 <= i < events.len() && events[i] == e;
                if i < rest.len() {
                    assert(rest[i] == e);
                }
            }
            if rest.contains(e) {
                let i = choose|i: int| 0 <= i < rest.len() && rest[i] == e;
                assert(events[i] == e);
            }
            if events.last() == e {
                assert(events[events.len() - 1] == e);
            }
        }
        let w = without_tracking(events);
        let v = without_tracking(rest);
        if !is_tracking(events.last()) {
            assert(w == v.push(events.last()));
            if v.contains(e) {
                let i = choose|i: int| 0 <= i < v.len() && v[i] == e;
                assert(w[i] == e);
            }
            if events.last() == e {
                assert(w[v.len() as int] == e);
            }
            if w.contains(e) {
                let i = choose|i: int| 0 <= i < w.len() && w[i] == e;
                if i < v.len() {
                    assert(v[i] == e);
                }
            }
        }
    }
}

/// No event but tracking that was replaced gets lost: an event that was pending and tracks no
/// time is pending still, or handed over to the relay.
pub proof fn pending_events_are_not_lost(
    sender: SenderView,
    event: EventView,
    clock: u64,
    old_event: EventView,
)
    requires
        sender.url is Some,
        sender.queue.contains(old_event),
        !is_tracking(old_event),
    ensures
        ({
            let after = sender.with_event(event, clock);
            ||| after.queue.contains(old_event)
            ||| after.outbox == sender.outbox.push(
                MessageView::AddTasks(sender.url->0, sender.queue),
            )
        }),
{
    let after = sender.with_event(event, clock);
    if !any_stale(sender.queue, clock) {
        lemma_without_tracking(sender.queue, old_event);
        let q = after.queue.drop_last();
        assert(q =~= sender.queue || q =~= without_tracking(sender.queue));
        let i = choose|i: int| 0 <= i < q.len() && q[i] == old_event;
        assert(after.queue[i] == old_event);
    }
}

/// What is handed over is what was pending, in order; nothing stays pending then.
pub proof fn flushing_hands_over_the_queue(sender: SenderView)
    requires
        sender.url is Some,
    ensures
        sender.force_flushed().queue.len() == 0,
        sender.force_flushed().outbox == sender.outbox.push(
            MessageView::AddTasks(sender.url->0, sender.queue),
        ),
        sender.flushed() == sender || sender.flushed() == sender.force_flushed(),
        !all_tracking(sender.queue) ==> sender.flushed() == sender.force_flushed(),
{
}

// ---------------------------------------------------------------------------
// Failures

/// What stands behind the last double slash.
pub open spec fn host_part(url: Seq<char>) -> Seq<char>
    decreases url.len(),
{
    match parted(url, "//"@) {
        Some((_, rest)) => if rest.len() < url.len() {
            host_part(rest)
        } else {
            url
        },
        None => url,
    }
}

/// The directory for the events that a relay did not take.
pub open spec fn failed_events_path(url: Seq<char>) -> Seq<char> {
    "failed-events-"@ + host_part(url) + "/"@
}

pub fn failed_events_dir(url: &str) -> (r: String)
    ensures
        r@ == failed_events_path(url@),
{
    proof {
        reveal_strlit("//");
    }
    let mut host: String = url.to_string();
    let mut next: Option<(String, String)> = split_once(host.as_str(), "//");
    while next.is_some()
        invariant
            "//"@.len() == 2,
            host_part(url@) == host_part(host@),
            match next {
                Some((left, right)) => parted(host@, "//"@) == Some((left@, right@)),
                None => parted(host@, "//"@) is None,
            },
        decreases host@.len(),
    {
        match next {
            Some((_, right)) => {
                proof {
                    lemma_parted_is_shorter(host@, "//"@);
                }
                host = right;
                next = split_once(host.as_str(), "//");
            },
            None => {
                next = None;
            },
        }
    }
    let mut r: String = "failed-events-".to_string();
    r.append(host.as_str());
    r.append("/");
    r
}

} // verus!
