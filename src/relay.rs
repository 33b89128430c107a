//! The message relay: the local subscribers' inboxes and the decisions taken
//! when a message arrives from the gossip transport or is published locally.
//!
//! The transport itself stays outside: it hands received bytes to
//! [`P2PActor::receive`] and broadcasts the bytes that [`P2PActor::publish`] returns.
use vstd::prelude::*;
use crate::wire::{lemma_views_empty, MessageBody, MessageView, message_enc, message_of_bytes, message_wf, views, encode_message, decode_message, lemma_message_round_trip};

verus! {

/// One subscriber's inbox: whether it is still registered, and the messages
/// delivered to it that it has not taken yet.
pub struct Inbox {
    active: bool,
    queue: Vec<MessageBody>,
}

pub ghost struct InboxView {
    pub active: bool,
    pub queue: Seq<MessageView>,
}

impl View for Inbox {
    type V = InboxView;

    closed spec fn view(&self) -> InboxView {
        InboxView { active: self.active, queue: views(self.queue@) }
    }
}

/// The relay's state. A subscriber's handle is its position in `inboxes`;
/// handles are never reused.
pub struct P2PActor {
    inboxes: Vec<Inbox>,
    joined: bool,
}

pub ghost struct RelayView {
    pub inboxes: Seq<InboxView>,
    /// Whether the topic join has completed, so that messages can be published.
    pub joined: bool,
}

impl View for P2PActor {
    type V = RelayView;

    closed spec fn view(&self) -> RelayView {
        RelayView { inboxes: Seq::new(self.inboxes@.len(), |i: int| self.inboxes@[i]@), joined: self.joined }
    }
}

/// The state after `m` is delivered: every registered subscriber's inbox
/// gains one copy of `m` at its end; the others stay as they were.
pub open spec fn deliver_spec(v: RelayView, m: MessageView) -> RelayView {
    RelayView {
        inboxes: Seq::new(
            v.inboxes.len(),
            |i: int|
                if v.inboxes[i].active {
                    InboxView { active: true, queue: v.inboxes[i].queue.push(m) }
                } else {
                    v.inboxes[i]
                },
        ),
        joined: v.joined,
    }
}

/// The state after a new subscriber registers: one more, empty inbox.
pub open spec fn subscribe_spec(v: RelayView) -> RelayView {
    RelayView {
        inboxes: v.inboxes.push(InboxView { active: true, queue: Seq::empty() }),
        joined: v.joined,
    }
}

/// The state after the bytes `b` arrive from the transport: the message they
/// encode is delivered; bytes that encode no message are dropped.
pub open spec fn after_receive(v: RelayView, b: Seq<u8>) -> RelayView {
    match message_of_bytes(b) {
        Some(m) => deliver_spec(v, m),
        None => v,
    }
}

/// Each subscriber registered before a delivery receives exactly one copy of
/// the message, at the end of its inbox; a subscriber registered after it
/// receives nothing of it.
pub proof fn lemma_fan_out(v: RelayView, m: MessageView)
    ensures
        ({
            let w = subscribe_spec(deliver_spec(v, m));
            &&& w.inboxes.len() == v.inboxes.len() + 1
            &&& forall|i: int|
                0 <= i < v.inboxes.len() && v.inboxes[i].active ==> #[trigger] w.inboxes[i].queue
                    == v.inboxes[i].queue.push(m)
            &&& w.inboxes[v.inboxes.len() as int].queue == Seq::<MessageView>::empty()
        }),
{
}

/// Bytes that encode no message leave the relay as it was, so the next
/// well-formed message is delivered as if they had never come.
pub proof fn lemma_corrupt_message_dropped(v: RelayView, bad: Seq<u8>, m: MessageView)
    requires
        message_of_bytes(bad) is None,
        message_wf(m),
    ensures
        after_receive(v, bad) == v,
        after_receive(after_receive(v, bad), message_enc(m)) == deliver_spec(v, m),
{
    lemma_message_round_trip(m, Seq::empty());
    assert(message_enc(m) + Seq::<u8>::empty() =~= message_enc(m));
}

/// What one peer publishes, another peer's relay delivers unchanged: each of
/// its registered subscribers receives the message with the same sender and
/// text.
pub proof fn lemma_published_message_delivered(receiver: RelayView, m: MessageView)
    requires
        message_wf(m),
    ensures
        message_of_bytes(message_enc(m)) == Some(m),
        after_receive(receiver, message_enc(m)) == deliver_spec(receiver, m),
{
    lemma_message_round_trip(m, Seq::empty());
    assert(message_enc(m) + Seq::<u8>::empty() =~= message_enc(m));
}

impl P2PActor {
    /// A relay with no subscribers that has not joined its topic yet.
    pub fn new() -> (r: P2PActor)
        ensures
            r@.inboxes.len() == 0,
            !r@.joined,
    {
        P2PActor { inboxes: Vec::new(), joined: false }
    }

    /// Whether messages can be published.
    pub fn is_joined(&self) -> (r: bool)
        ensures
            r == self@.joined,
    {
        self.joined
    }

    /// Records that the topic join has completed and a publish handle exists.
    pub fn mark_joined(&mut self)
        ensures
            final(self)@ == (RelayView { joined: true, ..old(self)@ }),
    {
        self.joined = true;
        assert(final(self)@.inboxes =~= old(self)@.inboxes);
    }

    /// The number of handles given out so far.
    pub fn subscriber_count(&self) -> (r: usize)
        ensures
            r == self@.inboxes.len(),
    {
        self.inboxes.len()
    }

    /// Registers a new subscriber and returns its handle.
    pub fn subscribe(&mut self) -> (r: usize)
        ensures
            final(self)@ == subscribe_spec(old(self)@),
            r == old(self)@.inboxes.len(),
    {
        let r = self.inboxes.len();
        self.inboxes.push(Inbox { active: true, queue: Vec::new() });
        proof { lemma_views_empty(); }
        assert(final(self)@.inboxes =~= subscribe_spec(old(self)@).inboxes);
        r
    }

    /// Removes the subscriber with handle `id`; its undelivered messages are
    /// dropped. An unknown handle changes nothing.
    pub fn unsubscribe(&mut self, id: usize)
        ensures
            id < old(self)@.inboxes.len() ==> final(self)@ == (RelayView {
                inboxes: old(self)@.inboxes.update(
                    id as int,
                    InboxView { active: false, queue: Seq::empty() },
                ),
                joined: old(self)@.joined,
            }),
            id >= old(self)@.inboxes.len() ==> final(self)@ == old(self)@,
    {
        if id < self.inboxes.len() {
            self.inboxes.set(id, Inbox { active: false, queue: Vec::new() });
            proof { lemma_views_empty(); }
            assert(final(self)@.inboxes =~= old(self)@.inboxes.update(
                id as int,
                InboxView { active: false, queue: Seq::empty() },
            ));
        } else {
            assert(final(self)@.inboxes =~= old(self)@.inboxes);
        }
    }

    /// Pushes a copy of `m` into the inbox of every registered subscriber.
    pub fn deliver(&mut self, m: &MessageBody)
        ensures
            final(self)@ == deliver_spec(old(self)@, m@),
    {
        let ghost start = self@;
        let mut i: usize = 0;
        while i < self.inboxes.len()
            invariant
                i <= self.inboxes@.len(),
                self.inboxes@.len() == start.inboxes.len(),
                self.joined == start.joined,
                forall|j: int| 0 <= j < i ==> #[trigger] self@.inboxes[j] == deliver_spec(start, m@).inboxes[j],
                forall|j: int| i <= j < self.inboxes@.len() ==> #[trigger] self@.inboxes[j] == start.inboxes[j],
            decreases self.inboxes@.len() - i,
        {
            assert(self@.inboxes[i as int] == start.inboxes[i as int]);
            let ghost prev = self@;
            if self.inboxes[i].active {
                let ghost before = self.inboxes@[i as int].queue@;
                self.inboxes[i].queue.push(m.duplicate());
                assert(views(self.inboxes@[i as int].queue@) =~= views(before).push(m@));
            }
            assert(self@.inboxes[i as int] == deliver_spec(start, m@).inboxes[i as int]);
            assert(forall|j: int|
                0 <= j < prev.inboxes.len() && j != i ==> #[trigger] self@.inboxes[j] == prev.inboxes[j]);
            i = i + 1;
        }
        assert(self@.inboxes =~= deliver_spec(start, m@).inboxes);
    }

    /// Handles bytes received from the gossip transport: delivers the message
    /// they encode, or drops them if they encode none. Returns whether a
    /// message was delivered.
    pub fn receive(&mut self, bytes: &[u8]) -> (r: bool)
        ensures
            final(self)@ == after_receive(old(self)@, bytes@),
            r == (message_of_bytes(bytes@) is Some),
    {
        match decode_message(bytes) {
            Ok(m) => {
                self.deliver(&m);
                true
            },
            Err(_) => false,
        }
    }

    /// The bytes to broadcast for a locally written message. Publishing
    /// before the topic join has completed is a sequencing error of the
    /// caller.
    pub fn publish(&self, m: &MessageBody) -> (r: Vec<u8>)
        requires
            self@.joined,
        ensures
            r@ == message_enc(m@),
            message_wf(m@) ==> message_of_bytes(r@) == Some(m@),
    {
        let r = encode_message(m);
        proof {
            if message_wf(m@) {
                lemma_message_round_trip(m@, Seq::empty());
                assert(message_enc(m@) + Seq::<u8>::empty() =~= message_enc(m@));
            }
        }
        r
    }

    /// Takes the messages waiting for subscriber `id`, oldest first, and
    /// empties its inbox. An unknown handle gets none.
    pub fn take_messages(&mut self, id: usize) -> (r: Vec<MessageBody>)
        ensures
            id < old(self)@.inboxes.len() ==> views(r@) == old(self)@.inboxes[id as int].queue
                && final(self)@ == (RelayView {
                inboxes: old(self)@.inboxes.update(
                    id as int,
                    InboxView { active: old(self)@.inboxes[id as int].active, queue: Seq::empty() },
                ),
                joined: old(self)@.joined,
            }),
            id >= old(self)@.inboxes.len() ==> r@.len() == 0 && final(self)@ == old(self)@,
    {
        if id < self.inboxes.len() {
            let active = self.inboxes[id].active;
            let mut inbox = Inbox { active, queue: Vec::new() };
            std::mem::swap(&mut inbox, &mut self.inboxes[id]);
            proof { lemma_views_empty(); }
            assert(self@.inboxes =~= old(self)@.inboxes.update(
                id as int,
                InboxView { active: old(self)@.inboxes[id as int].active, queue: Seq::empty() },
            ));
            inbox.queue
        } else {
            Vec::new()
        }
    }
}

/// The console's subscriber: it holds its handle on the relay and takes the
/// messages delivered to it, for the console to print.
pub struct LengthPrintActor {
    handle: usize,
}

impl LengthPrintActor {
    /// Registers a new subscriber on `relay`.
    pub fn register(relay: &mut P2PActor) -> (r: LengthPrintActor)
        ensures
            final(relay)@ == subscribe_spec(old(relay)@),
            r.subscriber_id() == old(relay)@.inboxes.len(),
    {
        LengthPrintActor { handle: relay.subscribe() }
    }

    pub closed spec fn subscriber_id(&self) -> usize {
        self.handle
    }

    /// Takes the messages delivered to this subscriber, oldest first.
    pub fn take_pending(&self, relay: &mut P2PActor) -> (r: Vec<MessageBody>)
        ensures
            self.subscriber_id() < old(relay)@.inboxes.len() ==> views(r@) == old(relay)@.inboxes[self.subscriber_id() as int].queue,
            self.subscriber_id() < old(relay)@.inboxes.len() ==> final(relay)@ == (RelayView {
                inboxes: old(relay)@.inboxes.update(
                    self.subscriber_id() as int,
                    InboxView {
                        active: old(relay)@.inboxes[self.subscriber_id() as int].active,
                        queue: Seq::empty(),
                    },
                ),
                joined: old(relay)@.joined,
            }),
            self.subscriber_id() >= old(relay)@.inboxes.len() ==> r@.len() == 0 && final(relay)@ == old(relay)@,
    {
        relay.take_messages(self.handle)
    }
}

} // verus!
