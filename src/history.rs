//! The history store, an append-only log of the messages seen by this peer,
//! and the two ends of the bootstrap exchange that hands it to a newcomer.
//!
//! The responder writes [`History::encoded_snapshot`] to the stream; the
//! client feeds what it reads into a [`Download`], which refuses to hold more
//! than its ceiling, and decodes the whole when the stream ends.
use vstd::prelude::*;
use crate::wire::{
    DecodeError, MessageBody, MessageView, views, history_enc, history_of_bytes, encode_history,
    decode_history, lemma_views_empty,
};
use crate::wire::push_bytes;

verus! {

/// The most bytes a bootstrap client accepts for one history.
pub const MAX_HISTORY_BYTES: usize = 512_000;

/// The messages seen locally, in the order they were appended.
#[derive(Debug)]
pub struct History {
    messages: Vec<MessageBody>,
}

impl View for History {
    type V = Seq<MessageView>;

    closed spec fn view(&self) -> Seq<MessageView> {
        views(self.messages@)
    }
}

/// A snapshot taken before some appends is the start of the history after
/// them: appends only add at the end, and a snapshot is a copy that they do
/// not reach.
pub proof fn lemma_snapshot_is_prefix(snapshot: Seq<MessageView>, appended: Seq<MessageView>)
    ensures
        (snapshot + appended).take(snapshot.len() as int) == snapshot,
{
    assert((snapshot + appended).take(snapshot.len() as int) =~= snapshot);
}

impl History {
    /// An empty history.
    pub fn new() -> (r: History)
        ensures
            r@ == Seq::<MessageView>::empty(),
    {
        proof { lemma_views_empty(); }
        History { messages: Vec::new() }
    }

    /// Adds `m` at the end.
    pub fn append(&mut self, m: MessageBody)
        ensures
            final(self)@ == old(self)@.push(m@),
    {
        self.messages.push(m);
        assert(final(self)@ =~= old(self)@.push(m@));
    }

    /// The number of messages held.
    pub fn len(&self) -> (r: usize)
        ensures
            r == self@.len(),
    {
        self.messages.len()
    }

    /// An independent copy of every message appended so far, in order.
    pub fn snapshot(&self) -> (r: Vec<MessageBody>)
        ensures
            views(r@) == self@,
    {
        let mut out: Vec<MessageBody> = Vec::new();
        let mut i: usize = 0;
        while i < self.messages.len()
            invariant
                i <= self.messages@.len(),
                out@.len() == i,
                forall|j: int| 0 <= j < i ==> #[trigger] out@[j]@ == self.messages@[j]@,
            decreases self.messages@.len() - i,
        {
            out.push(self.messages[i].duplicate());
            i = i + 1;
        }
        assert(views(out@) =~= views(self.messages@));
        out
    }

    /// What the bootstrap responder writes: the encoding of a snapshot.
    pub fn encoded_snapshot(&self) -> (r: Vec<u8>)
        ensures
            r@ == history_enc(self@),
    {
        let snap = self.snapshot();
        encode_history(snap.as_slice())
    }
}

/// Why a bootstrap download failed.
#[derive(Debug, Clone, Copy, PartialEq, Eq)]
pub enum BootstrapError {
    /// The connection to the bootstrap peer could not be made.
    Connection,
    /// Reading the response stream failed.
    Stream,
    /// The response is longer than the ceiling.
    TooLarge,
    /// The response is not the encoding of a history.
    Decode(DecodeError),
}

/// The bytes of a bootstrap response read so far.
pub struct Download {
    received: Vec<u8>,
}

impl View for Download {
    type V = Seq<u8>;

    closed spec fn view(&self) -> Seq<u8> {
        self.received@
    }
}

/// The outcome of decoding a complete response.
pub open spec fn download_result(b: Seq<u8>) -> Result<Seq<MessageView>, BootstrapError> {
    if b.len() > MAX_HISTORY_BYTES {
        Err(BootstrapError::TooLarge)
    } else {
        match history_of_bytes(b) {
            Some(ms) => Ok(ms),
            None => Err(BootstrapError::Decode(DecodeError)),
        }
    }
}

/// Decodes a complete bootstrap response: too long a response is refused
/// whole, never cut short.
pub fn decode_download(b: &[u8]) -> (r: Result<Vec<MessageBody>, BootstrapError>)
    ensures
        match download_result(b@) {
            Ok(ms) => r matches Ok(x) && views(x@) == ms,
            Err(e) => r == Err::<Vec<MessageBody>, _>(e),
        },
{
    if b.len() > MAX_HISTORY_BYTES {
        return Err(BootstrapError::TooLarge);
    }
    match decode_history(b) {
        Ok(ms) => Ok(ms),
        Err(e) => Err(BootstrapError::Decode(e)),
    }
}

/// A history whose encoding passes the ceiling is refused whole: the client
/// reports it as too large and hands back none of its messages.
pub proof fn lemma_oversize_history_refused(ms: Seq<MessageView>)
    requires
        history_enc(ms).len() > MAX_HISTORY_BYTES,
    ensures
        download_result(history_enc(ms)) == Err::<Seq<MessageView>, _>(BootstrapError::TooLarge),
{
}

impl Download {
    /// A download that has received nothing.
    pub fn new() -> (r: Download)
        ensures
            r@ == Seq::<u8>::empty(),
    {
        Download { received: Vec::new() }
    }

    /// The number of bytes received.
    pub fn received_len(&self) -> (r: usize)
        ensures
            r == self@.len(),
    {
        self.received.len()
    }

    /// Adds a chunk read from the stream. Fails, keeping nothing of the
    /// chunk, when the total would pass the ceiling.
    pub fn push_chunk(&mut self, chunk: &[u8]) -> (r: Result<(), BootstrapError>)
        ensures
            old(self)@.len() + chunk@.len() > MAX_HISTORY_BYTES ==> r == Err::<(), _>(
                BootstrapError::TooLarge,
            ) && final(self)@ == old(self)@,
            old(self)@.len() + chunk@.len() <= MAX_HISTORY_BYTES ==> r is Ok && final(self)@
                == old(self)@ + chunk@,
    {
        if self.received.len() > MAX_HISTORY_BYTES || chunk.len() > MAX_HISTORY_BYTES
            - self.received.len() {
            return Err(BootstrapError::TooLarge);
        }
        push_bytes(&mut self.received, chunk);
        Ok(())
    }

    /// Decodes what was received once the stream has ended.
    pub fn finish(&self) -> (r: Result<Vec<MessageBody>, BootstrapError>)
        ensures
            match download_result(self@) {
                Ok(ms) => r matches Ok(x) && views(x@) == ms,
                Err(e) => r == Err::<Vec<MessageBody>, _>(e),
            },
    {
        decode_download(self.received.as_slice())
    }
}

} // verus!
