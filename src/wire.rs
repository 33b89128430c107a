//! The fixed binary layout of chat messages and message histories.
//!
//! A peer identifier is 32 raw bytes; an optional one is a tag byte (0 absent,
//! 1 present) followed by the identifier; a string is its UTF-8 byte count as a
//! varint followed by the bytes; a message is its optional sender followed by
//! its text; a history is the message count as a varint followed by the
//! messages in order.
use vstd::prelude::*;
use vstd::string::StringSliceAdditionalSpecFns;
use vstd::utf8::{decode_utf8, encode_utf8, valid_utf8, encode_utf8_valid_utf8, encode_utf8_decode_utf8};
use crate::varint::{varint_enc, varint_parse, lemma_varint_round_trip, encode_varint, decode_varint};

verus! {

/// Number of bytes in a peer or topic identifier.
pub const KEY_LEN: usize = 32;

/// Bytes that the codec cannot read as the value asked for: they end early,
/// hold a tag or text that is not valid, or go on after the value.
#[derive(Debug, Clone, Copy, PartialEq, Eq)]
pub struct DecodeError;

/// A chat message: the identifier its sender claims, if any, and its text.
#[derive(Debug, Clone)]
pub struct MessageBody {
    pub from: Option<[u8; 32]>,
    pub text: String,
}

impl MessageBody {
    /// A copy of this message.
    pub fn duplicate(&self) -> (r: MessageBody)
        ensures
            r@ == self@,
    {
        MessageBody { from: self.from, text: self.text.clone() }
    }
}

/// What a message holds, as mathematical values.
pub ghost struct MessageView {
    pub from: Option<Seq<u8>>,
    pub text: Seq<char>,
}

pub open spec fn key_option_view(k: Option<[u8; 32]>) -> Option<Seq<u8>> {
    match k {
        Some(a) => Some(a@),
        None => None,
    }
}

impl View for MessageBody {
    type V = MessageView;

    open spec fn view(&self) -> MessageView {
        MessageView { from: key_option_view(self.from), text: self.text@ }
    }
}

/// The views of a run of messages.
pub open spec fn views(ms: Seq<MessageBody>) -> Seq<MessageView> {
    Seq::new(ms.len(), |i: int| ms[i]@)
}

pub proof fn lemma_views_empty()
    ensures
        views(Seq::<MessageBody>::empty()) == Seq::<MessageView>::empty(),
{
    assert(views(Seq::<MessageBody>::empty()) =~= Seq::<MessageView>::empty());
}

/// A message that has an encoding: an identifier of the right size and a text
/// whose byte count fits the length prefix.
pub open spec fn message_wf(m: MessageView) -> bool {
    &&& (m.from matches Some(k) ==> k.len() == KEY_LEN)
    &&& encode_utf8(m.text).len() <= u64::MAX
}

pub open spec fn str_enc(t: Seq<char>) -> Seq<u8> {
    varint_enc(encode_utf8(t).len() as u64) + encode_utf8(t)
}

pub open spec fn str_parse(s: Seq<u8>) -> Option<(Seq<char>, nat)> {
    match varint_parse(s) {
        Some((n, k)) => if k + n <= s.len() && valid_utf8(s.subrange(k as int, k + n)) {
            Some((decode_utf8(s.subrange(k as int, k + n)), (k + n) as nat))
        } else {
            None
        },
        None => None,
    }
}

pub open spec fn key_parse(s: Seq<u8>) -> Option<(Seq<u8>, nat)> {
    if s.len() >= KEY_LEN {
        Some((s.take(KEY_LEN as int), KEY_LEN as nat))
    } else {
        None
    }
}

pub open spec fn opt_key_enc(k: Option<Seq<u8>>) -> Seq<u8> {
    match k {
        None => seq![0u8],
        Some(b) => seq![1u8] + b,
    }
}

pub open spec fn opt_key_parse(s: Seq<u8>) -> Option<(Option<Seq<u8>>, nat)> {
    if s.len() == 0 {
        None
    } else if s[0] == 0 {
        Some((None, 1))
    } else if s[0] == 1 {
        match key_parse(s.drop_first()) {
            Some((k, n)) => Some((Some(k), n + 1)),
            None => None,
        }
    } else {
        None
    }
}

pub open spec fn message_enc(m: MessageView) -> Seq<u8> {
    opt_key_enc(m.from) + str_enc(m.text)
}

pub open spec fn message_parse(s: Seq<u8>) -> Option<(MessageView, nat)> {
    match opt_key_parse(s) {
        Some((f, a)) => match str_parse(s.skip(a as int)) {
            Some((t, b)) => Some((MessageView { from: f, text: t }, a + b)),
            None => None,
        },
        None => None,
    }
}

/// The message that `s` encodes, with nothing after it.
pub open spec fn message_of_bytes(s: Seq<u8>) -> Option<MessageView> {
    match message_parse(s) {
        Some((m, n)) => if n == s.len() { Some(m) } else { None },
        None => None,
    }
}

pub proof fn lemma_str_round_trip(t: Seq<char>, rest: Seq<u8>)
    requires
        encode_utf8(t).len() <= u64::MAX,
    ensures
        str_parse(str_enc(t) + rest) == Some((t, str_enc(t).len())),
{
    let b = encode_utf8(t);
    let v = varint_enc(b.len() as u64);
    lemma_varint_round_trip(b.len() as u64, b + rest);
    assert(str_enc(t) + rest =~= v + (b + rest));
    assert((str_enc(t) + rest).subrange(v.len() as int, (v.len() + b.len()) as int) =~= b);
    encode_utf8_valid_utf8(t);
    encode_utf8_decode_utf8(t);
}

pub proof fn lemma_message_round_trip(m: MessageView, rest: Seq<u8>)
    requires
        message_wf(m),
    ensures
        message_parse(message_enc(m) + rest) == Some((m, message_enc(m).len())),
{
    let s = message_enc(m) + rest;
    let o = opt_key_enc(m.from);
    lemma_str_round_trip(m.text, rest);
    if let Some(k) = m.from {
        assert(s.drop_first().take(KEY_LEN as int) =~= k);
    }
    assert(s.skip(o.len() as int) =~= str_enc(m.text) + rest);
}

/// Appends `b` to `out`.
pub fn push_bytes(out: &mut Vec<u8>, b: &[u8])
    ensures
        final(out)@ == old(out)@ + b@,
{
    let ghost start = out@;
    let mut i: usize = 0;
    while i < b.len()
        invariant
            i <= b@.len(),
            out@ == start + b@.take(i as int),
        decreases b@.len() - i,
    {
        out.push(b[i]);
        i = i + 1;
        assert(b@.take(i as int) =~= b@.take(i - 1) + seq![b@[i - 1]]);
    }
    assert(b@.take(i as int) =~= b@);
}

/// Appends the encoding of `t` to `out`.
pub fn encode_str_into(out: &mut Vec<u8>, t: &String)
    ensures
        final(out)@ == old(out)@ + str_enc(t@),
{
    let b = t.as_str().as_bytes();
    let len = encode_varint(b.len() as u64);
    push_bytes(out, len.as_slice());
    push_bytes(out, b);
    assert(final(out)@ =~= old(out)@ + str_enc(t@));
}

/// Appends the encoding of an optional identifier to `out`.
pub fn encode_opt_key_into(out: &mut Vec<u8>, k: &Option<[u8; 32]>)
    ensures
        final(out)@ == old(out)@ + opt_key_enc(key_option_view(*k)),
{
    match k {
        None => {
            out.push(0u8);
        },
        Some(a) => {
            out.push(1u8);
            push_bytes(out, a.as_slice());
        },
    }
    assert(final(out)@ =~= old(out)@ + opt_key_enc(key_option_view(*k)));
}

/// Appends the encoding of `m` to `out`.
pub fn encode_message_into(out: &mut Vec<u8>, m: &MessageBody)
    ensures
        final(out)@ == old(out)@ + message_enc(m@),
{
    encode_opt_key_into(out, &m.from);
    encode_str_into(out, &m.text);
    assert(final(out)@ =~= old(out)@ + message_enc(m@));
}

/// The encoding of `m`.
pub fn encode_message(m: &MessageBody) -> (r: Vec<u8>)
    ensures
        r@ == message_enc(m@),
{
    let mut out: Vec<u8> = Vec::new();
    encode_message_into(&mut out, m);
    assert(out@ =~= message_enc(m@));
    out
}

/// Relies on String::from_utf8: it accepts exactly the valid UTF-8 byte
/// sequences and then holds the characters they encode.
#[verifier::external_body]
fn utf8_string(b: Vec<u8>) -> (r: Option<String>)
    ensures
        r is Some <==> valid_utf8(b@),
        r matches Some(t) ==> t@ == decode_utf8(b@),
{
    String::from_utf8(b).ok()
}

/// Copies the bytes of `b` from `lo` up to `hi`.
pub fn copy_range(b: &[u8], lo: usize, hi: usize) -> (r: Vec<u8>)
    requires
        lo <= hi <= b@.len(),
    ensures
        r@ == b@.subrange(lo as int, hi as int),
{
    let mut out: Vec<u8> = Vec::new();
    let mut i: usize = lo;
    while i < hi
        invariant
            lo <= i <= hi <= b@.len(),
            out@ == b@.subrange(lo as int, i as int),
        decreases hi - i,
    {
        out.push(b[i]);
        i = i + 1;
        assert(out@ =~= b@.subrange(lo as int, i as int));
    }
    out
}

/// Reads a string from the bytes of `b` after `pos`.
pub fn decode_str(b: &[u8], pos: usize) -> (r: Option<(String, usize)>)
    requires
        pos <= b@.len(),
    ensures
        match str_parse(b@.skip(pos as int)) {
            Some((t, k)) => r matches Some((x, p)) && x@ == t && p == pos + k,
            None => r is None,
        },
        r matches Some((_, p)) ==> p <= b@.len(),
{
    let ghost s = b@.skip(pos as int);
    match decode_varint(b, pos) {
        None => None,
        Some((n, k)) => {
            assert(k <= s.len());
            assert(pos + k <= b.len());
            let start = pos + k;
            if (n as u128) > ((b.len() - start) as u128) {
                return None;
            }
            let end = start + n as usize;
            let bytes = copy_range(b, start, end);
            assert(bytes@ =~= s.subrange(k as int, k + n));
            match utf8_string(bytes) {
                None => None,
                Some(t) => Some((t, end)),
            }
        },
    }
}

/// Reads a 32-byte identifier from `b` at `pos`.
pub fn decode_key(b: &[u8], pos: usize) -> (r: Option<([u8; 32], usize)>)
    requires
        pos <= b@.len(),
    ensures
        match key_parse(b@.skip(pos as int)) {
            Some((k, n)) => r matches Some((a, p)) && a@ == k && p == pos + n,
            None => r is None,
        },
{
    if b.len() - pos < KEY_LEN {
        return None;
    }
    let mut a: [u8; 32] = [0u8; 32];
    let mut i: usize = 0;
    while i < KEY_LEN
        invariant
            i <= KEY_LEN,
            pos + KEY_LEN <= b.len(),
            forall|j: int| 0 <= j < i ==> a@[j] == b@[pos + j],
        decreases KEY_LEN - i,
    {
        a[i] = b[pos + i];
        i = i + 1;
    }
    assert(a@ =~= b@.skip(pos as int).take(KEY_LEN as int));
    Some((a, pos + KEY_LEN))
}

/// Reads an optional identifier from `b` at `pos`.
pub fn decode_opt_key(b: &[u8], pos: usize) -> (r: Option<(Option<[u8; 32]>, usize)>)
    requires
        pos <= b@.len(),
    ensures
        match opt_key_parse(b@.skip(pos as int)) {
            Some((k, n)) => r matches Some((a, p)) && key_option_view(a) == k && p == pos + n,
            None => r is None,
        },
{
    let ghost s = b@.skip(pos as int);
    if pos >= b.len() {
        return None;
    }
    let tag = b[pos];
    if tag == 0 {
        Some((None, pos + 1))
    } else if tag == 1 {
        assert(s.drop_first() =~= b@.skip(pos + 1));
        match decode_key(b, pos + 1) {
            Some((a, p)) => Some((Some(a), p)),
            None => None,
        }
    } else {
        None
    }
}

/// Reads a message from `b` at `pos`.
pub fn decode_message_at(b: &[u8], pos: usize) -> (r: Option<(MessageBody, usize)>)
    requires
        pos <= b@.len(),
    ensures
        match message_parse(b@.skip(pos as int)) {
            Some((m, n)) => r matches Some((x, p)) && x@ == m && p == pos + n,
            None => r is None,
        },
{
    let ghost s = b@.skip(pos as int);
    match decode_opt_key(b, pos) {
        None => None,
        Some((from, p)) => {
            assert(s.skip(p - pos) =~= b@.skip(p as int));
            match decode_str(b, p) {
                None => None,
                Some((text, q)) => Some((MessageBody { from, text }, q)),
            }
        },
    }
}

/// Reads a message that fills `b` exactly.
pub fn decode_message(b: &[u8]) -> (r: Result<MessageBody, DecodeError>)
    ensures
        match message_of_bytes(b@) {
            Some(m) => r matches Ok(x) && x@ == m,
            None => r is Err,
        },
{
    assert(b@.skip(0) =~= b@);
    match decode_message_at(b, 0) {
        Some((m, p)) => if p == b.len() {
            Ok(m)
        } else {
            Err(DecodeError)
        },
        None => Err(DecodeError),
    }
}

pub open spec fn messages_enc(ms: Seq<MessageView>) -> Seq<u8>
    decreases ms.len(),
{
    if ms.len() == 0 {
        Seq::empty()
    } else {
        messages_enc(ms.drop_last()) + message_enc(ms.last())
    }
}

/// The encoding of a history.
pub open spec fn history_enc(ms: Seq<MessageView>) -> Seq<u8> {
    varint_enc(ms.len() as u64) + messages_enc(ms)
}

/// Reads `n` messages one after another from the start of `s`.
pub open spec fn messages_parse(s: Seq<u8>, n: nat) -> Option<(Seq<MessageView>, nat)>
    decreases n,
{
    if n == 0 {
        Some((Seq::empty(), 0))
    } else {
        match messages_parse(s, (n - 1) as nat) {
            Some((ms, p)) => match message_parse(s.skip(p as int)) {
                Some((m, q)) => Some((ms.push(m), p + q)),
                None => None,
            },
            None => None,
        }
    }
}

pub open spec fn history_parse(s: Seq<u8>) -> Option<(Seq<MessageView>, nat)> {
    match varint_parse(s) {
        Some((n, k)) => match messages_parse(s.skip(k as int), n as nat) {
            Some((ms, p)) => Some((ms, k + p)),
            None => None,
        },
        None => None,
    }
}

/// The history that `s` encodes, with nothing after it.
pub open spec fn history_of_bytes(s: Seq<u8>) -> Option<Seq<MessageView>> {
    match history_parse(s) {
        Some((ms, n)) => if n == s.len() { Some(ms) } else { None },
        None => None,
    }
}

/// A history that has an encoding.
pub open spec fn history_wf(ms: Seq<MessageView>) -> bool {
    &&& ms.len() <= u64::MAX
    &&& forall|i: int| 0 <= i < ms.len() ==> message_wf(#[trigger] ms[i])
}

pub proof fn lemma_messages_parse_fails_on(s: Seq<u8>, i: nat, n: nat)
    requires
        i <= n,
        messages_parse(s, i) is None,
    ensures
        messages_parse(s, n) is None,
    decreases n - i,
{
    if i < n {
        lemma_messages_parse_fails_on(s, i, (n - 1) as nat);
    }
}

pub proof fn lemma_messages_round_trip(ms: Seq<MessageView>, rest: Seq<u8>)
    requires
        forall|i: int| 0 <= i < ms.len() ==> message_wf(#[trigger] ms[i]),
    ensures
        messages_parse(messages_enc(ms) + rest, ms.len()) == Some((ms, messages_enc(ms).len())),
    decreases ms.len(),
{
    if ms.len() > 0 {
        let init = ms.drop_last();
        let last = ms.last();
        let s = messages_enc(ms) + rest;
        assert(message_wf(ms[ms.len() - 1]));
        lemma_messages_round_trip(init, message_enc(last) + rest);
        assert(s =~= messages_enc(init) + (message_enc(last) + rest));
        assert(s.skip(messages_enc(init).len() as int) =~= message_enc(last) + rest);
        lemma_message_round_trip(last, rest);
        assert(init.push(last) =~= ms);
    }
}

/// Decoding the encoding of a history gives the same history back.
pub proof fn lemma_history_round_trip(ms: Seq<MessageView>)
    requires
        history_wf(ms),
    ensures
        history_of_bytes(history_enc(ms)) == Some(ms),
{
    let s = history_enc(ms);
    let v = varint_enc(ms.len() as u64);
    lemma_varint_round_trip(ms.len() as u64, messages_enc(ms));
    assert(s.skip(v.len() as int) =~= messages_enc(ms) + Seq::<u8>::empty());
    lemma_messages_round_trip(ms, Seq::empty());
}

/// The encoding of a history.
pub fn encode_history(ms: &[MessageBody]) -> (r: Vec<u8>)
    ensures
        r@ == history_enc(views(ms@)),
{
    let mut out = encode_varint(ms.len() as u64);
    let ghost head = out@;
    let mut i: usize = 0;
    while i < ms.len()
        invariant
            i <= ms@.len(),
            head == varint_enc(ms@.len() as u64),
            out@ == head + messages_enc(views(ms@.take(i as int))),
        decreases ms@.len() - i,
    {
        encode_message_into(&mut out, &ms[i]);
        i = i + 1;
        assert(views(ms@.take(i as int)).drop_last() =~= views(ms@.take(i - 1)));
    }
    assert(ms@.take(i as int) =~= ms@);
    out
}

/// Reads a history that fills `b` exactly.
pub fn decode_history(b: &[u8]) -> (r: Result<Vec<MessageBody>, DecodeError>)
    ensures
        match history_of_bytes(b@) {
            Some(ms) => r matches Ok(x) && views(x@) == ms,
            None => r is Err,
        },
{
    let ghost s = b@;
    assert(b@.skip(0) =~= b@);
    let (n, k) = match decode_varint(b, 0) {
        Some(x) => x,
        None => return Err(DecodeError),
    };
    let ghost t = s.skip(k as int);
    let mut out: Vec<MessageBody> = Vec::new();
    let mut pos: usize = k;
    let mut i: u64 = 0;
    while i < n
        invariant
            i <= n,
            k <= pos <= b@.len(),
            t == s.skip(k as int),
            s == b@,
            varint_parse(s) == Some((n, k as nat)),
            messages_parse(t, i as nat) == Some((views(out@), (pos - k) as nat)),
        decreases n - i,
    {
        assert(t.skip(pos - k) =~= b@.skip(pos as int));
        match decode_message_at(b, pos) {
            None => {
                proof {
                    assert(message_parse(t.skip(pos - k)) is None);
                    assert(messages_parse(t, (i + 1) as nat) is None);
                    lemma_messages_parse_fails_on(t, (i + 1) as nat, n as nat);
                    assert(varint_parse(s) == Some((n, k as nat)));
                }
                return Err(DecodeError);
            },
            Some((m, p)) => {
                out.push(m);
                pos = p;
                i = i + 1;
                assert(views(out@) =~= views(out@).drop_last().push(out@.last()@));
                assert(views(out@).drop_last() =~= views(out@.drop_last()));
            },
        }
    }
    if pos == b.len() {
        Ok(out)
    } else {
        Err(DecodeError)
    }
}

} // verus!
