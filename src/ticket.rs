//! Rendezvous tickets: the topic of a conversation, the peers known to be in
//! it and the peer that serves its history, in a fixed binary layout and as
//! lower-case unpadded base32 text.
//!
//! Binary layout: the 32-byte topic, the number of known peers as a varint,
//! each known peer, then the bootstrap peer. A peer is its 32-byte identifier
//! followed by an optional relay URL (tag byte 0 absent, 1 present, then the
//! string).
use vstd::prelude::*;
use vstd::utf8::encode_utf8;
use crate::varint::{varint_enc, varint_parse, lemma_varint_round_trip, lemma_varint_parse_extend, encode_varint, decode_varint};
use crate::wire::{
    KEY_LEN, DecodeError, str_enc, str_parse, key_parse, lemma_str_round_trip, push_bytes,
    encode_str_into, decode_str, decode_key,
};

verus! {

/// How to reach a peer: its identifier, optionally the URL of its home relay,
/// and the socket addresses it can be dialled on directly, as text.
#[derive(Debug, Clone)]
pub struct PeerAddr {
    pub node_id: [u8; 32],
    pub relay_url: Option<String>,
    pub direct_addresses: Vec<String>,
}

/// How to join a conversation.
#[derive(Debug, Clone)]
pub struct P2PTicket {
    pub topic: [u8; 32],
    pub nodes: Vec<PeerAddr>,
    pub bootstrap_node: PeerAddr,
}

pub ghost struct PeerAddrView {
    pub node_id: Seq<u8>,
    pub relay_url: Option<Seq<char>>,
    pub direct_addresses: Seq<Seq<char>>,
}

pub ghost struct TicketView {
    pub topic: Seq<u8>,
    pub nodes: Seq<PeerAddrView>,
    pub bootstrap_node: PeerAddrView,
}

pub open spec fn string_option_view(o: Option<String>) -> Option<Seq<char>> {
    match o {
        Some(s) => Some(s@),
        None => None,
    }
}

impl View for PeerAddr {
    type V = PeerAddrView;

    open spec fn view(&self) -> PeerAddrView {
        PeerAddrView {
            node_id: self.node_id@,
            relay_url: string_option_view(self.relay_url),
            direct_addresses: string_views(self.direct_addresses@),
        }
    }
}

pub open spec fn string_views(ts: Seq<String>) -> Seq<Seq<char>> {
    Seq::new(ts.len(), |i: int| ts[i]@)
}

pub open spec fn peer_views(ps: Seq<PeerAddr>) -> Seq<PeerAddrView> {
    Seq::new(ps.len(), |i: int| ps[i]@)
}

impl View for P2PTicket {
    type V = TicketView;

    open spec fn view(&self) -> TicketView {
        TicketView {
            topic: self.topic@,
            nodes: peer_views(self.nodes@),
            bootstrap_node: self.bootstrap_node@,
        }
    }
}

/// A peer address that has an encoding.
pub open spec fn peer_wf(p: PeerAddrView) -> bool {
    &&& p.node_id.len() == KEY_LEN
    &&& (p.relay_url matches Some(u) ==> encode_utf8(u).len() <= u64::MAX)
    &&& strs_wf(p.direct_addresses)
}

/// A ticket that has an encoding.
pub open spec fn ticket_wf(t: TicketView) -> bool {
    &&& t.topic.len() == KEY_LEN
    &&& t.nodes.len() <= u64::MAX
    &&& forall|i: int| 0 <= i < t.nodes.len() ==> peer_wf(#[trigger] t.nodes[i])
    &&& peer_wf(t.bootstrap_node)
}

pub open spec fn opt_str_enc(o: Option<Seq<char>>) -> Seq<u8> {
    match o {
        None => seq![0u8],
        Some(t) => seq![1u8] + str_enc(t),
    }
}

pub open spec fn opt_str_parse(s: Seq<u8>) -> Option<(Option<Seq<char>>, nat)> {
    if s.len() == 0 {
        None
    } else if s[0] == 0 {
        Some((None, 1))
    } else if s[0] == 1 {
        match str_parse(s.drop_first()) {
            Some((t, n)) => Some((Some(t), n + 1)),
            None => None,
        }
    } else {
        None
    }
}

/// Strings that each have an encoding, few enough to be counted.
pub open spec fn strs_wf(ts: Seq<Seq<char>>) -> bool {
    &&& ts.len() <= u64::MAX
    &&& forall|i: int| 0 <= i < ts.len() ==> encode_utf8(#[trigger] ts[i]).len() <= u64::MAX
}

pub open spec fn strs_body_enc(ts: Seq<Seq<char>>) -> Seq<u8>
    decreases ts.len(),
{
    if ts.len() == 0 {
        Seq::empty()
    } else {
        strs_body_enc(ts.drop_last()) + str_enc(ts.last())
    }
}

/// A list of strings: the count as a varint, then each string.
pub open spec fn strs_enc(ts: Seq<Seq<char>>) -> Seq<u8> {
    varint_enc(ts.len() as u64) + strs_body_enc(ts)
}

/// Reads `n` strings one after another from the start of `s`.
pub open spec fn strs_body_parse(s: Seq<u8>, n: nat) -> Option<(Seq<Seq<char>>, nat)>
    decreases n,
{
    if n == 0 {
        Some((Seq::empty(), 0))
    } else {
        match strs_body_parse(s, (n - 1) as nat) {
            Some((ts, p)) => match str_parse(s.skip(p as int)) {
                Some((t, q)) => Some((ts.push(t), p + q)),
                None => None,
            },
            None => None,
        }
    }
}

pub open spec fn strs_parse(s: Seq<u8>) -> Option<(Seq<Seq<char>>, nat)> {
    match varint_parse(s) {
        Some((n, k)) => match strs_body_parse(s.skip(k as int), n as nat) {
            Some((ts, p)) => Some((ts, k + p)),
            None => None,
        },
        None => None,
    }
}

#[verifier::opaque]
pub open spec fn peer_enc(p: PeerAddrView) -> Seq<u8> {
    p.node_id + opt_str_enc(p.relay_url) + strs_enc(p.direct_addresses)
}

#[verifier::opaque]
pub open spec fn peer_parse(s: Seq<u8>) -> Option<(PeerAddrView, nat)> {
    match key_parse(s) {
        Some((k, a)) => match opt_str_parse(s.skip(a as int)) {
            Some((u, b)) => match strs_parse(s.skip((a + b) as int)) {
                Some((ds, c)) => Some(
                    (PeerAddrView { node_id: k, relay_url: u, direct_addresses: ds }, (a + b + c) as nat),
                ),
                None => None,
            },
            None => None,
        },
        None => None,
    }
}

pub open spec fn peers_enc(ps: Seq<PeerAddrView>) -> Seq<u8>
    decreases ps.len(),
{
    if ps.len() == 0 {
        Seq::empty()
    } else {
        peers_enc(ps.drop_last()) + peer_enc(ps.last())
    }
}

pub open spec fn peers_parse(s: Seq<u8>, n: nat) -> Option<(Seq<PeerAddrView>, nat)>
    decreases n,
{
    if n == 0 {
        Some((Seq::empty(), 0))
    } else {
        match peers_parse(s, (n - 1) as nat) {
            Some((ps, p)) => match peer_parse(s.skip(p as int)) {
                Some((x, q)) => Some((ps.push(x), p + q)),
                None => None,
            },
            None => None,
        }
    }
}

/// The binary encoding of a ticket.
pub open spec fn ticket_enc(t: TicketView) -> Seq<u8> {
    t.topic + varint_enc(t.nodes.len() as u64) + peers_enc(t.nodes) + peer_enc(t.bootstrap_node)
}

pub open spec fn ticket_parse(s: Seq<u8>) -> Option<(TicketView, nat)> {
    match key_parse(s) {
        Some((topic, a)) => match varint_parse(s.skip(a as int)) {
            Some((n, k)) => match peers_parse(s.skip((a + k) as int), n as nat) {
                Some((nodes, p)) => match peer_parse(s.skip((a + k + p) as int)) {
                    Some((b, q)) => Some(
                        (TicketView { topic, nodes, bootstrap_node: b }, (a + k + p + q) as nat),
                    ),
                    None => None,
                },
                None => None,
            },
            None => None,
        },
        None => None,
    }
}

/// The ticket that `s` encodes, with nothing after it.
pub open spec fn ticket_of_bytes(s: Seq<u8>) -> Option<TicketView> {
    match ticket_parse(s) {
        Some((t, n)) => if n == s.len() { Some(t) } else { None },
        None => None,
    }
}

pub proof fn lemma_opt_str_round_trip(o: Option<Seq<char>>, rest: Seq<u8>)
    requires
        o matches Some(u) ==> encode_utf8(u).len() <= u64::MAX,
    ensures
        opt_str_parse(opt_str_enc(o) + rest) == Some((o, opt_str_enc(o).len())),
{
    let t = opt_str_enc(o) + rest;
    if let Some(u) = o {
        lemma_str_round_trip(u, rest);
        assert(t.drop_first() =~= str_enc(u) + rest);
    }
}

pub proof fn lemma_strs_body_round_trip(ts: Seq<Seq<char>>, rest: Seq<u8>)
    requires
        strs_wf(ts),
    ensures
        strs_body_parse(strs_body_enc(ts) + rest, ts.len()) == Some((ts, strs_body_enc(ts).len())),
    decreases ts.len(),
{
    if ts.len() > 0 {
        let init = ts.drop_last();
        let last = ts.last();
        let s = strs_body_enc(ts) + rest;
        assert(encode_utf8(ts[ts.len() - 1]).len() <= u64::MAX);
        assert forall|i: int| 0 <= i < init.len() implies encode_utf8(#[trigger] init[i]).len()
            <= u64::MAX by {
            assert(init[i] == ts[i]);
        }
        lemma_strs_body_round_trip(init, str_enc(last) + rest);
        assert(s =~= strs_body_enc(init) + (str_enc(last) + rest));
        assert(s.skip(strs_body_enc(init).len() as int) =~= str_enc(last) + rest);
        lemma_str_round_trip(last, rest);
        assert(init.push(last) =~= ts);
    }
}

pub proof fn lemma_strs_round_trip(ts: Seq<Seq<char>>, rest: Seq<u8>)
    requires
        strs_wf(ts),
    ensures
        strs_parse(strs_enc(ts) + rest) == Some((ts, strs_enc(ts).len())),
{
    let s = strs_enc(ts) + rest;
    let v = varint_enc(ts.len() as u64);
    lemma_varint_round_trip(ts.len() as u64, strs_body_enc(ts) + rest);
    assert(s =~= v + (strs_body_enc(ts) + rest));
    assert(s.skip(v.len() as int) =~= strs_body_enc(ts) + rest);
    lemma_strs_body_round_trip(ts, rest);
}

pub proof fn lemma_peer_round_trip(p: PeerAddrView, rest: Seq<u8>)
    requires
        peer_wf(p),
    ensures
        peer_parse(peer_enc(p) + rest) == Some((p, peer_enc(p).len())),
{
    reveal(peer_parse);
    reveal(peer_enc);
    let s = peer_enc(p) + rest;
    let o = opt_str_enc(p.relay_url);
    let d = strs_enc(p.direct_addresses);
    assert(s =~= p.node_id + (o + (d + rest)));
    assert(s.take(KEY_LEN as int) =~= p.node_id);
    assert(s.skip(KEY_LEN as int) =~= o + (d + rest));
    lemma_opt_str_round_trip(p.relay_url, d + rest);
    assert(s.skip(KEY_LEN + o.len()) =~= d + rest);
    lemma_strs_round_trip(p.direct_addresses, rest);
}

pub proof fn lemma_peers_round_trip(ps: Seq<PeerAddrView>, rest: Seq<u8>)
    requires
        forall|i: int| 0 <= i < ps.len() ==> peer_wf(#[trigger] ps[i]),
    ensures
        peers_parse(peers_enc(ps) + rest, ps.len()) == Some((ps, peers_enc(ps).len())),
    decreases ps.len(),
{
    if ps.len() > 0 {
        let init = ps.drop_last();
        let last = ps.last();
        let s = peers_enc(ps) + rest;
        assert(peer_wf(ps[ps.len() - 1]));
        lemma_peers_round_trip(init, peer_enc(last) + rest);
        assert(s =~= peers_enc(init) + (peer_enc(last) + rest));
        assert(s.skip(peers_enc(init).len() as int) =~= peer_enc(last) + rest);
        lemma_peer_round_trip(last, rest);
        assert(init.push(last) =~= ps);
    }
}

/// Reading the encoding of a ticket, whatever follows it, gives back the
/// ticket and the encoding's length.
pub proof fn lemma_ticket_parse_enc(t: TicketView, rest: Seq<u8>)
    requires
        ticket_wf(t),
    ensures
        ticket_parse(ticket_enc(t) + rest) == Some((t, ticket_enc(t).len())),
{
    let s = ticket_enc(t) + rest;
    let v = varint_enc(t.nodes.len() as u64);
    let pe = peers_enc(t.nodes);
    let be = peer_enc(t.bootstrap_node);
    assert(s =~= t.topic + (v + (pe + (be + rest))));
    assert(s.take(KEY_LEN as int) =~= t.topic);
    assert(s.skip(KEY_LEN as int) =~= v + (pe + (be + rest)));
    lemma_varint_round_trip(t.nodes.len() as u64, pe + (be + rest));
    assert(s.skip(KEY_LEN + v.len()) =~= pe + (be + rest));
    lemma_peers_round_trip(t.nodes, be + rest);
    assert(s.skip(KEY_LEN + v.len() + pe.len()) =~= be + rest);
    lemma_peer_round_trip(t.bootstrap_node, rest);
}

/// Decoding the encoding of a ticket gives the same ticket back.
pub proof fn lemma_ticket_bytes_round_trip(t: TicketView)
    requires
        ticket_wf(t),
    ensures
        ticket_of_bytes(ticket_enc(t)) == Some(t),
{
    lemma_ticket_parse_enc(t, Seq::empty());
    assert(ticket_enc(t) + Seq::<u8>::empty() =~= ticket_enc(t));
}

pub proof fn lemma_key_parse_extend(s: Seq<u8>, rest: Seq<u8>)
    requires
        key_parse(s) is Some,
    ensures
        key_parse(s + rest) == key_parse(s),
{
    assert((s + rest).take(KEY_LEN as int) =~= s.take(KEY_LEN as int));
}

pub proof fn lemma_str_parse_extend(s: Seq<u8>, rest: Seq<u8>)
    requires
        str_parse(s) is Some,
    ensures
        str_parse(s + rest) == str_parse(s),
        str_parse(s) matches Some((_, n)) && n <= s.len(),
{
    lemma_varint_parse_extend(s, rest);
    let (n, k) = varint_parse(s)->0;
    assert((s + rest).subrange(k as int, k + n) =~= s.subrange(k as int, k + n));
}

pub proof fn lemma_opt_str_parse_extend(t: Seq<u8>, rest: Seq<u8>)
    requires
        opt_str_parse(t) is Some,
    ensures
        opt_str_parse(t + rest) == opt_str_parse(t),
        opt_str_parse(t) matches Some((_, n)) && n <= t.len(),
{
    if t[0] == 1 {
        assert((t + rest).drop_first() =~= t.drop_first() + rest);
        lemma_str_parse_extend(t.drop_first(), rest);
    }
}

pub proof fn lemma_strs_body_parse_extend(s: Seq<u8>, n: nat, rest: Seq<u8>)
    requires
        strs_body_parse(s, n) is Some,
    ensures
        strs_body_parse(s + rest, n) == strs_body_parse(s, n),
        strs_body_parse(s, n) matches Some((_, p)) && p <= s.len(),
    decreases n,
{
    if n > 0 {
        lemma_strs_body_parse_extend(s, (n - 1) as nat, rest);
        let (_, p) = strs_body_parse(s, (n - 1) as nat)->0;
        assert((s + rest).skip(p as int) =~= s.skip(p as int) + rest);
        lemma_str_parse_extend(s.skip(p as int), rest);
    }
}

pub proof fn lemma_strs_parse_extend(s: Seq<u8>, rest: Seq<u8>)
    requires
        strs_parse(s) is Some,
    ensures
        strs_parse(s + rest) == strs_parse(s),
        strs_parse(s) matches Some((_, n)) && n <= s.len(),
{
    lemma_varint_parse_extend(s, rest);
    let (n, k) = varint_parse(s)->0;
    assert((s + rest).skip(k as int) =~= s.skip(k as int) + rest);
    lemma_strs_body_parse_extend(s.skip(k as int), n as nat, rest);
}

pub proof fn lemma_peer_parse_extend(s: Seq<u8>, rest: Seq<u8>)
    requires
        peer_parse(s) is Some,
    ensures
        peer_parse(s + rest) == peer_parse(s),
        peer_parse(s) matches Some((_, n)) && n <= s.len(),
{
    reveal(peer_parse);
    lemma_key_parse_extend(s, rest);
    let a = KEY_LEN as int;
    let t = s.skip(a);
    assert((s + rest).skip(a) =~= t + rest);
    lemma_opt_str_parse_extend(t, rest);
    let (_, b) = opt_str_parse(t)->0;
    assert((s + rest).skip(a + b) =~= s.skip(a + b) + rest);
    lemma_strs_parse_extend(s.skip(a + b), rest);
}

pub proof fn lemma_peers_parse_extend(s: Seq<u8>, n: nat, rest: Seq<u8>)
    requires
        peers_parse(s, n) is Some,
    ensures
        peers_parse(s + rest, n) == peers_parse(s, n),
        peers_parse(s, n) matches Some((_, p)) && p <= s.len(),
    decreases n,
{
    if n > 0 {
        lemma_peers_parse_extend(s, (n - 1) as nat, rest);
        let (_, p) = peers_parse(s, (n - 1) as nat)->0;
        assert((s + rest).skip(p as int) =~= s.skip(p as int) + rest);
        lemma_peer_parse_extend(s.skip(p as int), rest);
    }
}

/// A successful read of a ticket looks only at the bytes it took.
pub proof fn lemma_ticket_parse_extend(s: Seq<u8>, rest: Seq<u8>)
    requires
        ticket_parse(s) is Some,
    ensures
        ticket_parse(s + rest) == ticket_parse(s),
{
    let u = s + rest;
    lemma_key_parse_extend(s, rest);
    let a = KEY_LEN as int;
    assert(u.skip(a) =~= s.skip(a) + rest);
    lemma_varint_parse_extend(s.skip(a), rest);
    let (n, k) = varint_parse(s.skip(a))->0;
    assert(u.skip(a + k) =~= s.skip(a + k) + rest);
    lemma_peers_parse_extend(s.skip(a + k), n as nat, rest);
    let (_, p) = peers_parse(s.skip(a + k), n as nat)->0;
    assert(u.skip(a + k + p) =~= s.skip(a + k + p) + rest);
    lemma_peer_parse_extend(s.skip(a + k + p), rest);
}

/// A strict prefix of a ticket's encoding is not a ticket.
pub proof fn lemma_truncated_ticket_rejected(t: TicketView, len: nat)
    requires
        ticket_wf(t),
        len < ticket_enc(t).len(),
    ensures
        ticket_of_bytes(ticket_enc(t).take(len as int)) is None,
{
    let e = ticket_enc(t);
    let p = e.take(len as int);
    if ticket_of_bytes(p) is Some {
        lemma_ticket_parse_extend(p, e.skip(len as int));
        assert(p + e.skip(len as int) =~= e);
        lemma_ticket_parse_enc(t, Seq::empty());
        assert(e + Seq::<u8>::empty() =~= e);
    }
}

/// A ticket's encoding followed by more bytes is not a ticket.
pub proof fn lemma_overlong_ticket_rejected(t: TicketView, rest: Seq<u8>)
    requires
        ticket_wf(t),
        rest.len() > 0,
    ensures
        ticket_of_bytes(ticket_enc(t) + rest) is None,
{
    lemma_ticket_parse_enc(t, rest);
}

/// Appends the encoding of `p` to `out`.
pub fn encode_peer_into(out: &mut Vec<u8>, p: &PeerAddr)
    ensures
        final(out)@ == old(out)@ + peer_enc(p@),
{
    reveal(peer_enc);
    push_bytes(out, p.node_id.as_slice());
    match &p.relay_url {
        None => {
            out.push(0u8);
        },
        Some(u) => {
            out.push(1u8);
            encode_str_into(out, u);
        },
    }
    let ghost mid = out@;
    assert(mid =~= old(out)@ + p.node_id@ + opt_str_enc(p@.relay_url));
    encode_strs_into(out, &p.direct_addresses);
    assert(final(out)@ =~= old(out)@ + peer_enc(p@));
}

/// Appends the encoding of a list of strings to `out`.
pub fn encode_strs_into(out: &mut Vec<u8>, ts: &Vec<String>)
    ensures
        final(out)@ == old(out)@ + strs_enc(string_views(ts@)),
{
    let count = encode_varint(ts.len() as u64);
    push_bytes(out, count.as_slice());
    let ghost head = out@;
    let mut i: usize = 0;
    while i < ts.len()
        invariant
            i <= ts@.len(),
            head == old(out)@ + varint_enc(ts@.len() as u64),
            out@ == head + strs_body_enc(string_views(ts@.take(i as int))),
        decreases ts@.len() - i,
    {
        encode_str_into(out, &ts[i]);
        i = i + 1;
        assert(string_views(ts@.take(i as int)).drop_last() =~= string_views(ts@.take(i - 1)));
    }
    assert(ts@.take(i as int) =~= ts@);
    assert(string_views(ts@).len() == ts@.len());
    assert(out@ =~= old(out)@ + strs_enc(string_views(ts@)));
}

pub proof fn lemma_strs_body_parse_fails_on(s: Seq<u8>, i: nat, n: nat)
    requires
        i <= n,
        strs_body_parse(s, i) is None,
    ensures
        strs_body_parse(s, n) is None,
    decreases n - i,
{
    if i < n {
        lemma_strs_body_parse_fails_on(s, i, (n - 1) as nat);
    }
}

/// Reads a list of strings from `b` at `pos`.
pub fn decode_strs(b: &[u8], pos: usize) -> (r: Option<(Vec<String>, usize)>)
    requires
        pos <= b@.len(),
    ensures
        match strs_parse(b@.skip(pos as int)) {
            Some((ts, n)) => r matches Some((x, p)) && string_views(x@) == ts && p == pos + n,
            None => r is None,
        },
        r matches Some((_, p)) ==> p <= b@.len(),
{
    let ghost s = b@.skip(pos as int);
    let (n, k) = match decode_varint(b, pos) {
        Some(x) => x,
        None => return None,
    };
    assert(k <= s.len());
    assert(pos + k <= b.len());
    let start = pos + k;
    let ghost t = s.skip(k as int);
    assert(t =~= b@.skip(start as int));
    let mut out: Vec<String> = Vec::new();
    let mut at: usize = start;
    let mut i: u64 = 0;
    while i < n
        invariant
            i <= n,
            start <= at <= b@.len(),
            t == b@.skip(start as int),
            s == b@.skip(pos as int),
            t == s.skip(k as int),
            start == pos + k,
            varint_parse(s) == Some((n, k as nat)),
            strs_body_parse(t, i as nat) == Some((string_views(out@), (at - start) as nat)),
        decreases n - i,
    {
        assert(t.skip(at - start) =~= b@.skip(at as int));
        match decode_str(b, at) {
            None => {
                proof {
                    assert(strs_body_parse(t, (i + 1) as nat) is None);
                    lemma_strs_body_parse_fails_on(t, (i + 1) as nat, n as nat);
                }
                return None;
            },
            Some((x, p)) => {
                out.push(x);
                at = p;
                i = i + 1;
                assert(string_views(out@) =~= string_views(out@).drop_last().push(out@.last()@));
                assert(string_views(out@).drop_last() =~= string_views(out@.drop_last()));
            },
        }
    }
    Some((out, at))
}

/// Reads an optional string from `b` at `pos`.
pub fn decode_opt_str(b: &[u8], pos: usize) -> (r: Option<(Option<String>, usize)>)
    requires
        pos <= b@.len(),
    ensures
        match opt_str_parse(b@.skip(pos as int)) {
            Some((o, n)) => r matches Some((x, p)) && string_option_view(x) == o && p == pos + n,
            None => r is None,
        },
        r matches Some((_, p)) ==> p <= b@.len(),
{
    let ghost t = b@.skip(pos as int);
    if pos >= b.len() {
        return None;
    }
    let tag = b[pos];
    if tag == 0 {
        Some((None, pos + 1))
    } else if tag == 1 {
        assert(t.drop_first() =~= b@.skip(pos + 1));
        match decode_str(b, pos + 1) {
            Some((u, q)) => Some((Some(u), q)),
            None => None,
        }
    } else {
        None
    }
}

/// Reads a peer address from `b` at `pos`.
pub fn decode_peer(b: &[u8], pos: usize) -> (r: Option<(PeerAddr, usize)>)
    requires
        pos <= b@.len(),
    ensures
        match peer_parse(b@.skip(pos as int)) {
            Some((x, n)) => r matches Some((a, p)) && a@ == x && p == pos + n,
            None => r is None,
        },
        r matches Some((_, p)) ==> p <= b@.len(),
{
    reveal(peer_parse);
    let ghost s = b@.skip(pos as int);
    let (node_id, p) = match decode_key(b, pos) {
        Some(x) => x,
        None => return None,
    };
    assert(s.skip(KEY_LEN as int) =~= b@.skip(p as int));
    let (relay_url, q) = match decode_opt_str(b, p) {
        Some(x) => x,
        None => return None,
    };
    assert(s.skip(q - pos) =~= b@.skip(q as int));
    match decode_strs(b, q) {
        Some((direct_addresses, e)) => Some((PeerAddr { node_id, relay_url, direct_addresses }, e)),
        None => None,
    }
}

pub proof fn lemma_peers_parse_fails_on(s: Seq<u8>, i: nat, n: nat)
    requires
        i <= n,
        peers_parse(s, i) is None,
    ensures
        peers_parse(s, n) is None,
    decreases n - i,
{
    if i < n {
        lemma_peers_parse_fails_on(s, i, (n - 1) as nat);
    }
}

impl P2PTicket {
    /// The binary encoding of this ticket.
    pub fn to_bytes(&self) -> (r: Vec<u8>)
        ensures
            r@ == ticket_enc(self@),
    {
        let mut out: Vec<u8> = Vec::new();
        push_bytes(&mut out, self.topic.as_slice());
        let count = encode_varint(self.nodes.len() as u64);
        push_bytes(&mut out, count.as_slice());
        let ghost head = out@;
        let mut i: usize = 0;
        while i < self.nodes.len()
            invariant
                i <= self.nodes@.len(),
                head == self.topic@ + varint_enc(self.nodes@.len() as u64),
                out@ == head + peers_enc(peer_views(self.nodes@.take(i as int))),
            decreases self.nodes@.len() - i,
        {
            encode_peer_into(&mut out, &self.nodes[i]);
            i = i + 1;
            assert(peer_views(self.nodes@.take(i as int)).drop_last() =~= peer_views(
                self.nodes@.take(i - 1),
            ));
        }
        assert(self.nodes@.take(i as int) =~= self.nodes@);
        encode_peer_into(&mut out, &self.bootstrap_node);
        assert(out@ =~= ticket_enc(self@));
        out
    }

    /// Reads a ticket that fills `b` exactly.
    pub fn from_bytes(b: &[u8]) -> (r: Result<P2PTicket, DecodeError>)
        ensures
            match ticket_of_bytes(b@) {
                Some(t) => r matches Ok(x) && x@ == t,
                None => r is Err,
            },
    {
        let ghost s = b@;
        assert(b@.skip(0) =~= b@);
        let (topic, a) = match decode_key(b, 0) {
            Some(x) => x,
            None => return Err(DecodeError),
        };
        assert(s.skip(a as int) =~= b@.skip(a as int));
        let (n, k) = match decode_varint(b, a) {
            Some(x) => x,
            None => return Err(DecodeError),
        };
        let start = a + k;
        assert(s.skip(a as int).skip(k as int) =~= s.skip(start as int));
        let ghost t = s.skip(start as int);
        let mut nodes: Vec<PeerAddr> = Vec::new();
        let mut pos: usize = start;
        let mut i: u64 = 0;
        while i < n
            invariant
                i <= n,
                start <= pos <= b@.len(),
                t == s.skip(start as int),
                s == b@,
                key_parse(s) == Some((topic@, KEY_LEN as nat)),
                start == KEY_LEN + k,
                varint_parse(s.skip(KEY_LEN as int)) == Some((n, k as nat)),
                peers_parse(t, i as nat) == Some((peer_views(nodes@), (pos - start) as nat)),
            decreases n - i,
        {
            assert(t.skip(pos - start) =~= b@.skip(pos as int));
            match decode_peer(b, pos) {
                None => {
                    proof {
                        assert(peers_parse(t, (i + 1) as nat) is None);
                        lemma_peers_parse_fails_on(t, (i + 1) as nat, n as nat);
                    }
                    return Err(DecodeError);
                },
                Some((x, p)) => {
                    nodes.push(x);
                    pos = p;
                    i = i + 1;
                    assert(peer_views(nodes@) =~= peer_views(nodes@).drop_last().push(
                        nodes@.last()@,
                    ));
                    assert(peer_views(nodes@).drop_last() =~= peer_views(nodes@.drop_last()));
                },
            }
        }
        assert(s.skip((KEY_LEN + k + (pos - start)) as int) =~= b@.skip(pos as int));
        match decode_peer(b, pos) {
            None => Err(DecodeError),
            Some((bootstrap_node, end)) => if end == b.len() {
                Ok(P2PTicket { topic, nodes, bootstrap_node })
            } else {
                Err(DecodeError)
            },
        }
    }
}

} // verus!
