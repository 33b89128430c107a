//! Variable-length unsigned integers in bincode's standard layout: values up to
//! 250 take one byte; larger ones take a marker byte (251, 252 or 253) followed
//! by 2, 4 or 8 little-endian bytes.
use vstd::prelude::*;

verus! {

/// The number that a run of little-endian bytes stands for.
pub open spec fn le_value(s: Seq<u8>) -> nat
    decreases s.len(),
{
    if s.len() == 0 {
        0
    } else {
        s[0] as nat + 256 * le_value(s.drop_first())
    }
}

/// The `k` low-order bytes of `n`, least significant first.
pub open spec fn le_bytes(n: nat, k: nat) -> Seq<u8>
    decreases k,
{
    if k == 0 {
        Seq::empty()
    } else {
        seq![(n % 256) as u8] + le_bytes(n / 256, (k - 1) as nat)
    }
}

/// 256 to the power `k`.
pub open spec fn byte_bound(k: nat) -> nat
    decreases k,
{
    if k == 0 {
        1
    } else {
        256 * byte_bound((k - 1) as nat)
    }
}

/// The encoding of `n`.
pub open spec fn varint_enc(n: u64) -> Seq<u8> {
    if n <= 250 {
        seq![n as u8]
    } else if n <= 0xffff {
        seq![251u8] + le_bytes(n as nat, 2)
    } else if n <= 0xffff_ffff {
        seq![252u8] + le_bytes(n as nat, 4)
    } else {
        seq![253u8] + le_bytes(n as nat, 8)
    }
}

/// What a decoder reads at the start of `s`: the value and the number of bytes
/// it took, or `None` when the bytes run out or the marker byte is not one of
/// the four forms.
pub open spec fn varint_parse(s: Seq<u8>) -> Option<(u64, nat)> {
    if s.len() == 0 {
        None
    } else if s[0] <= 250 {
        Some((s[0] as u64, 1))
    } else if s[0] == 251 {
        if s.len() >= 3 { Some((le_value(s.subrange(1, 3)) as u64, 3)) } else { None }
    } else if s[0] == 252 {
        if s.len() >= 5 { Some((le_value(s.subrange(1, 5)) as u64, 5)) } else { None }
    } else if s[0] == 253 {
        if s.len() >= 9 { Some((le_value(s.subrange(1, 9)) as u64, 9)) } else { None }
    } else {
        None
    }
}

pub proof fn lemma_le_bytes_len(n: nat, k: nat)
    ensures
        le_bytes(n, k).len() == k,
    decreases k,
{
    if k > 0 {
        lemma_le_bytes_len(n / 256, (k - 1) as nat);
    }
}

pub proof fn lemma_le_round_trip(n: nat, k: nat)
    requires
        n < byte_bound(k),
    ensures
        le_value(le_bytes(n, k)) == n,
    decreases k,
{
    if k > 0 {
        let b = byte_bound((k - 1) as nat);
        assert(n / 256 < b) by (nonlinear_arith)
            requires
                n < 256 * b,
        ;
        lemma_le_round_trip(n / 256, (k - 1) as nat);
        let s = le_bytes(n, k);
        assert(s.drop_first() =~= le_bytes(n / 256, (k - 1) as nat));
    }
}

/// The encoding has between one and nine bytes.
pub proof fn lemma_varint_enc_len(n: u64)
    ensures
        1 <= varint_enc(n).len() <= 9,
{
    lemma_le_bytes_len(n as nat, 2);
    lemma_le_bytes_len(n as nat, 4);
    lemma_le_bytes_len(n as nat, 8);
}

/// Reading the encoding of `n`, whatever follows it, gives back `n` and the
/// encoding's length.
pub proof fn lemma_varint_round_trip(n: u64, rest: Seq<u8>)
    ensures
        varint_parse(varint_enc(n) + rest) == Some((n, varint_enc(n).len())),
{
    let e = varint_enc(n);
    let s = e + rest;
    lemma_varint_enc_len(n);
    reveal_with_fuel(byte_bound, 9);
    assert(byte_bound(2) == 0x1_0000);
    assert(byte_bound(4) == 0x1_0000_0000);
    assert(byte_bound(8) == 0x1_0000_0000_0000_0000);
    if n <= 250 {
    } else if n <= 0xffff {
        lemma_le_round_trip(n as nat, 2);
        let lb = le_bytes(n as nat, 2);
        lemma_le_bytes_len(n as nat, 2);
        assert(lb.len() == 2);
        assert(e == seq![251u8] + lb);
        assert(s.subrange(1, 3) =~= lb);
    } else if n <= 0xffff_ffff {
        lemma_le_round_trip(n as nat, 4);
        let lb = le_bytes(n as nat, 4);
        lemma_le_bytes_len(n as nat, 4);
        assert(lb.len() == 4);
        assert(e == seq![252u8] + lb);
        assert(s.subrange(1, 5) =~= lb);
    } else {
        lemma_le_round_trip(n as nat, 8);
        let lb = le_bytes(n as nat, 8);
        lemma_le_bytes_len(n as nat, 8);
        assert(lb.len() == 8);
        assert(e == seq![253u8] + lb);
        assert(s.subrange(1, 9) =~= lb);
    }
}

/// A successful read looks only at the bytes it took: bytes appended after
/// them change nothing.
pub proof fn lemma_varint_parse_extend(s: Seq<u8>, rest: Seq<u8>)
    requires
        varint_parse(s) is Some,
    ensures
        varint_parse(s + rest) == varint_parse(s),
{
    let t = s + rest;
    if s[0] == 251 {
        assert(t.subrange(1, 3) =~= s.subrange(1, 3));
    } else if s[0] == 252 {
        assert(t.subrange(1, 5) =~= s.subrange(1, 5));
    } else if s[0] == 253 {
        assert(t.subrange(1, 9) =~= s.subrange(1, 9));
    }
}

/// Relies on bincode::encode_to_vec with the standard configuration, which
/// writes a `u64` as the variable-length form above.
#[verifier::external_body]
pub(crate) fn encode_varint(n: u64) -> (r: Vec<u8>)
    ensures
        r@ == varint_enc(n),
{
    match bincode::encode_to_vec(n, bincode::config::standard()) {
        Ok(v) => v,
        Err(_) => Vec::new(),
    }
}

/// Relies on bincode::decode_from_slice with the standard configuration, which
/// reads a `u64` in the variable-length form above from the bytes after `pos`
/// and reports how many bytes it took.
#[verifier::external_body]
pub(crate) fn decode_varint(b: &[u8], pos: usize) -> (r: Option<(u64, usize)>)
    requires
        pos <= b@.len(),
    ensures
        r is None <==> varint_parse(b@.skip(pos as int)) is None,
        r matches Some((v, k)) ==> varint_parse(b@.skip(pos as int)) == Some((v, k as nat)),
{
    match bincode::decode_from_slice::<u64, _>(&b[pos..], bincode::config::standard()) {
        Ok((v, k)) => Some((v, k)),
        Err(_) => None,
    }
}

} // verus!
