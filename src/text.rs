//! The shareable text form of a ticket: its binary encoding in unpadded
//! base32, written in lower case. Parsing folds the text to upper case first,
//! so either case is accepted.
use vstd::prelude::*;
use crate::wire::DecodeError;
use crate::ticket::{P2PTicket, TicketView, ticket_enc, ticket_of_bytes, ticket_wf, lemma_ticket_bytes_round_trip};

verus! {

/// The unpadded RFC 4648 base32 text of a byte string.
pub uninterp spec fn base32_of(b: Seq<u8>) -> Seq<char>;

/// A symbol of the base32 alphabet: `A` to `Z` and `2` to `7`.
pub open spec fn is_base32_symbol(c: char) -> bool {
    ('A' <= c <= 'Z') || ('2' <= c <= '7')
}

pub open spec fn upper_char(c: char) -> char {
    if 'a' <= c <= 'z' { ((c as u32) - 32) as char } else { c }
}

pub open spec fn lower_char(c: char) -> char {
    if 'A' <= c <= 'Z' { ((c as u32) + 32) as char } else { c }
}

/// `s` with its ASCII letters in upper case.
pub open spec fn ascii_upper(s: Seq<char>) -> Seq<char> {
    Seq::new(s.len(), |i: int| upper_char(s[i]))
}

/// `s` with its ASCII letters in lower case.
pub open spec fn ascii_lower(s: Seq<char>) -> Seq<char> {
    Seq::new(s.len(), |i: int| lower_char(s[i]))
}

/// Relies on data_encoding::BASE32_NOPAD.encode, which writes the base32
/// symbols of the input with no padding; no other byte string has the same
/// text.
#[verifier::external_body]
fn base32_encode(b: &[u8]) -> (r: String)
    ensures
        r@ == base32_of(b@),
        forall|c: Seq<u8>| #[trigger] base32_of(c) == r@ ==> c == b@,
        forall|i: int| 0 <= i < r@.len() ==> is_base32_symbol(#[trigger] r@[i]),
{
    data_encoding::BASE32_NOPAD.encode(b)
}

/// Relies on data_encoding::BASE32_NOPAD.decode, which accepts exactly the
/// texts that its encoder writes (trailing bits are checked), so none that
/// holds a character outside the alphabet, and returns the one byte string
/// that each of them encodes.
#[verifier::external_body]
fn base32_decode(t: &str) -> (r: Option<Vec<u8>>)
    ensures
        r is Some ==> forall|i: int| 0 <= i < t@.len() ==> is_base32_symbol(#[trigger] t@[i]),
        r matches Some(b) ==> base32_of(b@) == t@,
        r matches Some(b) ==> forall|c: Seq<u8>| #[trigger] base32_of(c) == t@ ==> c == b@,
        (exists|c: Seq<u8>| #[trigger] base32_of(c) == t@) ==> r is Some,
{
    data_encoding::BASE32_NOPAD.decode(t.as_bytes()).ok()
}

/// Relies on str::to_ascii_uppercase.
#[verifier::external_body]
fn to_upper(t: &str) -> (r: String)
    ensures
        r@ == ascii_upper(t@),
{
    t.to_ascii_uppercase()
}

/// Relies on String::make_ascii_lowercase.
#[verifier::external_body]
fn make_lower(t: &mut String)
    ensures
        final(t)@ == ascii_lower(old(t)@),
{
    t.make_ascii_lowercase()
}

/// Why a text is not a ticket.
#[derive(Debug, Clone, Copy, PartialEq, Eq)]
pub enum TicketParseError {
    /// The text, folded to upper case, is not base32 that the encoder writes.
    Encoding,
    /// The bytes it stands for are not the encoding of a ticket.
    Decode(DecodeError),
}

/// The bytes that a ticket text stands for, once folded to upper case.
pub open spec fn bytes_of_text(s: Seq<char>) -> Option<Seq<u8>> {
    if exists|b: Seq<u8>| #[trigger] base32_of(b) == ascii_upper(s) {
        Some(choose|b: Seq<u8>| #[trigger] base32_of(b) == ascii_upper(s))
    } else {
        None
    }
}

/// The ticket that a text stands for.
pub open spec fn ticket_of_text(s: Seq<char>) -> Option<TicketView> {
    match bytes_of_text(s) {
        Some(b) => ticket_of_bytes(b),
        None => None,
    }
}

/// The text of a ticket.
pub open spec fn text_of_ticket(t: TicketView) -> Seq<char> {
    ascii_lower(base32_of(ticket_enc(t)))
}

/// Parsing does not depend on the case of the text: the text, its upper-case
/// form and its lower-case form stand for the same ticket, or all for none.
pub proof fn lemma_text_case_insensitive(s: Seq<char>)
    ensures
        ticket_of_text(ascii_upper(s)) == ticket_of_text(s),
        ticket_of_text(ascii_lower(s)) == ticket_of_text(s),
{
    assert(ascii_upper(ascii_upper(s)) =~= ascii_upper(s));
    assert(ascii_upper(ascii_lower(s)) =~= ascii_upper(s));
}

impl P2PTicket {
    /// The text of this ticket: lower-case base32 with no padding. Parsing
    /// the text gives this ticket back.
    pub fn to_text(&self) -> (r: String)
        ensures
            r@ == text_of_ticket(self@),
            forall|i: int| 0 <= i < r@.len() ==> ('a' <= #[trigger] r@[i] <= 'z') || ('2' <= r@[i] <= '7'),
            ticket_wf(self@) ==> ticket_of_text(r@) == Some(self@),
    {
        let bytes = self.to_bytes();
        let mut text = base32_encode(bytes.as_slice());
        let ghost enc = text@;
        make_lower(&mut text);
        proof {
            assert(ascii_upper(text@) =~= enc);
            assert(base32_of(ticket_enc(self@)) == ascii_upper(text@));
            if ticket_wf(self@) {
                lemma_ticket_bytes_round_trip(self@);
                assert(bytes_of_text(text@) == Some(ticket_enc(self@)));
            }
        }
        text
    }

    /// Parses the text of a ticket, in either case. A text with a character
    /// that is not a base32 symbol in either case is refused as
    /// [`TicketParseError::Encoding`].
    pub fn from_text(s: &str) -> (r: Result<P2PTicket, TicketParseError>)
        ensures
            (exists|i: int| 0 <= i < s@.len() && !is_base32_symbol(upper_char(#[trigger] s@[i])))
                ==> r == Err::<P2PTicket, _>(TicketParseError::Encoding),
            match ticket_of_text(s@) {
                Some(t) => r matches Ok(x) && x@ == t,
                None => r is Err,
            },
            r == Err::<P2PTicket, _>(TicketParseError::Encoding) <==> bytes_of_text(s@) is None,
    {
        let upper = to_upper(s);
        match base32_decode(upper.as_str()) {
            None => Err(TicketParseError::Encoding),
            Some(bytes) => {
                proof {
                    assert forall|i: int| 0 <= i < s@.len() implies is_base32_symbol(
                        upper_char(#[trigger] s@[i]),
                    ) by {
                        assert(upper@[i] == upper_char(s@[i]));
                    }
                    let c = choose|c: Seq<u8>| #[trigger] base32_of(c) == ascii_upper(s@);
                    assert(base32_of(bytes@) == ascii_upper(s@));
                    assert(c == bytes@);
                }
                match P2PTicket::from_bytes(bytes.as_slice()) {
                    Ok(t) => Ok(t),
                    Err(e) => Err(TicketParseError::Decode(e)),
                }
            },
        }
    }
}

} // verus!
