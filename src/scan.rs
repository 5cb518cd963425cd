use vstd::prelude::*;
use crate::text::ascii_chars;
use crate::tokens::{keyword_of, TokenKind};

verus! {

/// The byte at `i`, or the zero sentinel past either end.
pub open spec fn byte_at(b: Seq<u8>, i: int) -> u8 {
    if 0 <= i < b.len() {
        b[i]
    } else {
        0
    }
}

/// ASCII whitespace: space, tab, line feed, form feed, carriage return.
pub open spec fn is_space(c: u8) -> bool {
    c == 0x20 || c == 0x09 || c == 0x0a || c == 0x0c || c == 0x0d
}

pub open spec fn is_letter(c: u8) -> bool {
    (0x41 <= c <= 0x5a) || (0x61 <= c <= 0x7a)
}

pub open spec fn is_digit(c: u8) -> bool {
    0x30 <= c <= 0x39
}

/// A byte that may continue an identifier.
pub open spec fn is_ident_byte(c: u8) -> bool {
    is_letter(c) || is_digit(c) || c == 0x5f
}

/// The kind of a single-character operator or punctuation mark.
pub open spec fn punct_kind(c: u8) -> Option<TokenKind> {
    if c == 0x2b {
        Some(TokenKind::Add)
    } else if c == 0x3b {
        Some(TokenKind::Semicolon)
    } else if c == 0x28 {
        Some(TokenKind::LeftParen)
    } else if c == 0x29 {
        Some(TokenKind::RightParen)
    } else if c == 0x23 {
        Some(TokenKind::Pound)
    } else {
        None
    }
}

/// The first index from `p` on whose byte is not whitespace.
pub open spec fn skip_spaces(b: Seq<u8>, p: int) -> int
    decreases b.len() - p,
{
    if 0 <= p < b.len() && is_space(b[p]) {
        skip_spaces(b, p + 1)
    } else {
        p
    }
}

/// The first index from `p` on whose byte cannot continue an identifier.
pub open spec fn ident_end(b: Seq<u8>, p: int) -> int
    decreases b.len() - p,
{
    if 0 <= p < b.len() && is_ident_byte(b[p]) {
        ident_end(b, p + 1)
    } else {
        p
    }
}

/// The first index from `p` on whose byte is not a digit.
pub open spec fn digits_end(b: Seq<u8>, p: int) -> int
    decreases b.len() - p,
{
    if 0 <= p < b.len() && is_digit(b[p]) {
        digits_end(b, p + 1)
    } else {
        p
    }
}

/// True where the number starting at `q` has a fractional part.
pub open spec fn has_point(b: Seq<u8>, q: int) -> bool {
    byte_at(b, digits_end(b, q)) == 0x2e
}

/// The end of a number starting at `q`: its digits, and where a `.` follows
/// them, the `.` and the digits after it.
pub open spec fn number_end(b: Seq<u8>, q: int) -> int {
    if has_point(b, q) {
        digits_end(b, digits_end(b, q) + 1)
    } else {
        digits_end(b, q)
    }
}

/// The end of the lexeme that starts at `q`. The zero sentinel is an empty
/// lexeme; every other lexeme holds at least one byte.
pub open spec fn lexeme_end(b: Seq<u8>, q: int) -> int {
    let c = byte_at(b, q);
    if c == 0 {
        q
    } else if is_letter(c) {
        ident_end(b, q)
    } else if is_digit(c) {
        number_end(b, q)
    } else {
        q + 1
    }
}

/// Where the token that a scan from `p` reports starts.
pub open spec fn token_start(b: Seq<u8>, p: int) -> int {
    skip_spaces(b, p)
}

/// Where a scan from `p` leaves the cursor: past the whitespace and the lexeme.
pub open spec fn next_position(b: Seq<u8>, p: int) -> int {
    lexeme_end(b, token_start(b, p))
}

/// True where a scan from `p` reaches the end of input.
pub open spec fn at_end(b: Seq<u8>, p: int) -> bool {
    byte_at(b, token_start(b, p)) == 0
}

/// The value of a run of decimal digits.
pub open spec fn digits_value(d: Seq<u8>) -> int
    decreases d.len(),
{
    if d.len() == 0 {
        0
    } else {
        digits_value(d.drop_last()) * 10 + (d.last() - 0x30)
    }
}

/// True where the lexeme at `q` is an integer too large for 32 bits.
pub open spec fn number_overflows(b: Seq<u8>, q: int) -> bool {
    &&& is_digit(byte_at(b, q))
    &&& !has_point(b, q)
    &&& digits_value(b.subrange(q, digits_end(b, q))) > i32::MAX
}

/// True where `k` is the kind of the token whose lexeme is `lex`.
pub open spec fn kind_of_lexeme(k: TokenKind, lex: Seq<u8>) -> bool {
    let c = byte_at(lex, 0);
    if lex.len() == 0 {
        k is EOF
    } else if punct_kind(c) is Some {
        k == punct_kind(c)->Some_0
    } else if is_letter(c) {
        match keyword_of(ascii_chars(lex)) {
            Some(kw) => k == kw,
            None => k is Ident && k->Ident_0@ == ascii_chars(lex),
        }
    } else if is_digit(c) {
        if lex.contains(0x2e) {
            k is Value && k->Value_0 is Float && k->Value_0->Float_0@ == ascii_chars(lex)
        } else {
            k is Value && k->Value_0 is Int && k->Value_0->Int_0 == digits_value(lex)
        }
    } else {
        k is ILLEGAL
    }
}

/// Where each run stops: no earlier than it starts, no later than the end of
/// input, and on a byte that does not belong to it.
pub proof fn lemma_run_ends(b: Seq<u8>, p: int)
    requires
        0 <= p <= b.len(),
    ensures
        p <= skip_spaces(b, p) <= b.len(),
        !is_space(byte_at(b, skip_spaces(b, p))),
        p <= ident_end(b, p) <= b.len(),
        !is_ident_byte(byte_at(b, ident_end(b, p))),
        p <= digits_end(b, p) <= b.len(),
        !is_digit(byte_at(b, digits_end(b, p))),
        is_ident_byte(byte_at(b, p)) ==> p < ident_end(b, p),
        is_digit(byte_at(b, p)) ==> p < digits_end(b, p),
    decreases b.len() - p,
{
    if p < b.len() {
        lemma_run_ends(b, p + 1);
    }
}

/// A lexeme ends after it starts and within the input, and only the empty
/// one, at the zero sentinel, is empty.
pub proof fn lemma_lexeme_bounds(b: Seq<u8>, q: int)
    requires
        0 <= q <= b.len(),
    ensures
        q <= lexeme_end(b, q) <= b.len(),
        lexeme_end(b, q) == q <==> byte_at(b, q) == 0,
{
    lemma_run_ends(b, q);
    let d = digits_end(b, q);
    if is_digit(byte_at(b, q)) && has_point(b, q) {
        lemma_run_ends(b, d + 1);
    }
}

} // verus!
