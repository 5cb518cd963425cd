use vstd::prelude::*;
use vstd::string::StringSliceAdditionalSpecFns;
use vstd::utf8::*;
use crate::scan::{
    byte_at, digits_end, digits_value, ident_end, is_digit, is_ident_byte, is_letter, is_space,
    kind_of_lexeme, lemma_run_ends, next_position, number_end, number_overflows, skip_spaces,
    token_start,
};
use crate::text::{ascii_chars, is_ascii_byte, lemma_ascii_boundary, lemma_decode_ascii};
use crate::tokens::{lookup_keyword, LexError, Token, TokenKind, Value};

verus! {

/// What a lexer is: the bytes it scans and its cursor.
pub struct LexerView {
    pub input: Seq<u8>,
    pub position: nat,
    pub read_position: nat,
    pub ch: u8,
}

/// Turns source text into tokens, one per call of `next_token`.
pub struct Lexer<'a> {
    input: &'a str,
    position: usize,
    read_position: usize,
    ch: u8,
}

impl<'a> View for Lexer<'a> {
    type V = LexerView;

    closed spec fn view(&self) -> LexerView {
        LexerView {
            input: self.input.spec_bytes(),
            position: self.position as nat,
            read_position: self.read_position as nat,
            ch: self.ch,
        }
    }
}

fn is_space_byte(c: u8) -> (r: bool)
    ensures
        r == is_space(c),
{
    // space, tab, line feed, form feed, carriage return
    c == 0x20 || c == 0x09 || c == 0x0a || c == 0x0c || c == 0x0d
}

fn is_letter_byte(c: u8) -> (r: bool)
    ensures
        r == is_letter(c),
{
    // 'A'..='Z' or 'a'..='z'
    (0x41 <= c && c <= 0x5a) || (0x61 <= c && c <= 0x7a)
}

fn is_digit_byte(c: u8) -> (r: bool)
    ensures
        r == is_digit(c),
{
    // '0'..='9'
    0x30 <= c && c <= 0x39
}

impl<'a> Lexer<'a> {
    /// The cursor is consistent: `ch` is the byte at `position` (zero past
    /// the end), `read_position` is one further on, and both fit in `usize`.
    pub open spec fn wf(&self) -> bool {
        &&& self@.read_position == self@.position + 1
        &&& self@.position <= self@.input.len()
        &&& self@.input.len() < usize::MAX
        &&& self@.ch == byte_at(self@.input, self@.position as int)
    }

    /// A lexer over `input` whose current byte is the first one.
    pub fn new(input: &'a str) -> (r: Self)
        requires
            input.len() < usize::MAX,
        ensures
            r.wf(),
            r@.input == input.spec_bytes(),
            r@.position == 0,
    {
        let mut result = Lexer { input, position: 0, read_position: 0, ch: 0 };
        let bytes = result.input.as_bytes();
        if result.read_position >= bytes.len() {
            result.ch = 0;
        } else {
            result.ch = bytes[result.read_position];
        }
        result.position = result.read_position;
        result.read_position = result.read_position + 1;
        result
    }

    /// Moves the cursor one byte on.
    pub fn read_char(&mut self)
        requires
            old(self).wf(),
            old(self)@.position < old(self)@.input.len(),
        ensures
            final(self).wf(),
            final(self)@.input == old(self)@.input,
            final(self)@.position == old(self)@.position + 1,
    {
        let bytes = self.input.as_bytes();
        if self.read_position >= bytes.len() {
            self.ch = 0;
        } else {
            self.ch = bytes[self.read_position];
        }
        self.position = self.read_position;
        self.read_position = self.read_position + 1;
    }

    /// The offset of the current byte.
    pub fn position(&self) -> (r: usize)
        ensures
            r == self@.position,
    {
        self.position
    }

    /// The byte after the current one, or zero past the end.
    pub fn peek_char(&self) -> (r: u8)
        ensures
            r == byte_at(self@.input, self@.read_position as int),
    {
        let bytes = self.input.as_bytes();
        if self.read_position >= bytes.len() {
            0
        } else {
            bytes[self.read_position]
        }
    }

    fn skip_whitespace(&mut self)
        requires
            old(self).wf(),
        ensures
            final(self).wf(),
            final(self)@.input == old(self)@.input,
            final(self)@.position == skip_spaces(old(self)@.input, old(self)@.position as int),
    {
        while is_space_byte(self.ch)
            invariant
                self.wf(),
                self@.input == old(self)@.input,
                skip_spaces(self@.input, self@.position as int) == skip_spaces(
                    old(self)@.input,
                    old(self)@.position as int,
                ),
            decreases self@.input.len() - self@.position,
        {
            self.read_char();
        }
    }

    /// Scans past whitespace and returns the token that starts there,
    /// leaving the cursor after its lexeme. At the end of input (or at a
    /// zero byte) it returns `EOF` and stays where it is, on every call.
    /// A run of digits too large for a 32-bit signed integer is an error.
    pub fn next_token(&mut self) -> (r: Result<Token, LexError>)
        requires
            old(self).wf(),
        ensures
            final(self).wf(),
            final(self)@.input == old(self)@.input,
            final(self)@.position == next_position(old(self)@.input, old(self)@.position as int),
            r is Err <==> number_overflows(
                old(self)@.input,
                token_start(old(self)@.input, old(self)@.position as int),
            ),
            r matches Ok(t) ==> {
                &&& t.location == token_start(old(self)@.input, old(self)@.position as int)
                &&& t.location <= old(self)@.input.len()
                &&& kind_of_lexeme(
                    t.kind,
                    old(self)@.input.subrange(t.location as int, final(self)@.position as int),
                )
            },
            r matches Err(LexError::MalformedNumber { text, location }) ==> {
                &&& location == token_start(old(self)@.input, old(self)@.position as int)
                &&& text@ == ascii_chars(
                    old(self)@.input.subrange(location as int, final(self)@.position as int),
                )
            },
    {
        proof {
            lemma_run_ends(self@.input, self@.position as int);
        }
        self.skip_whitespace();
        let location = self.position;
        let kind = match self.ch {
            // '+'
            0x2b => TokenKind::Add,
            // ';'
            0x3b => TokenKind::Semicolon,
            // '('
            0x28 => TokenKind::LeftParen,
            // ')'
            0x29 => TokenKind::RightParen,
            // '#'
            0x23 => TokenKind::Pound,
            0 => {
                proof {
                    assert(self@.input.subrange(location as int, location as int) =~= Seq::<u8>::empty());
                }
                return Ok(Token { location, kind: TokenKind::EOF });
            },
            a => {
                if is_letter_byte(a) {
                    let name = self.read_identifier();
                    let kind = match lookup_keyword(TokenKind::Ident(name.clone())) {
                        Some(keyword) => keyword,
                        None => TokenKind::Ident(name),
                    };
                    proof {
                        lemma_run_ends(self@.input, location as int);
                        let lex = self@.input.subrange(location as int, self@.position as int);
                        assert(lex[0] == a);
                    }
                    return Ok(Token { location, kind });
                } else if is_digit_byte(a) {
                    return match self.read_number() {
                        Ok(kind) => Ok(Token { location, kind }),
                        Err(e) => Err(e),
                    };
                } else {
                    TokenKind::ILLEGAL
                }
            },
        };
        self.read_char();
        proof {
            let lex = self@.input.subrange(location as int, self@.position as int);
            assert(lex =~= seq![self@.input[location as int]]);
        }
        Ok(Token { location, kind })
    }

    /// The text of the bytes in `start..end`, all of them ASCII.
    fn span_text(&self, start: usize, end: usize) -> (r: String)
        requires
            self.wf(),
            start < end <= self@.input.len(),
            forall|k: int| start <= k < end ==> is_ascii_byte(#[trigger] self@.input[k]),
        ensures
            r@ == ascii_chars(self@.input.subrange(start as int, end as int)),
    {
        let b = Ghost(self.input.spec_bytes());
        proof {
            encode_utf8_valid_utf8(self.input@);
            lemma_ascii_boundary(b@, start as int);
        }
        let (_, rest) = self.input.split_at(start);
        proof {
            encode_utf8_valid_utf8(rest@);
            assert(rest.spec_bytes()[end - start - 1] == b@[end - 1]);
            lemma_ascii_boundary(rest.spec_bytes(), end - start);
        }
        let (piece, _) = rest.split_at(end - start);
        proof {
            let sub = b@.subrange(start as int, end as int);
            assert(piece.spec_bytes() =~= sub);
            assert forall|k: int| 0 <= k < sub.len() implies is_ascii_byte(#[trigger] sub[k]) by {
                assert(sub[k] == b@[start + k]);
            }
            lemma_decode_ascii(sub);
            encode_utf8_decode_utf8(piece@);
        }
        piece.to_owned()
    }

    /// Reads the identifier that starts at the current byte.
    fn read_identifier(&mut self) -> (r: String)
        requires
            old(self).wf(),
            is_letter(old(self)@.ch),
        ensures
            final(self).wf(),
            final(self)@.input == old(self)@.input,
            final(self)@.position == ident_end(old(self)@.input, old(self)@.position as int),
            r@ == ascii_chars(old(self)@.input.subrange(old(self)@.position as int, final(self)@.position as int)),
    {
        let position = self.position;
        while is_letter_byte(self.ch) || is_digit_byte(self.ch) || self.ch == 0x5f
            invariant
                self.wf(),
                self@.input == old(self)@.input,
                position == old(self)@.position,
                position <= self@.position,
                ident_end(self@.input, self@.position as int) == ident_end(self@.input, position as int),
                forall|k: int| position <= k < self@.position ==> is_ident_byte(#[trigger] self@.input[k]),
            decreases self@.input.len() - self@.position,
        {
            self.read_char();
        }
        proof {
            assert(is_ident_byte(self@.input[position as int]));
        }
        self.span_text(position, self.position)
    }

    /// Reads the number that starts at the current byte: an `Int` for a run
    /// of digits that fits in 32 bits, a `Float` where a `.` follows them.
    fn read_number(&mut self) -> (r: Result<TokenKind, LexError>)
        requires
            old(self).wf(),
            is_digit(old(self)@.ch),
        ensures
            final(self).wf(),
            final(self)@.input == old(self)@.input,
            final(self)@.position == number_end(old(self)@.input, old(self)@.position as int),
            r is Err <==> number_overflows(old(self)@.input, old(self)@.position as int),
            r matches Ok(k) ==> kind_of_lexeme(
                k,
                old(self)@.input.subrange(old(self)@.position as int, final(self)@.position as int),
            ),
            r matches Err(LexError::MalformedNumber { text, location }) ==> {
                &&& location == old(self)@.position
                &&& text@ == ascii_chars(
                    old(self)@.input.subrange(location as int, final(self)@.position as int),
                )
            },
    {
        let position = self.position;
        let mut value: u64 = 0;
        let mut too_big = false;
        while is_digit_byte(self.ch)
            invariant
                self.wf(),
                self@.input == old(self)@.input,
                position == old(self)@.position,
                position <= self@.position,
                digits_end(self@.input, self@.position as int) == digits_end(self@.input, position as int),
                forall|k: int| position <= k < self@.position ==> is_digit(#[trigger] self@.input[k]),
                too_big == (digits_value(self@.input.subrange(position as int, self@.position as int))
                    > i32::MAX),
                !too_big ==> value == digits_value(
                    self@.input.subrange(position as int, self@.position as int),
                ),
            decreases self@.input.len() - self@.position,
        {
            let ghost before = self@.input.subrange(position as int, self@.position as int);
            let ghost after = self@.input.subrange(position as int, self@.position + 1 as int);
            proof {
                assert(after.drop_last() =~= before);
                assert(after.last() == self.ch);
            }
            if !too_big {
                let next = value * 10 + (self.ch - 0x30) as u64;
                if next > i32::MAX as u64 {
                    too_big = true;
                } else {
                    value = next;
                }
            }
            self.read_char();
        }
        proof {
            assert(is_digit(self@.input[position as int]));
        }
        if self.ch == 0x2e {
            // '.'
            Ok(self.read_float(position))
        } else {
            proof {
                let lex = self@.input.subrange(position as int, self@.position as int);
                assert(!lex.contains(0x2e)) by {
                    if lex.contains(0x2e) {
                        let k = choose|k: int| 0 <= k < lex.len() && lex[k] == 0x2e;
                        assert(lex[k] == self@.input[position + k]);
                    }
                }
            }
            if too_big {
                Err(
                    LexError::MalformedNumber {
                        text: self.span_text(position, self.position),
                        location: position,
                    },
                )
            } else {
                Ok(TokenKind::Value(Value::Int(value as i32)))
            }
        }
    }

    /// Reads the `.` at the cursor and the digits after it, and returns the
    /// literal that began at `start`.
    fn read_float(&mut self, start: usize) -> (r: TokenKind)
        requires
            old(self).wf(),
            old(self)@.ch == 0x2e,
            start < old(self)@.position,
            forall|k: int| start <= k < old(self)@.position ==> is_digit(#[trigger] old(self)@.input[k]),
        ensures
            final(self).wf(),
            final(self)@.input == old(self)@.input,
            final(self)@.position == digits_end(old(self)@.input, old(self)@.position + 1 as int),
            kind_of_lexeme(r, old(self)@.input.subrange(start as int, final(self)@.position as int)),
    {
        self.read_char();
        let after_point = self.position;
        while is_digit_byte(self.ch)
            invariant
                self.wf(),
                self@.input == old(self)@.input,
                after_point == old(self)@.position + 1,
                after_point <= self@.position,
                digits_end(self@.input, self@.position as int) == digits_end(self@.input, after_point as int),
                forall|k: int| after_point <= k < self@.position ==> is_digit(#[trigger] self@.input[k]),
            decreases self@.input.len() - self@.position,
        {
            self.read_char();
        }
        proof {
            let lex = self@.input.subrange(start as int, self@.position as int);
            assert(lex[after_point - 1 - start] == 0x2e);
            assert forall|k: int| start <= k < self@.position implies is_ascii_byte(#[trigger] self@.input[k]) by {
                if k != after_point - 1 {
                    assert(is_digit(self@.input[k]));
                }
            }
            assert(is_digit(byte_at(lex, 0)));
        }
        TokenKind::Value(Value::Float(self.span_text(start, self.position)))
    }
}

} // verus!
