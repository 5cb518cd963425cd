use vstd::prelude::*;

verus! {

/// A literal that a program pushes onto the execution stack.
#[derive(Debug, PartialEq)]
pub enum Value {
    String(String),
    Int(i32),
    /// A decimal literal such as `3.14`, kept as written; its 32-bit float
    /// value is what `str::parse::<f32>` gives for this text.
    Float(String),
}

#[derive(Debug, PartialEq)]
pub enum TokenKind {
    // literals
    Value(Value),  // pushed onto and popped from the stack
    Ident(String),  // names of closures
    // syntax
    LeftParen,  // begins a closure
    RightParen,  // ends a closure
    Semicolon,  // clears the tape
    Pound,  // begins the definition of a named closure
    // tape operators
    Left,  // moves the tape index left
    Right,  // moves the tape index right
    // stack operators
    Add,  // pops two values and pushes their sum
    Pop,  // pops one value and discards it
    Concat,  // pops two strings and pushes their concatenation
    Out,  // pops a string and prints it
    Fmt,  // formats a string from popped values, one for each `$`
    // special
    EOF,  // end of input
    ILLEGAL,  // a byte that starts no token
}

/// One token, with the byte offset in the source where it starts.
#[derive(Debug, PartialEq)]
pub struct Token {
    pub location: usize,
    pub kind: TokenKind,
}

/// A failure that ends the scan.
#[derive(Debug, PartialEq)]
pub enum LexError {
    /// A run of digits that is no 32-bit signed integer, with its text and
    /// the offset where it starts.
    MalformedNumber { text: String, location: usize },
}

/// The reserved word spelled by `name`, if any.
pub open spec fn keyword_of(name: Seq<char>) -> Option<TokenKind> {
    if name == seq!['o', 'u', 't'] {
        Some(TokenKind::Out)
    } else if name == seq!['f', 'm', 't'] {
        Some(TokenKind::Fmt)
    } else {
        None
    }
}

/// Looks up the reserved word that an identifier spells.
pub fn lookup_keyword(ident: TokenKind) -> (r: Option<TokenKind>)
    requires
        ident is Ident,
    ensures
        r == keyword_of(ident->Ident_0@),
{
    match ident {
        TokenKind::Ident(literal) => {
            proof {
                reveal_strlit("out");
                reveal_strlit("fmt");
                assert("out"@ =~= seq!['o', 'u', 't']);
                assert("fmt"@ =~= seq!['f', 'm', 't']);
            }
            if literal == "out".to_owned() {
                Some(TokenKind::Out)
            } else if literal == "fmt".to_owned() {
                Some(TokenKind::Fmt)
            } else {
                None
            }
        },
        _ => None,
    }
}

} // verus!
