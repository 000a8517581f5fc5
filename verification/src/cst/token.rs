//! Tokens and trivia of the concrete syntax tree.
use vstd::prelude::*;
use crate::ast::Range;
use crate::cst::diagnostic::TextRange;

verus! {

/// Classification of a single token in HOI4 script.
#[derive(Debug, Clone, PartialEq, Eq)]
pub enum TokenKind {
    OpenBrace,
    CloseBrace,
    OpEquals,
    OpLessThan,
    OpGreaterThan,
    OpNotEquals,
    OpLessOrEqual,
    OpGreaterOrEqual,
    /// Unquoted identifier.
    Ident(String),
    /// Quoted string, with escapes resolved.
    String(String),
    /// Numeric literal; its text is the token's `text`.
    Number,
    /// `yes` / `no`.
    Boolean(bool),
    Eof,
}

/// Kind of trivia (non-semantic text between tokens).
#[derive(Debug, Clone, Copy, PartialEq, Eq, Structural)]
pub enum TriviaKind {
    /// Inline whitespace (spaces, tabs), no newline.
    Whitespace,
    /// One newline: `\n`, `\r\n` or a lone `\r`.
    Newline,
    /// Comment line, from `#` to the end of the line.
    Comment,
}

/// A piece of trivia: whitespace, newline, or comment attached to a token.
#[derive(Debug, Clone)]
pub struct Trivia {
    pub kind: TriviaKind,
    pub text: String,
    pub range: Range,
    /// Byte-level range of the trivia in the source (empty when unknown).
    pub byte_range: TextRange,
}

impl Trivia {
    pub fn new(kind: TriviaKind, text: String, range: Range) -> (t: Self)
        ensures
            t.kind == kind,
            t.text@ == text@,
            t.range == range,
            t.byte_range == TextRange::empty_at(0),
    {
        Trivia { kind, text, range, byte_range: TextRange::empty(0) }
    }
}

/// A complete token with its leading trivia and position information.
#[derive(Debug, Clone)]
pub struct CstToken {
    pub kind: TokenKind,
    /// The exact source text of this token.
    pub text: String,
    /// Line/column range.
    pub range: Range,
    /// Byte-level range.
    pub byte_range: TextRange,
    /// All trivia that appears before this token.
    pub leading_trivia: Vec<Trivia>,
}

impl CstToken {
    pub fn new(
        kind: TokenKind,
        text: String,
        range: Range,
        byte_range: TextRange,
        leading_trivia: Vec<Trivia>,
    ) -> (t: Self)
        ensures
            t.kind == kind,
            t.text@ == text@,
            t.range == range,
            t.byte_range == byte_range,
            t.leading_trivia@ == leading_trivia@,
    {
        CstToken { kind, text, range, byte_range, leading_trivia }
    }
}

} // verus!
