//! Abstract syntax tree of a HOI4 script, with byte spans into the source text.
use vstd::prelude::*;
use vstd::utf8::*;
use vstd::string::*;
use crate::text::{utf8_offset, lemma_char_boundary_suffix};

verus! {

/// Byte offset range into a source document.
/// Use `.resolve(source)` to get the referenced substring.
#[derive(Debug, Clone, Copy, PartialEq, Eq, Structural)]
pub struct ByteSpan {
    pub start: usize,
    pub end: usize,
}

/// The span lies inside `bytes` and both of its ends fall on character boundaries.
pub open spec fn span_fits(start: int, end: int, bytes: Seq<u8>) -> bool {
    &&& 0 <= start <= end <= bytes.len()
    &&& is_char_boundary(bytes, start)
    &&& is_char_boundary(bytes, end)
}

impl ByteSpan {
    pub open spec fn fits(&self, source: &str) -> bool {
        span_fits(self.start as int, self.end as int, source.spec_bytes())
    }

    /// The span covers the characters `i..j` of `text`.
    pub open spec fn covers(&self, text: Seq<char>, i: int, j: int) -> bool {
        &&& 0 <= i <= j <= text.len()
        &&& self.start == utf8_offset(text, i)
        &&& self.end == utf8_offset(text, j)
    }

    /// Resolve this span against the source document text.
    /// The span must lie inside the source on character boundaries: slicing
    /// a string anywhere else panics.
    pub fn resolve<'a>(&self, source: &'a str) -> (r: &'a str)
        requires
            self.fits(source),
        ensures
            r.spec_bytes() == source.spec_bytes().subrange(self.start as int, self.end as int),
    {
        let ghost bytes = source.spec_bytes();
        proof {
            encode_utf8_valid_utf8(source@);
        }
        let (_, rest) = source.split_at(self.start);
        proof {
            lemma_char_boundary_suffix(bytes, self.start as int, self.end as int);
        }
        let (mid, _) = rest.split_at(self.end - self.start);
        proof {
            assert(mid.spec_bytes() =~= bytes.subrange(self.start as int, self.end as int));
        }
        mid
    }

    /// Returns the byte length of this span.
    pub fn len(&self) -> (r: usize)
        requires
            self.start <= self.end,
        ensures
            r == self.end - self.start,
    {
        self.end - self.start
    }
}

/// Line/column range (zero-based) used for editor positions.
#[derive(Debug, Clone, Copy, PartialEq, Eq, Structural)]
pub struct Range {
    pub start_line: u32,
    pub start_col: u32,
    pub end_line: u32,
    pub end_col: u32,
}

/// Comparison or assignment operator between a key and its value.
#[derive(Debug, Clone, Copy, PartialEq, Eq, Structural)]
pub enum Operator {
    Equals,
    LessThan,
    GreaterThan,
    NotEquals,
    LessOrEqual,
    GreaterOrEqual,
}

#[derive(Debug, Clone, Copy, PartialEq, Eq, Structural)]
pub enum DiagnosticSeverity {
    Error,
    Warning,
    Information,
    Hint,
}

#[derive(Debug, Clone, Copy, PartialEq, Eq, Structural)]
pub enum DiagnosticTag {
    Unnecessary,
    Deprecated,
}

/// A value together with its line/column range.
#[derive(Debug)]
pub struct NodeedValue {
    pub value: Value,
    pub range: Range,
}

/// A script value.
#[derive(Debug)]
pub enum Value {
    /// An unquoted identifier / plain value; its text is resolved from the
    /// source document via `ByteSpan::resolve(source)`.
    String(ByteSpan),
    /// A quoted string literal with escape sequences already resolved.
    QuotedString(String),
    /// A numeric literal; the span covers its text in the source document.
    Number(ByteSpan),
    Boolean(bool),
    Block(Vec<Entry>),
    /// A tagged block like `name = { ... }` with the tag name as a `ByteSpan`.
    TaggedBlock(ByteSpan, Vec<Entry>, Range),
}

impl Value {
    /// Get the text content of a string-like value (String or QuotedString).
    /// Returns `None` for non-string variants.
    pub fn as_str<'a>(&'a self, source: &'a str) -> (r: Option<&'a str>)
        requires
            self is String ==> self->String_0.fits(source),
        ensures
            self is String ==> (r matches Some(t) && t.spec_bytes() == source.spec_bytes().subrange(
                self->String_0.start as int,
                self->String_0.end as int,
            )),
            self is QuotedString ==> (r matches Some(t) && t@ == self->QuotedString_0@),
            !(self is String) && !(self is QuotedString) ==> r is None,
    {
        match self {
            Value::String(span) => Some(span.resolve(source)),
            Value::QuotedString(s) => Some(s.as_str()),
            _ => None,
        }
    }
}

/// `key <operator> value`.
#[derive(Debug)]
pub struct Assignment {
    /// Byte offsets for the key text in the source document.
    pub key: ByteSpan,
    /// Line/column range for the key.
    pub key_range: Range,
    pub operator: Operator,
    pub operator_range: Range,
    pub value: NodeedValue,
}

impl Assignment {
    /// Resolve the assignment key from the source document.
    pub fn key_text<'a>(&self, source: &'a str) -> (r: &'a str)
        requires
            self.key.fits(source),
        ensures
            r.spec_bytes() == source.spec_bytes().subrange(self.key.start as int, self.key.end as int),
    {
        self.key.resolve(source)
    }
}

/// An entry of a script or a block.
#[derive(Debug)]
pub enum Entry {
    Assignment(Assignment),
    Value(NodeedValue),
    /// A comment: the span covers the text after `#`, the range is its position.
    Comment(ByteSpan, Range),
}

/// A parsed script.
#[derive(Debug)]
pub struct Script {
    /// The source document text that all byte spans reference.
    pub source: String,
    pub entries: Vec<Entry>,
    /// True when at least one block in this script was implicitly closed
    /// at the end of the file.
    pub closed_by_eof: bool,
}

impl Default for Script {
    /// An empty script of an empty source.
    fn default() -> (s: Self)
        ensures
            s.source@ == Seq::<char>::empty(),
            s.entries@.len() == 0,
            !s.closed_by_eof,
    {
        Script { source: String::new(), entries: Vec::new(), closed_by_eof: false }
    }
}

#[derive(Debug, Clone)]
pub struct Location {
    pub uri: String,
    pub range: Range,
}

#[derive(Debug, Clone)]
pub struct DiagnosticRelatedInformation {
    pub location: Location,
    pub message: String,
}

} // verus!

verus! {

/// Every span in the value lies inside `bytes` on character boundaries.
pub open spec fn value_fits(v: Value, bytes: Seq<u8>) -> bool
    decreases v,
{
    match v {
        Value::String(s) => span_fits(s.start as int, s.end as int, bytes),
        Value::Number(s) => span_fits(s.start as int, s.end as int, bytes),
        Value::QuotedString(_) => true,
        Value::Boolean(_) => true,
        Value::Block(es) => forall|i: int| 0 <= i < es@.len() ==> entry_fits(#[trigger] es@[i], bytes),
        Value::TaggedBlock(t, es, _) => span_fits(t.start as int, t.end as int, bytes) && forall|i: int|
            0 <= i < es@.len() ==> entry_fits(#[trigger] es@[i], bytes),
    }
}

/// Every span in the entry lies inside `bytes` on character boundaries.
pub open spec fn entry_fits(e: Entry, bytes: Seq<u8>) -> bool
    decreases e,
{
    match e {
        Entry::Assignment(a) => span_fits(a.key.start as int, a.key.end as int, bytes) && value_fits(
            a.value.value,
            bytes,
        ),
        Entry::Value(nv) => value_fits(nv.value, bytes),
        Entry::Comment(s, _) => span_fits(s.start as int, s.end as int, bytes),
    }
}

} // verus!

verus! {

/// The characters that a span covers in `source`.
pub open spec fn span_text(source: Seq<char>, s: ByteSpan) -> Seq<char> {
    decode_utf8(encode_utf8(source).subrange(s.start as int, s.end as int))
}

/// The characters that `s` covers in `source`.
pub fn span_chars(s: &ByteSpan, source: &str) -> (r: Vec<char>)
    requires
        s.fits(source),
    ensures
        r@ == span_text(source@, *s),
{
    let t = s.resolve(source);
    let r = crate::text::chars_of(t);
    proof {
        encode_utf8_decode_utf8(t@);
    }
    r
}

} // verus!
