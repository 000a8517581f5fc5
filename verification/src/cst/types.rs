//! Nodes of the concrete syntax tree.
use vstd::prelude::*;
use crate::ast::Range;
use crate::cst::diagnostic::CstDiagnostic;
use crate::cst::token::{CstToken, Trivia, TriviaKind};
use crate::text::literal;
use crate::ast::span_fits;
use crate::cst::lexer::trivia_in_source;

verus! {

/// A complete HOI4 script CST.
#[derive(Debug)]
pub struct CstScript {
    /// Top-level nodes (entries at the script root).
    pub nodes: Vec<CstNode>,
    /// Diagnostics produced during parsing.
    pub diagnostics: Vec<CstDiagnostic>,
    /// Trailing trivia after the last token.
    pub trailing_trivia: Vec<Trivia>,
}

/// The state of a closing brace: present, or missing (error recovery).
#[derive(Debug)]
pub enum CloseBrace {
    Present(CstToken),
    Missing(CstDiagnostic),
}

impl CloseBrace {
    pub open spec fn spec_range(&self) -> Range {
        match self {
            CloseBrace::Present(t) => t.range,
            CloseBrace::Missing(d) => d.range,
        }
    }

    pub fn range(&self) -> (r: Option<Range>)
        ensures
            r == Some(self.spec_range()),
    {
        match self {
            CloseBrace::Present(t) => Some(t.range),
            CloseBrace::Missing(d) => Some(d.range),
        }
    }
}

/// A node of the CST: an assignment, bare value, comment, or error.
#[derive(Debug)]
pub enum CstNode {
    /// `key = value`
    Assignment(CstAssignment),
    /// A bare value with no key (e.g. a bare block or bare identifier).
    EntryValue(CstEntryValue),
    /// A standalone comment line.
    EntryComment(Trivia),
    /// A parse error recovered at the entry level.
    Error(CstDiagnostic),
}

/// `key = value`
#[derive(Debug)]
pub struct CstAssignment {
    pub key: CstToken,
    /// The operator token; its leading trivia holds the whitespace after the key.
    pub operator: CstToken,
    pub value: CstValue,
}

/// A bare value entry (no key, no operator).
#[derive(Debug)]
pub struct CstEntryValue {
    pub value: Box<CstValue>,
}

impl CstEntryValue {
    pub fn new(value: CstValue) -> (r: Self)
        ensures
            *r.value == value,
    {
        CstEntryValue { value: Box::new(value) }
    }
}

/// A value in the CST.
#[derive(Debug)]
pub enum CstValue {
    /// Unquoted identifier.
    Ident(Box<CstToken>),
    /// Quoted string (escapes resolved in the token kind).
    String(Box<CstToken>),
    /// Numeric literal.
    Number(Box<CstToken>),
    /// `yes` / `no`.
    Boolean(Box<CstToken>),
    /// `{ ... }`
    Block(CstBlock),
    /// `identifier { ... }`
    TaggedBlock { tag: Box<CstToken>, block: Box<CstBlock> },
    /// Placeholder for a missing or erroneous value.
    Error(CstDiagnostic),
}

/// A block: `{ entries }`, possibly with a missing close brace.
#[derive(Debug)]
pub struct CstBlock {
    pub open_brace: CstToken,
    pub entries: Vec<CstNode>,
    pub close_brace: CloseBrace,
}

impl CstBlock {
    /// A block with no entries whose close brace is still missing.
    pub fn new(open_brace: CstToken) -> (r: Self)
        ensures
            r.open_brace == open_brace,
            r.entries@.len() == 0,
            r.close_brace matches CloseBrace::Missing(d) && d.range == (Range {
                start_line: 0,
                start_col: 0,
                end_line: 0,
                end_col: 0,
            }) && d.message@ == "Unclosed block"@ && d.severity == crate::cst::diagnostic::Severity::Error
                && d.fix is None,
    {
        CstBlock {
            open_brace,
            entries: Vec::new(),
            close_brace: CloseBrace::Missing(
                CstDiagnostic::error(
                    literal("Unclosed block"),
                    Range { start_line: 0, start_col: 0, end_line: 0, end_col: 0 },
                ),
            ),
        }
    }
}

} // verus!

verus! {

/// The token and its leading trivia lie inside the source on character boundaries.
pub open spec fn cst_token_fits(t: CstToken, bytes: Seq<u8>) -> bool {
    &&& span_fits(t.byte_range.start as int, t.byte_range.end as int, bytes)
    &&& forall|j: int|
        0 <= j < t.leading_trivia@.len() ==> trivia_in_source(#[trigger] t.leading_trivia@[j], bytes)
}

/// Every token and comment of the node lies inside the source.
pub open spec fn cst_node_fits(n: CstNode, bytes: Seq<u8>) -> bool
    decreases n,
{
    match n {
        CstNode::Assignment(a) => cst_token_fits(a.key, bytes) && cst_token_fits(a.operator, bytes)
            && cst_value_fits(a.value, bytes),
        CstNode::EntryValue(ev) => cst_value_fits(*ev.value, bytes),
        CstNode::EntryComment(tr) => tr.kind == TriviaKind::Comment && trivia_in_source(tr, bytes),
        CstNode::Error(_) => true,
    }
}

/// Every token and comment of the value lies inside the source.
pub open spec fn cst_value_fits(v: CstValue, bytes: Seq<u8>) -> bool
    decreases v,
{
    match v {
        CstValue::Ident(t) => cst_token_fits(*t, bytes),
        CstValue::String(t) => cst_token_fits(*t, bytes),
        CstValue::Number(t) => cst_token_fits(*t, bytes),
        CstValue::Boolean(t) => cst_token_fits(*t, bytes),
        CstValue::Block(b) => cst_block_fits(b, bytes),
        CstValue::TaggedBlock { tag, block } => cst_token_fits(*tag, bytes) && cst_block_fits(*block, bytes),
        CstValue::Error(_) => true,
    }
}

/// Every token and comment of the block lies inside the source.
pub open spec fn cst_block_fits(b: CstBlock, bytes: Seq<u8>) -> bool
    decreases b,
{
    &&& cst_token_fits(b.open_brace, bytes)
    &&& forall|i: int| 0 <= i < b.entries@.len() ==> cst_node_fits(#[trigger] b.entries@[i], bytes)
    &&& (b.close_brace matches CloseBrace::Present(t) ==> cst_token_fits(t, bytes))
}

} // verus!
