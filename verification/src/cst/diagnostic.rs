//! Byte ranges and diagnostics of the tokenizer and the concrete parser.
use vstd::prelude::*;
use crate::ast::Range;

verus! {

/// Byte-level range in the source text.
#[derive(Debug, Clone, Copy, PartialEq, Eq, Structural)]
pub struct TextRange {
    pub start: usize,
    pub end: usize,
}

impl TextRange {
    pub open spec fn empty_at(pos: usize) -> TextRange {
        TextRange { start: pos, end: pos }
    }

    pub fn new(start: usize, end: usize) -> (r: Self)
        ensures
            r.start == start,
            r.end == end,
    {
        TextRange { start, end }
    }

    /// Empty range at a given position (for placeholders).
    pub fn empty(pos: usize) -> (r: Self)
        ensures
            r.start == pos,
            r.end == pos,
    {
        TextRange { start: pos, end: pos }
    }
}

/// Severity of a parser diagnostic.
#[derive(Debug, Clone, Copy, PartialEq, Eq, Structural)]
pub enum Severity {
    Error,
    Warning,
}

/// A diagnostic produced during tokenizing or parsing.
#[derive(Debug, Clone)]
pub struct CstDiagnostic {
    pub message: String,
    pub range: Range,
    pub severity: Severity,
    pub fix: Option<String>,
}

impl CstDiagnostic {
    pub fn error(message: String, range: Range) -> (d: Self)
        ensures
            d.message@ == message@,
            d.range == range,
            d.severity == Severity::Error,
            d.fix is None,
    {
        CstDiagnostic { message, range, severity: Severity::Error, fix: None }
    }

    pub fn warning(message: String, range: Range) -> (d: Self)
        ensures
            d.message@ == message@,
            d.range == range,
            d.severity == Severity::Warning,
            d.fix is None,
    {
        CstDiagnostic { message, range, severity: Severity::Warning, fix: None }
    }

    pub fn with_fix(self, fix: String) -> (d: Self)
        ensures
            d.message@ == self.message@,
            d.range == self.range,
            d.severity == self.severity,
            d.fix matches Some(f) && f@ == fix@,
    {
        let mut d = self;
        d.fix = Some(fix);
        d
    }
}

} // verus!
