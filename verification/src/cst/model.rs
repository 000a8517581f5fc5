//! What the concrete parser computes, stated over the token stream: the
//! parser state is the stack of tokens not yet consumed (the current token
//! last) and the diagnostics so far; each parse step maps a state to a
//! result and the next state.
use vstd::prelude::*;
use crate::ast::Range;
use crate::cst::diagnostic::{CstDiagnostic, Severity, TextRange};
use crate::cst::token::{TokenKind, TriviaKind, Trivia, CstToken};
use crate::cst::types::{CloseBrace, CstNode, CstValue, CstBlock};
use crate::numtext::finite_float_text;
use crate::text::decimal;

verus! {

/// A token as the parser sees it: its leading trivia may have lost the
/// comments the parser took out as entries.
pub struct TokenModel {
    pub kind: TokenKind,
    pub text: Seq<char>,
    pub range: Range,
    pub byte_range: TextRange,
    pub trivia: Seq<Trivia>,
}

pub struct DiagModel {
    pub message: Seq<char>,
    pub range: Range,
    pub severity: Severity,
    pub fix: Option<Seq<char>>,
}

pub enum ValueM {
    Ident(TokenModel),
    String(TokenModel),
    Number(TokenModel),
    Boolean(TokenModel),
    Block(BlockM),
    TaggedBlock(TokenModel, BlockM),
    Error(DiagModel),
}

pub enum CloseM {
    Present(TokenModel),
    Missing(DiagModel),
}

pub struct BlockM {
    pub open: TokenModel,
    pub entries: Seq<NodeM>,
    pub close: CloseM,
}

pub enum NodeM {
    Assignment(TokenModel, TokenModel, ValueM),
    EntryValue(ValueM),
    EntryComment(Trivia),
    Error(DiagModel),
}

pub open spec fn token_model(t: CstToken) -> TokenModel {
    TokenModel {
        kind: t.kind,
        text: t.text@,
        range: t.range,
        byte_range: t.byte_range,
        trivia: t.leading_trivia@,
    }
}

pub open spec fn diag_model(d: CstDiagnostic) -> DiagModel {
    DiagModel {
        message: d.message@,
        range: d.range,
        severity: d.severity,
        fix: match d.fix {
            Some(f) => Some(f@),
            None => None,
        },
    }
}

pub open spec fn value_m(v: CstValue) -> ValueM
    decreases v,
{
    match v {
        CstValue::Ident(t) => ValueM::Ident(token_model(*t)),
        CstValue::String(t) => ValueM::String(token_model(*t)),
        CstValue::Number(t) => ValueM::Number(token_model(*t)),
        CstValue::Boolean(t) => ValueM::Boolean(token_model(*t)),
        CstValue::Block(b) => ValueM::Block(block_m(b)),
        CstValue::TaggedBlock { tag, block } => ValueM::TaggedBlock(token_model(*tag), block_m(*block)),
        CstValue::Error(d) => ValueM::Error(diag_model(d)),
    }
}

pub open spec fn block_m(b: CstBlock) -> BlockM
    decreases b,
{
    BlockM {
        open: token_model(b.open_brace),
        entries: nodes_m(b.entries@),
        close: match b.close_brace {
            CloseBrace::Present(t) => CloseM::Present(token_model(t)),
            CloseBrace::Missing(d) => CloseM::Missing(diag_model(d)),
        },
    }
}

pub open spec fn nodes_m(s: Seq<CstNode>) -> Seq<NodeM>
    decreases s,
{
    if s.len() == 0 {
        Seq::empty()
    } else {
        nodes_m(s.drop_last()).push(node_m(s.last()))
    }
}

pub open spec fn node_m(n: CstNode) -> NodeM
    decreases n,
{
    match n {
        CstNode::Assignment(a) => NodeM::Assignment(token_model(a.key), token_model(a.operator), value_m(a.value)),
        CstNode::EntryValue(ev) => NodeM::EntryValue(value_m(*ev.value)),
        CstNode::EntryComment(t) => NodeM::EntryComment(t),
        CstNode::Error(d) => NodeM::Error(diag_model(d)),
    }
}

pub proof fn lemma_nodes_m(s: Seq<CstNode>)
    ensures
        nodes_m(s).len() == s.len(),
        forall|k: int| 0 <= k < s.len() ==> #[trigger] nodes_m(s)[k] == node_m(s[k]),
    decreases s.len(),
{
    if s.len() > 0 {
        lemma_nodes_m(s.drop_last());
    }
}

// ---------------------------------------------------------------------------
// Parser states
// ---------------------------------------------------------------------------

/// The tokens not yet consumed (the current one last) and the diagnostics.
pub struct PState {
    pub rest: Seq<TokenModel>,
    pub diags: Seq<DiagModel>,
}

pub open spec fn tokens_m(s: Seq<CstToken>) -> Seq<TokenModel> {
    s.map_values(|t: CstToken| token_model(t))
}

pub open spec fn diags_m(s: Seq<CstDiagnostic>) -> Seq<DiagModel> {
    s.map_values(|d: CstDiagnostic| diag_model(d))
}

/// The number of pieces of trivia on the current token.
pub open spec fn trivia_left(st: PState) -> nat {
    if st.rest.len() == 0 {
        0
    } else {
        st.rest.last().trivia.len()
    }
}

/// `b` is nearer the end of parsing than `a`: fewer tokens, or as many with
/// less trivia on the current one.
pub open spec fn progressed(b: PState, a: PState) -> bool {
    b.rest.len() < a.rest.len() || (b.rest.len() == a.rest.len() && trivia_left(b) < trivia_left(a))
}

pub open spec fn advanced(st: PState) -> PState {
    PState { rest: st.rest.drop_last(), diags: st.diags }
}

pub open spec fn error_diag(message: Seq<char>, range: Range) -> DiagModel {
    DiagModel { message, range, severity: Severity::Error, fix: None }
}

pub open spec fn emitted(st: PState, message: Seq<char>, range: Range) -> PState {
    PState { rest: st.rest, diags: st.diags.push(error_diag(message, range)) }
}

pub open spec fn zero() -> Range {
    Range { start_line: 0, start_col: 0, end_line: 0, end_col: 0 }
}

pub open spec fn is_operator_m(k: TokenKind) -> bool {
    k is OpEquals || k is OpLessThan || k is OpGreaterThan || k is OpNotEquals || k is OpLessOrEqual
        || k is OpGreaterOrEqual
}

/// How messages name a token.
pub open spec fn describe_m(t: TokenModel) -> Seq<char> {
    match t.kind {
        TokenKind::OpenBrace => "'{'"@,
        TokenKind::CloseBrace => "'}'"@,
        TokenKind::OpEquals => "'='"@,
        TokenKind::OpLessThan => "'<'"@,
        TokenKind::OpGreaterThan => "'>'"@,
        TokenKind::OpNotEquals => "'!='"@,
        TokenKind::OpLessOrEqual => "'<='"@,
        TokenKind::OpGreaterOrEqual => "'>='"@,
        TokenKind::Ident(x) => "identifier '"@ + x@ + seq!['\''],
        TokenKind::String(x) => "string \""@ + x@ + seq!['"'],
        TokenKind::Number => "number "@ + t.text,
        TokenKind::Boolean(b) => if b {
            "boolean true"@
        } else {
            "boolean false"@
        },
        TokenKind::Eof => "end of file"@,
    }
}

/// An identifier read as a value: `yes` / `no` are booleans, a finite
/// numeric literal is a number, anything else an identifier.
pub open spec fn classify_m(t: TokenModel) -> ValueM {
    if t.text == "yes"@ || t.text == "no"@ {
        ValueM::Boolean(t)
    } else if finite_float_text(t.text) {
        ValueM::Number(t)
    } else {
        ValueM::Ident(t)
    }
}

/// Index of the first comment in `tr` at or after `i`.
pub open spec fn first_comment(tr: Seq<Trivia>, i: int) -> Option<int>
    decreases tr.len() - i,
{
    if 0 <= i < tr.len() {
        if tr[i].kind == TriviaKind::Comment {
            Some(i)
        } else {
            first_comment(tr, i + 1)
        }
    } else {
        None
    }
}

/// The first comment of the current token's leading trivia, taken out.
pub open spec fn drain_m(st: PState) -> Option<(Trivia, PState)> {
    if st.rest.len() == 0 {
        None
    } else {
        let t = st.rest.last();
        match first_comment(t.trivia, 0) {
            Some(idx) => Some((
                t.trivia[idx],
                PState {
                    rest: st.rest.update(st.rest.len() - 1, TokenModel { trivia: t.trivia.remove(idx), ..t }),
                    diags: st.diags,
                },
            )),
            None => None,
        }
    }
}

// ---------------------------------------------------------------------------
// The grammar
// ---------------------------------------------------------------------------

/// An entry: a comment taken from the current token's trivia, a bare block,
/// an assignment (identifier or number, then an operator), a tagged block, a
/// bare value; none at `}` or the end of the file, and none (with an error)
/// at any other token.
pub open spec fn entry_m(st: PState) -> (Option<NodeM>, PState)
    decreases st.rest.len(), trivia_left(st), 3int,
{
    match drain_m(st) {
        Some((c, s2)) => (Some(NodeM::EntryComment(c)), s2),
        None => if st.rest.len() == 0 {
            (None, st)
        } else {
            let t = st.rest.last();
            match t.kind {
                TokenKind::OpenBrace => {
                    let (v, s2) = value_m_at(st);
                    (Some(NodeM::EntryValue(v)), s2)
                },
                TokenKind::Ident(_) | TokenKind::Number => {
                    let s1 = advanced(st);
                    if s1.rest.len() > 0 && is_operator_m(s1.rest.last().kind) {
                        let (op, v, s2) = assignment_m(s1, t);
                        (Some(NodeM::Assignment(t, op, v)), s2)
                    } else if s1.rest.len() > 0 && s1.rest.last().kind is OpenBrace {
                        let (b, s2) = block_m_at(s1);
                        (Some(NodeM::EntryValue(ValueM::TaggedBlock(t, b))), s2)
                    } else if t.kind is Ident {
                        (Some(NodeM::EntryValue(classify_m(t))), s1)
                    } else {
                        (Some(NodeM::EntryValue(ValueM::Number(t))), s1)
                    }
                },
                TokenKind::String(_) => (Some(NodeM::EntryValue(ValueM::String(t))), advanced(st)),
                TokenKind::CloseBrace => (None, st),
                TokenKind::Eof => (None, st),
                _ => (None, emitted(st, "Unexpected token: "@ + describe_m(t), t.range)),
            }
        },
    }
}

/// `op value` after the key `key`; a value that is an error is reported at
/// the key.
pub open spec fn assignment_m(st: PState, key: TokenModel) -> (TokenModel, ValueM, PState)
    decreases st.rest.len(), trivia_left(st), 2int,
{
    if st.rest.len() == 0 {
        (key, ValueM::Error(error_diag(Seq::empty(), zero())), st)
    } else {
        let op = st.rest.last();
        let (v, s2) = value_m_at(advanced(st));
        let s3 = if v is Error {
            emitted(s2, "Expected value after operator"@, key.range)
        } else {
            s2
        };
        (op, v, s3)
    }
}

/// A value: block, tagged block, identifier, string, number; an error value
/// (and a diagnostic) at `}` (consumed), the end of the file or an operator.
pub open spec fn value_m_at(st: PState) -> (ValueM, PState)
    decreases st.rest.len(), trivia_left(st), 1int,
{
    if st.rest.len() == 0 {
        (ValueM::Error(error_diag(Seq::empty(), zero())), st)
    } else {
        let t = st.rest.last();
        match t.kind {
            TokenKind::OpenBrace => {
                let (b, s2) = block_m_at(st);
                (ValueM::Block(b), s2)
            },
            TokenKind::Ident(_) => {
                let s1 = advanced(st);
                if s1.rest.len() > 0 && s1.rest.last().kind is OpenBrace {
                    let (b, s2) = block_m_at(s1);
                    (ValueM::TaggedBlock(t, b), s2)
                } else {
                    (classify_m(t), s1)
                }
            },
            TokenKind::String(_) => (ValueM::String(t), advanced(st)),
            TokenKind::Number => (ValueM::Number(t), advanced(st)),
            TokenKind::CloseBrace => (
                ValueM::Error(error_diag("Unexpected '}'"@, t.range)),
                emitted(advanced(st), "Unexpected '}'"@, t.range),
            ),
            TokenKind::Eof => (
                ValueM::Error(error_diag("Unexpected end of file"@, zero())),
                emitted(st, "Unexpected end of file"@, zero()),
            ),
            _ => {
                let m = "Unexpected operator "@ + describe_m(t) + " without key"@;
                (ValueM::Error(error_diag(m, t.range)), emitted(st, m, t.range))
            },
        }
    }
}

pub open spec fn unclosed_message(open: TokenModel) -> Seq<char> {
    "Expected '}' to close block opened at line:"@ + decimal(open.range.start_line as nat)
}

/// `{ entries }`; without its `}` the block is kept and reported.
pub open spec fn block_m_at(st: PState) -> (BlockM, PState)
    decreases st.rest.len(), trivia_left(st), 0int,
{
    if st.rest.len() == 0 {
        (BlockM { open: TokenModel { kind: TokenKind::Eof, text: Seq::empty(), range: zero(), byte_range: TextRange { start: 0, end: 0 }, trivia: Seq::empty() }, entries: Seq::empty(), close: CloseM::Missing(error_diag(Seq::empty(), zero())) }, st)
    } else {
        let open = st.rest.last();
        let (es, s2) = block_entries_m(advanced(st));
        if s2.rest.len() > 0 && s2.rest.last().kind is CloseBrace {
            (BlockM { open, entries: es, close: CloseM::Present(s2.rest.last()) }, advanced(s2))
        } else {
            let d = error_diag(unclosed_message(open), open.range);
            (BlockM { open, entries: es, close: CloseM::Missing(d) }, PState { rest: s2.rest, diags: s2.diags.push(d) })
        }
    }
}

/// The entries of a block, up to its `}`, the end of the file, or a token
/// that starts no entry.
pub open spec fn block_entries_m(st: PState) -> (Seq<NodeM>, PState)
    decreases st.rest.len(), trivia_left(st), 4int,
{
    if st.rest.len() <= 1 || st.rest.last().kind is Eof || st.rest.last().kind is CloseBrace {
        (Seq::empty(), st)
    } else {
        match entry_m(st) {
            (Some(n), s2) => if progressed(s2, st) {
                let (more, s3) = block_entries_m(s2);
                (seq![n] + more, s3)
            } else {
                (seq![n], s2)
            },
            (None, s2) => (Seq::empty(), s2),
        }
    }
}

/// Skipping tokens that start no entry, each reported; `}` and the end of
/// the file stay.
pub open spec fn skip_m(st: PState) -> PState
    decreases st.rest.len(),
{
    if st.rest.len() <= 1 {
        st
    } else {
        let t = st.rest.last();
        if t.kind is Ident || t.kind is OpenBrace || t.kind is String || t.kind is Number
            || t.kind is CloseBrace || t.kind is Eof {
            st
        } else {
            skip_m(emitted(advanced(st), "Skipping unexpected token: "@ + describe_m(t), t.range))
        }
    }
}

/// The top-level entries: comments first, a stray `}` consumed and
/// reported, a token that starts no entry skipped.
pub open spec fn script_m(st: PState) -> (Seq<NodeM>, PState)
    decreases st.rest.len(), trivia_left(st),
{
    match drain_m(st) {
        Some((c, s2)) => if progressed(s2, st) {
            let (more, s3) = script_m(s2);
            (seq![NodeM::EntryComment(c)] + more, s3)
        } else {
            (seq![NodeM::EntryComment(c)], s2)
        },
        None => if st.rest.len() <= 1 || st.rest.last().kind is Eof {
            (Seq::empty(), st)
        } else if st.rest.last().kind is CloseBrace {
            let t = st.rest.last();
            script_m(emitted(advanced(st), "Unexpected '}'"@, t.range))
        } else {
            match entry_m(st) {
                (Some(n), s2) => if progressed(s2, st) {
                    let (more, s3) = script_m(s2);
                    (seq![n] + more, s3)
                } else {
                    (seq![n], s2)
                },
                (None, s2) => {
                    let s3 = skip_m(s2);
                    if progressed(s3, st) {
                        script_m(s3)
                    } else {
                        (Seq::empty(), s3)
                    }
                },
            }
        },
    }
}

/// The parser's starting state for `tokens`: all of them, the first on top.
pub open spec fn initial_state(tokens: Seq<CstToken>) -> PState {
    PState {
        rest: Seq::new(tokens.len(), |k: int| token_model(tokens[tokens.len() - 1 - k])),
        diags: Seq::empty(),
    }
}

/// What parsing `tokens` gives: the nodes, the diagnostics, and the trivia
/// left on the end-of-file token.
pub open spec fn cst_of(tokens: Seq<CstToken>) -> (Seq<NodeM>, Seq<DiagModel>, Seq<Trivia>) {
    let (nodes, st) = script_m(initial_state(tokens));
    (nodes, st.diags, st.rest[0].trivia)
}

} // verus!
