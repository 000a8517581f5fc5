//! Lowering of the concrete syntax tree to the abstract syntax tree.
use vstd::prelude::*;
use vstd::string::*;
use crate::ast::{self, ByteSpan, Range, Value, Entry, NodeedValue, Operator, value_fits, entry_fits};
use crate::cst::diagnostic::CstDiagnostic;
use crate::cst::token::{TokenKind, CstToken};
use crate::cst::types::{
    CstScript, CloseBrace, CstNode, CstValue, CstBlock, cst_token_fits, cst_node_fits, cst_value_fits,
    cst_block_fits,
};
use crate::text::str_is;
use crate::cst::model::{
    TokenModel, ValueM, NodeM, CloseM, value_m, node_m, nodes_m, lemma_nodes_m, cst_of, diags_m,
    diag_model,
};
use crate::cst::lexer::tokenize_post;
use crate::cst::lexmodel::{toks_m, lex};
use crate::script::{ValueModel, EntryModel, value_model, entry_model, entries_model};

verus! {

// ---------------------------------------------------------------------------
// What lowering gives, stated over the parser's model
// ---------------------------------------------------------------------------

pub open spec fn span_m(t: TokenModel) -> ByteSpan {
    ByteSpan { start: t.byte_range.start, end: t.byte_range.end }
}

pub open spec fn joined(start: Range, end: Range) -> Range {
    Range { start_line: start.start_line, start_col: start.start_col, end_line: end.end_line, end_col: end.end_col }
}

pub open spec fn close_range_m(c: CloseM) -> Range {
    match c {
        CloseM::Present(t) => t.range,
        CloseM::Missing(d) => d.range,
    }
}

pub open spec fn operator_m(k: TokenKind) -> Operator {
    match k {
        TokenKind::OpLessThan => Operator::LessThan,
        TokenKind::OpGreaterThan => Operator::GreaterThan,
        TokenKind::OpNotEquals => Operator::NotEquals,
        TokenKind::OpLessOrEqual => Operator::LessOrEqual,
        TokenKind::OpGreaterOrEqual => Operator::GreaterOrEqual,
        _ => Operator::Equals,
    }
}

/// The line/column range of a value: a token's own, a block's from its `{` (or
/// tag) to its `}` (or the report of the missing one).
pub open spec fn value_range_m(v: ValueM) -> Range {
    match v {
        ValueM::Ident(t) => t.range,
        ValueM::String(t) => t.range,
        ValueM::Number(t) => t.range,
        ValueM::Boolean(t) => t.range,
        ValueM::Block(b) => joined(b.open.range, close_range_m(b.close)),
        ValueM::TaggedBlock(tag, b) => joined(tag.range, close_range_m(b.close)),
        ValueM::Error(d) => d.range,
    }
}

/// A lowered value: identifiers and numbers by their spans, strings by their
/// unescaped content, `yes` as true, blocks by their lowered entries, and an
/// error as the empty string.
pub open spec fn lower_value_m(v: ValueM) -> ValueModel
    decreases v,
{
    match v {
        ValueM::Ident(t) => ValueModel::String(span_m(t)),
        ValueM::String(t) => ValueModel::QuotedString(
            match t.kind {
                TokenKind::String(x) => x@,
                _ => t.text,
            },
        ),
        ValueM::Number(t) => ValueModel::Number(span_m(t)),
        ValueM::Boolean(t) => ValueModel::Boolean(t.text == "yes"@),
        ValueM::Block(b) => ValueModel::Block(lower_nodes_m(b.entries)),
        ValueM::TaggedBlock(tag, b) => ValueModel::TaggedBlock(
            span_m(tag),
            lower_nodes_m(b.entries),
            joined(tag.range, close_range_m(b.close)),
        ),
        ValueM::Error(_) => ValueModel::QuotedString(Seq::empty()),
    }
}

/// A lowered node; an error node gives no entry, a comment's span starts
/// after its `#`.
pub open spec fn lower_node_m(n: NodeM) -> Option<EntryModel>
    decreases n,
{
    match n {
        NodeM::Assignment(k, op, v) => Some(
            EntryModel::Assignment(
                span_m(k),
                k.range,
                operator_m(op.kind),
                op.range,
                lower_value_m(v),
                value_range_m(v),
            ),
        ),
        NodeM::EntryValue(v) => Some(EntryModel::Value(lower_value_m(v), value_range_m(v))),
        NodeM::EntryComment(tr) => Some(
            EntryModel::Comment(
                ByteSpan { start: (tr.byte_range.start + 1) as usize, end: tr.byte_range.end },
                tr.range,
            ),
        ),
        NodeM::Error(_) => None,
    }
}

/// The lowered nodes, in order, error nodes left out.
pub open spec fn lower_nodes_m(s: Seq<NodeM>) -> Seq<EntryModel>
    decreases s,
{
    if s.len() == 0 {
        Seq::empty()
    } else {
        let init = lower_nodes_m(s.drop_last());
        match lower_node_m(s.last()) {
            Some(e) => init.push(e),
            None => init,
        }
    }
}

/// Some block of the node lacks its close brace.
pub open spec fn node_unclosed(n: CstNode) -> bool
    decreases n,
{
    match n {
        CstNode::Assignment(a) => value_unclosed(a.value),
        CstNode::EntryValue(ev) => value_unclosed(*ev.value),
        _ => false,
    }
}

/// Some block of the value lacks its close brace.
pub open spec fn value_unclosed(v: CstValue) -> bool
    decreases v,
{
    match v {
        CstValue::Block(b) => block_unclosed(b),
        CstValue::TaggedBlock { tag, block } => block_unclosed(*block),
        _ => false,
    }
}

/// The block, or a block inside it, lacks its close brace.
pub open spec fn block_unclosed(b: CstBlock) -> bool
    decreases b,
{
    ||| b.close_brace is Missing
    ||| exists|i: int| 0 <= i < b.entries@.len() && node_unclosed(#[trigger] b.entries@[i])
}

/// Number of nodes that are not error nodes.
pub open spec fn non_error_count(s: Seq<CstNode>) -> nat
    decreases s.len(),
{
    if s.len() == 0 {
        0
    } else {
        non_error_count(s.drop_last()) + if s.last() is Error {
            0nat
        } else {
            1nat
        }
    }
}

/// Map an operator token kind to the AST operator (`=` for anything else).
pub fn operator_from_token_kind(kind: &TokenKind) -> (op: Operator)
    ensures
        op == operator_m(*kind),
        op == match *kind {
            TokenKind::OpLessThan => Operator::LessThan,
            TokenKind::OpGreaterThan => Operator::GreaterThan,
            TokenKind::OpNotEquals => Operator::NotEquals,
            TokenKind::OpLessOrEqual => Operator::LessOrEqual,
            TokenKind::OpGreaterOrEqual => Operator::GreaterOrEqual,
            _ => Operator::Equals,
        },
{
    match kind {
        TokenKind::OpLessThan => Operator::LessThan,
        TokenKind::OpGreaterThan => Operator::GreaterThan,
        TokenKind::OpNotEquals => Operator::NotEquals,
        TokenKind::OpLessOrEqual => Operator::LessOrEqual,
        TokenKind::OpGreaterOrEqual => Operator::GreaterOrEqual,
        _ => Operator::Equals,
    }
}

/// The range from the start of `start` to the end of `end`.
pub fn combined_range(start: &Range, end: &Range) -> (r: Range)
    ensures
        r == joined(*start, *end),
        r == (Range {
            start_line: start.start_line,
            start_col: start.start_col,
            end_line: end.end_line,
            end_col: end.end_col,
        }),
{
    Range {
        start_line: start.start_line,
        start_col: start.start_col,
        end_line: end.end_line,
        end_col: end.end_col,
    }
}

fn token_span(t: &CstToken) -> (s: ByteSpan)
    ensures
        s == (ByteSpan { start: t.byte_range.start, end: t.byte_range.end }),
{
    ByteSpan { start: t.byte_range.start, end: t.byte_range.end }
}

/// The line/column range a value covers.
fn value_range(value: &CstValue) -> (r: Range)
    ensures
        r == value_range_m(value_m(*value)),
{
    match value {
        CstValue::Ident(t) | CstValue::String(t) | CstValue::Number(t) | CstValue::Boolean(t) => t.range,
        CstValue::Block(block) => {
            let start = block.open_brace.range;
            let end = match block.close_brace.range() {
                Some(r) => r,
                None => start,
            };
            combined_range(&start, &end)
        },
        CstValue::TaggedBlock { tag, block } => {
            let start = tag.range;
            let end = match block.close_brace.range() {
                Some(r) => r,
                None => tag.range,
            };
            combined_range(&start, &end)
        },
        CstValue::Error(diag) => diag.range,
    }
}

proof fn lemma_entries_push(es: Seq<Entry>, e: Entry)
    ensures
        entries_model(es.push(e)) == entries_model(es).push(entry_model(e)),
{
    assert(es.push(e).drop_last() =~= es);
}

/// Lowering one more node of `orig` adds its entry, if any.
proof fn lemma_lower_step(orig: Seq<CstNode>, done: int)
    requires
        0 <= done < orig.len(),
    ensures
        lower_nodes_m(nodes_m(orig.subrange(0, done + 1))) == ({
            let init = lower_nodes_m(nodes_m(orig.subrange(0, done)));
            match lower_node_m(node_m(orig[done])) {
                Some(e) => init.push(e),
                None => init,
            }
        }),
{
    let a = orig.subrange(0, done + 1);
    assert(a.drop_last() =~= orig.subrange(0, done));
    lemma_nodes_m(a);
    assert(nodes_m(a).drop_last() =~= nodes_m(orig.subrange(0, done))) by {
        lemma_nodes_m(orig.subrange(0, done));
    }
}

/// Lower a value; also reports whether a block in it lacks its close brace.
fn lower_value(value: CstValue, bytes: Ghost<Seq<u8>>) -> (r: (Value, bool))
    requires
        cst_value_fits(value, bytes@),
    ensures
        value_fits(r.0, bytes@),
        r.1 == value_unclosed(value),
        value_model(r.0) == lower_value_m(value_m(value)),
    decreases value, 0int,
{
    match value {
        CstValue::Ident(token) => (Value::String(token_span(&token)), false),
        CstValue::String(token) => {
            let content = match token.kind {
                TokenKind::String(s) => s,
                _ => token.text,
            };
            (Value::QuotedString(content), false)
        },
        CstValue::Number(token) => (Value::Number(token_span(&token)), false),
        CstValue::Boolean(token) => (Value::Boolean(str_is(token.text.as_str(), "yes")), false),
        CstValue::Block(block) => {
            let (entries, unclosed) = lower_block(block, bytes);
            (Value::Block(entries), unclosed)
        },
        CstValue::TaggedBlock { tag, block } => {
            let end = match block.close_brace.range() {
                Some(r) => r,
                None => tag.range,
            };
            let range = combined_range(&tag.range, &end);
            let span = token_span(&tag);
            let (entries, unclosed) = lower_block(*block, bytes);
            (Value::TaggedBlock(span, entries, range), unclosed)
        },
        CstValue::Error(_) => (Value::QuotedString(String::new()), false),
    }
}

/// Lower a value together with its range.
fn lower_value_to_nodeed(value: CstValue, bytes: Ghost<Seq<u8>>) -> (r: (NodeedValue, bool))
    requires
        cst_value_fits(value, bytes@),
    ensures
        value_fits(r.0.value, bytes@),
        r.1 == value_unclosed(value),
        value_model(r.0.value) == lower_value_m(value_m(value)),
        r.0.range == value_range_m(value_m(value)),
    decreases value, 1int,
{
    let range = value_range(&value);
    let (inner, unclosed) = lower_value(value, bytes);
    (NodeedValue { value: inner, range }, unclosed)
}

/// Lower the entries of a block, skipping error nodes.
fn lower_block(block: CstBlock, bytes: Ghost<Seq<u8>>) -> (r: (Vec<Entry>, bool))
    requires
        cst_block_fits(block, bytes@),
    ensures
        forall|i: int| 0 <= i < r.0@.len() ==> entry_fits(#[trigger] r.0@[i], bytes@),
        r.1 == block_unclosed(block),
        entries_model(r.0@) == lower_nodes_m(nodes_m(block.entries@)),
    decreases block, 0int,
{
    let missing = matches!(block.close_brace, CloseBrace::Missing(_));
    let ghost orig = block.entries@;
    let mut nodes = block.entries;
    let total = nodes.len();
    assert(orig.len() == total);
    let mut entries: Vec<Entry> = Vec::new();
    let mut unclosed = missing;
    // Take the nodes from the back and lower them in order.
    let mut rev: Vec<CstNode> = Vec::new();
    while nodes.len() > 0
        invariant
            nodes@ == orig.subrange(0, nodes@.len() as int),
            rev@.len() + nodes@.len() == orig.len(),
            forall|k: int| 0 <= k < rev@.len() ==> #[trigger] rev@[k] == orig[orig.len() - 1 - k],
        decreases nodes@.len(),
    {
        let n = nodes.pop().unwrap();
        rev.push(n);
    }
    let mut done: usize = 0;
    while rev.len() > 0
        invariant
            rev@.len() + done == orig.len(),
            forall|k: int| 0 <= k < rev@.len() ==> #[trigger] rev@[k] == orig[orig.len() - 1 - k],
            forall|i: int| 0 <= i < orig.len() ==> cst_node_fits(#[trigger] orig[i], bytes@),
            forall|i: int| 0 <= i < entries@.len() ==> entry_fits(#[trigger] entries@[i], bytes@),
            unclosed == (missing || exists|i: int| 0 <= i < done && node_unclosed(#[trigger] orig[i])),
            entries_model(entries@) == lower_nodes_m(nodes_m(orig.subrange(0, done as int))),
            missing == (block.close_brace is Missing),
            orig == block.entries@,
            orig.len() <= usize::MAX,
        decreases rev@.len(),
    {
        let node = rev.pop().unwrap();
        assert(node == orig[done as int]);
        assert(decreases_to!(block => node)) by {
            assert(decreases_to!(block => block.entries));
            assert(decreases_to!(block.entries => block.entries@));
            assert(decreases_to!(block.entries@ => block.entries@[done as int]));
        }
        let (entry, u) = lower_node(node, bytes);
        proof {
            lemma_lower_step(orig, done as int);
        }
        if let Some(e) = entry {
            proof {
                lemma_entries_push(entries@, e);
            }
            entries.push(e);
        }
        unclosed = unclosed || u;
        proof {
            if u {
                assert(node_unclosed(orig[done as int]));
            }
        }
        done += 1;
    }
    assert(orig.subrange(0, done as int) =~= orig);
    (entries, unclosed)
}

/// Lower a node; error nodes give no entry.
fn lower_node(node: CstNode, bytes: Ghost<Seq<u8>>) -> (r: (Option<Entry>, bool))
    requires
        cst_node_fits(node, bytes@),
    ensures
        r.0 matches Some(e) ==> entry_fits(e, bytes@),
        r.0 is None <==> node is Error,
        r.1 == node_unclosed(node),
        (match r.0 {
            Some(e) => Some(entry_model(e)),
            None => None,
        }) == lower_node_m(node_m(node)),
    decreases node, 0int,
{
    match node {
        CstNode::Assignment(ass) => {
            let operator = operator_from_token_kind(&ass.operator.kind);
            let key = token_span(&ass.key);
            let key_range = ass.key.range;
            let operator_range = ass.operator.range;
            let (value, u) = lower_value_to_nodeed(ass.value, bytes);
            (
                Some(Entry::Assignment(ast::Assignment { key, key_range, operator, operator_range, value })),
                u,
            )
        },
        CstNode::EntryValue(ev) => {
            let (nodeed, u) = lower_value_to_nodeed(*ev.value, bytes);
            (Some(Entry::Value(nodeed)), u)
        },
        CstNode::EntryComment(trivia) => {
            // The comment's text begins after its one-byte `#`.
            let span = ByteSpan { start: trivia.byte_range.start + 1, end: trivia.byte_range.end };
            (Some(Entry::Comment(span, trivia.range)), false)
        },
        CstNode::Error(_) => (None, false),
    }
}

} // verus!

verus! {

/// Convert a CST to the AST, and its diagnostics to `(message, range)` pairs.
/// Error nodes give no entries; the script is marked `closed_by_eof` when some
/// block lacks its close brace (the parser only gives up on one at the end of
/// the file).
pub fn lower(cst: CstScript, source: &str) -> (r: (ast::Script, Vec<(String, Range)>))
    requires
        forall|k: int| 0 <= k < cst.nodes@.len() ==> cst_node_fits(#[trigger] cst.nodes@[k], source.spec_bytes()),
    ensures
        r.0.source@ == source@,
        forall|i: int| 0 <= i < r.0.entries@.len() ==> entry_fits(#[trigger] r.0.entries@[i], source.spec_bytes()),
        r.0.entries@.len() == non_error_count(cst.nodes@),
        entries_model(r.0.entries@) == lower_nodes_m(nodes_m(cst.nodes@)),
        r.0.closed_by_eof == exists|k: int| 0 <= k < cst.nodes@.len() && node_unclosed(#[trigger] cst.nodes@[k]),
        r.1@.len() == cst.diagnostics@.len(),
        forall|k: int| 0 <= k < r.1@.len() ==> (#[trigger] r.1@[k]).0@ == cst.diagnostics@[k].message@
            && r.1@[k].1 == cst.diagnostics@[k].range,
{
    let ghost bytes = source.spec_bytes();
    let mut diagnostics: Vec<(String, Range)> = Vec::new();
    let mut k: usize = 0;
    while k < cst.diagnostics.len()
        invariant
            k <= cst.diagnostics@.len(),
            diagnostics@.len() == k,
            forall|j: int| 0 <= j < k ==> (#[trigger] diagnostics@[j]).0@ == cst.diagnostics@[j].message@
                && diagnostics@[j].1 == cst.diagnostics@[j].range,
        decreases cst.diagnostics@.len() - k,
    {
        let d = &cst.diagnostics[k];
        diagnostics.push((d.message.clone(), d.range));
        k += 1;
    }
    let ghost orig = cst.nodes@;
    let mut nodes = cst.nodes;
    let mut rev: Vec<CstNode> = Vec::new();
    while nodes.len() > 0
        invariant
            nodes@ == orig.subrange(0, nodes@.len() as int),
            rev@.len() + nodes@.len() == orig.len(),
            forall|k: int| 0 <= k < rev@.len() ==> #[trigger] rev@[k] == orig[orig.len() - 1 - k],
        decreases nodes@.len(),
    {
        let n = nodes.pop().unwrap();
        rev.push(n);
    }
    let mut entries: Vec<Entry> = Vec::new();
    let mut closed_by_eof = false;
    let mut done: usize = 0;
    let total = rev.len();
    while rev.len() > 0
        invariant
            rev@.len() + done == orig.len(),
            total == orig.len(),
            forall|k: int| 0 <= k < rev@.len() ==> #[trigger] rev@[k] == orig[orig.len() - 1 - k],
            forall|i: int| 0 <= i < orig.len() ==> cst_node_fits(#[trigger] orig[i], bytes),
            forall|i: int| 0 <= i < entries@.len() ==> entry_fits(#[trigger] entries@[i], bytes),
            entries@.len() == non_error_count(orig.subrange(0, done as int)),
            entries_model(entries@) == lower_nodes_m(nodes_m(orig.subrange(0, done as int))),
            closed_by_eof == exists|i: int| 0 <= i < done && node_unclosed(#[trigger] orig[i]),
        decreases rev@.len(),
    {
        let node = rev.pop().unwrap();
        assert(node == orig[done as int]);
        let (entry, u) = lower_node(node, Ghost(bytes));
        proof {
            assert(orig.subrange(0, done + 1).drop_last() =~= orig.subrange(0, done as int));
            lemma_lower_step(orig, done as int);
        }
        if let Some(e) = entry {
            proof {
                lemma_entries_push(entries@, e);
            }
            entries.push(e);
        }
        closed_by_eof = closed_by_eof || u;
        done += 1;
    }
    assert(orig.subrange(0, done as int) =~= orig);
    let script = ast::Script { source: source.to_owned(), entries, closed_by_eof };
    (script, diagnostics)
}

/// Tokenize, parse and lower a script: the CST pipeline.  Every span of the
/// result lies inside the input on character boundaries, so resolving it
/// against the input cannot fail.
pub fn parse_and_lower(input: &str) -> (r: (ast::Script, Vec<(String, Range)>))
    requires
        input.spec_bytes().len() <= u32::MAX,
    ensures
        r.0.source@ == input@,
        forall|i: int| 0 <= i < r.0.entries@.len() ==> entry_fits(#[trigger] r.0.entries@[i], input.spec_bytes()),
        exists|tokens: Seq<CstToken>, lexed: Seq<CstDiagnostic>|
            {
                &&& #[trigger] tokenize_post(input, tokens, lexed)
                &&& toks_m(tokens) == lex(input@).0
                &&& entries_model(r.0.entries@) == lower_nodes_m(cst_of(tokens).0)
                &&& r.1@.len() == cst_of(tokens).1.len()
                &&& forall|k: int| 0 <= k < r.1@.len() ==> (#[trigger] r.1@[k]).0@ == cst_of(tokens).1[k].message
                    && r.1@[k].1 == cst_of(tokens).1[k].range
            },
{
    let (tokens, lexed) = crate::cst::lexer::tokenize(input);
    let ghost toks = tokens@;
    let ghost bytes = input.spec_bytes();
    proof {
        assert forall|k: int| 0 <= k < tokens@.len() implies cst_token_fits(#[trigger] tokens@[k], bytes) by {
            assert(crate::cst::lexer::token_in_source(tokens@[k], bytes));
            assert forall|j: int| 0 <= j < tokens@[k].leading_trivia@.len() implies crate::cst::lexer::trivia_in_source(
                #[trigger] tokens@[k].leading_trivia@[j],
                bytes,
            ) by {
                assert(crate::cst::lexer::trivia_agrees(tokens@[k].leading_trivia@[j]));
            }
        }
    }
    let cst = crate::cst::parser::parse_tokens(tokens, Ghost(bytes), Ghost(true));
    let ghost cd = cst.diagnostics@;
    let r = lower(cst, input);
    proof {
        assert(diags_m(cd).len() == cd.len());
        assert forall|k: int| 0 <= k < r.1@.len() implies (#[trigger] r.1@[k]).0@ == cst_of(toks).1[k].message
            && r.1@[k].1 == cst_of(toks).1[k].range by {
            assert(diags_m(cd)[k] == diag_model(cd[k]));
        }
        assert(tokenize_post(input, toks, lexed@));
    }
    r
}

} // verus!
