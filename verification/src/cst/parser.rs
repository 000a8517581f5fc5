//! CST parser: recursive descent over the token stream with error recovery.
use vstd::prelude::*;
use crate::ast::Range;
use crate::cst::diagnostic::{CstDiagnostic, Severity};
use crate::cst::token::{TokenKind, TriviaKind, Trivia, CstToken};
use crate::cst::types::{
    CstScript, CloseBrace, CstNode, CstAssignment, CstEntryValue, CstValue, CstBlock, cst_token_fits,
    cst_node_fits, cst_value_fits, cst_block_fits,
};
use crate::cst::lexer::trivia_in_source;
use crate::cst::model::{
    PState, TokenModel, NodeM, token_model, diag_model, value_m, node_m, nodes_m, block_m, tokens_m,
    diags_m, advanced, emitted, describe_m, is_operator_m, first_comment, drain_m, entry_m, assignment_m,
    value_m_at, block_m_at, block_entries_m, skip_m, script_m, progressed, zero, initial_state, cst_of,
};
use crate::numtext::{finite_float_text, is_finite_float_text};
use crate::text::{literal, chars_of, str_is, u32_to_decimal, append_str, push_char};

verus! {

/// Classify an identifier token: `yes` / `no` are booleans, a finite numeric
/// literal is a number, anything else stays an identifier.
pub fn classify_ident(token: CstToken) -> (v: CstValue)
    ensures
        (token.text@ == "yes"@ || token.text@ == "no"@) ==> v == CstValue::Boolean(Box::new(token)),
        !(token.text@ == "yes"@ || token.text@ == "no"@) && finite_float_text(token.text@) ==> v
            == CstValue::Number(Box::new(token)),
        !(token.text@ == "yes"@ || token.text@ == "no"@) && !finite_float_text(token.text@) ==> v
            == CstValue::Ident(Box::new(token)),
{
    if str_is(token.text.as_str(), "yes") || str_is(token.text.as_str(), "no") {
        return CstValue::Boolean(Box::new(token));
    }
    let cs = chars_of(token.text.as_str());
    if is_finite_float_text(&cs, 0, cs.len()) {
        assert(cs@.subrange(0, cs@.len() as int) =~= token.text@);
        return CstValue::Number(Box::new(token));
    }
    assert(cs@.subrange(0, cs@.len() as int) =~= token.text@);
    CstValue::Ident(Box::new(token))
}

/// A short description of a token for messages.
fn describe(t: &CstToken) -> (s: String)
    ensures
        s@ == describe_m(token_model(*t)),
{
    match &t.kind {
        TokenKind::OpenBrace => literal("'{'"),
        TokenKind::CloseBrace => literal("'}'"),
        TokenKind::OpEquals => literal("'='"),
        TokenKind::OpLessThan => literal("'<'"),
        TokenKind::OpGreaterThan => literal("'>'"),
        TokenKind::OpNotEquals => literal("'!='"),
        TokenKind::OpLessOrEqual => literal("'<='"),
        TokenKind::OpGreaterOrEqual => literal("'>='"),
        TokenKind::Ident(x) => {
            let mut s = literal("identifier '");
            append_str(&mut s, x.as_str());
            push_char(&mut s, '\'');
            assert(s@ =~= "identifier '"@ + x@ + seq!['\'']);
            s
        },
        TokenKind::String(x) => {
            let mut s = literal("string \"");
            append_str(&mut s, x.as_str());
            push_char(&mut s, '"');
            assert(s@ =~= "string \""@ + x@ + seq!['"']);
            s
        },
        TokenKind::Number => {
            let mut s = literal("number ");
            append_str(&mut s, t.text.as_str());
            s
        },
        TokenKind::Boolean(b) => if *b {
            literal("boolean true")
        } else {
            literal("boolean false")
        },
        TokenKind::Eof => literal("end of file"),
    }
}

fn zero_range() -> (r: Range)
    ensures
        r == zero(),
{
    Range { start_line: 0, start_col: 0, end_line: 0, end_col: 0 }
}

/// The number of pieces of trivia on the token the parser looks at.
pub open spec fn head_trivia(rest: Seq<CstToken>) -> nat {
    if rest.len() == 0 {
        0
    } else {
        rest.last().leading_trivia@.len()
    }
}

/// Recursive-descent parser state.  The tokens not yet consumed are held in
/// reverse, so the current token is the last element.
struct CstParser {
    rest: Vec<CstToken>,
    diagnostics: Vec<CstDiagnostic>,
    /// The source bytes the tokens were read from.
    src: Ghost<Seq<u8>>,
    /// Whether the tokens are known to lie inside `src`.
    track: Ghost<bool>,
}

/// Taking the last token off the stack takes the last model off.
proof fn lemma_tokens_drop_last(s: Seq<CstToken>)
    requires
        s.len() > 0,
    ensures
        tokens_m(s.drop_last()) == tokens_m(s).drop_last(),
{
    assert(tokens_m(s.drop_last()) =~= tokens_m(s).drop_last());
}

proof fn lemma_diags_push(d: Seq<CstDiagnostic>, x: CstDiagnostic)
    ensures
        diags_m(d.push(x)) == diags_m(d).push(diag_model(x)),
{
    assert(diags_m(d.push(x)) =~= diags_m(d).push(diag_model(x)));
}

proof fn lemma_nodes_push(s: Seq<CstNode>, x: CstNode)
    ensures
        nodes_m(s.push(x)) == nodes_m(s).push(node_m(x)),
{
    assert(s.push(x).drop_last() =~= s);
}

/// Before the first comment at or after `i`, skipping non-comments changes nothing.
proof fn lemma_first_comment_skip(tr: Seq<Trivia>, i: int, j: int)
    requires
        0 <= i <= j <= tr.len(),
        forall|k: int| i <= k < j ==> (#[trigger] tr[k]).kind != TriviaKind::Comment,
    ensures
        first_comment(tr, i) == first_comment(tr, j),
    decreases j - i,
{
    if i < j {
        lemma_first_comment_skip(tr, i + 1, j);
    }
}

impl CstParser {
    /// The parser's state as the model sees it.
    spec fn state(&self) -> PState {
        PState { rest: tokens_m(self.rest@), diags: diags_m(self.diagnostics@) }
    }

    spec fn fits(&self) -> bool {
        self.track@ ==> forall|k: int|
            0 <= k < self.rest@.len() ==> cst_token_fits(#[trigger] self.rest@[k], self.src@)
    }

    spec fn diags_errors(&self) -> bool {
        forall|k: int| 0 <= k < self.diagnostics@.len() ==> (#[trigger] self.diagnostics@[k]).severity
            == Severity::Error
    }

    fn peek(&self) -> (t: Option<&CstToken>)
        ensures
            self.rest@.len() == 0 ==> t is None,
            self.rest@.len() > 0 ==> t == Some(&self.rest@.last()),
    {
        if self.rest.len() == 0 {
            None
        } else {
            Some(&self.rest[self.rest.len() - 1])
        }
    }

    fn advance(&mut self) -> (t: Option<CstToken>)
        ensures
            final(self).diagnostics@ == old(self).diagnostics@,
            final(self).src == old(self).src,
            final(self).track == old(self).track,
            old(self).fits() ==> final(self).fits(),
            old(self).fits() && old(self).track@ && t is Some ==> cst_token_fits(t->Some_0, old(self).src@),
            old(self).rest@.len() == 0 ==> t is None && final(self).rest@ == old(self).rest@,
            old(self).rest@.len() > 0 ==> t == Some(old(self).rest@.last()) && final(self).rest@
                == old(self).rest@.drop_last(),
            old(self).rest@.len() > 0 ==> final(self).state() == advanced(old(self).state()),
    {
        proof {
            if self.rest@.len() > 0 {
                lemma_tokens_drop_last(self.rest@);
            }
        }
        self.rest.pop()
    }

    fn is_at_end(&self) -> (r: bool)
        ensures
            r == (self.rest@.len() <= 1),
    {
        self.rest.len() <= 1
    }

    fn at_eof(&self) -> (r: bool)
        ensures
            r == (self.rest@.len() > 0 && self.rest@.last().kind is Eof),
    {
        match self.peek() {
            Some(t) => matches!(t.kind, TokenKind::Eof),
            None => false,
        }
    }

    fn at_close_brace(&self) -> (r: bool)
        ensures
            r == (self.rest@.len() > 0 && self.rest@.last().kind is CloseBrace),
    {
        match self.peek() {
            Some(t) => matches!(t.kind, TokenKind::CloseBrace),
            None => false,
        }
    }

    fn emit_error(&mut self, msg: String, range: Range)
        ensures
            final(self).rest@ == old(self).rest@,
            final(self).src == old(self).src,
            final(self).track == old(self).track,
            old(self).diags_errors() ==> final(self).diags_errors(),
            final(self).state() == emitted(old(self).state(), msg@, range),
    {
        let d = CstDiagnostic::error(msg, range);
        proof {
            lemma_diags_push(self.diagnostics@, d);
        }
        self.diagnostics.push(d);
    }

    /// Takes the first comment out of the current token's leading trivia and
    /// returns it as an `EntryComment` node.
    fn drain_comment(&mut self) -> (r: Option<CstNode>)
        ensures
            final(self).diagnostics@ == old(self).diagnostics@,
            final(self).src == old(self).src,
            final(self).track == old(self).track,
            old(self).fits() ==> final(self).fits(),
            old(self).fits() && old(self).track@ && r is Some ==> cst_node_fits(r->Some_0, old(self).src@),
            final(self).rest@.len() == old(self).rest@.len(),
            r is None ==> final(self).rest@ == old(self).rest@,
            r is Some ==> head_trivia(final(self).rest@) < head_trivia(old(self).rest@),
            r matches Some(n) ==> n is EntryComment && n->EntryComment_0.kind == TriviaKind::Comment,
            forall|k: int| 0 <= k < final(self).rest@.len() ==> (#[trigger] final(self).rest@[k]).kind
                == old(self).rest@[k].kind,
            r is None ==> drain_m(old(self).state()) is None,
            r matches Some(n) ==> drain_m(old(self).state()) == Some((n->EntryComment_0, final(self).state())),
    {
        if self.rest.len() == 0 {
            return None;
        }
        let mut token = self.rest.pop().unwrap();
        let mut idx: usize = 0;
        while idx < token.leading_trivia.len()
            invariant
                idx <= token.leading_trivia@.len(),
                forall|k: int| 0 <= k < idx ==> (#[trigger] token.leading_trivia@[k]).kind != TriviaKind::Comment,
            ensures
                idx <= token.leading_trivia@.len(),
                forall|k: int| 0 <= k < idx ==> (#[trigger] token.leading_trivia@[k]).kind != TriviaKind::Comment,
                idx < token.leading_trivia@.len() ==> token.leading_trivia@[idx as int].kind
                    == TriviaKind::Comment,
            decreases token.leading_trivia@.len() - idx,
        {
            if token.leading_trivia[idx].kind == TriviaKind::Comment {
                break;
            }
            idx += 1;
        }
        proof {
            lemma_first_comment_skip(token.leading_trivia@, 0, idx as int);
            assert(token_model(token) == tokens_m(old(self).rest@).last());
        }
        if idx == token.leading_trivia.len() {
            self.rest.push(token);
            assert(self.rest@ =~= old(self).rest@);
            return None;
        }
        let ghost kind0 = token.kind;
        let ghost tr0 = token.leading_trivia@;
        let comment = token.leading_trivia.remove(idx);
        proof {
            assert(token.leading_trivia@ == tr0.remove(idx as int));
            if old(self).fits() && old(self).track@ {
                assert(cst_token_fits(old(self).rest@.last(), self.src@));
                assert forall|j: int| 0 <= j < token.leading_trivia@.len() implies trivia_in_source(
                    #[trigger] token.leading_trivia@[j],
                    self.src@,
                ) by {
                    if j < idx {
                        assert(token.leading_trivia@[j] == tr0[j]);
                    } else {
                        assert(token.leading_trivia@[j] == tr0[j + 1]);
                    }
                }
            }
        }
        self.rest.push(token);
        proof {
            let st = old(self).state();
            let t = st.rest.last();
            assert(tokens_m(self.rest@) =~= st.rest.update(st.rest.len() - 1, TokenModel { trivia: t.trivia.remove(idx as int), ..t }));
        }
        assert forall|k: int| 0 <= k < self.rest@.len() implies (#[trigger] self.rest@[k]).kind
            == old(self).rest@[k].kind by {
            if k < self.rest@.len() - 1 {
                assert(self.rest@[k] == old(self).rest@[k]);
            }
        }
        proof {
            if old(self).fits() && old(self).track@ {
                assert forall|k: int| 0 <= k < self.rest@.len() implies cst_token_fits(
                    #[trigger] self.rest@[k],
                    self.src@,
                ) by {
                    if k < self.rest@.len() - 1 {
                        assert(self.rest@[k] == old(self).rest@[k]);
                    }
                }
            }
        }
        Some(CstNode::EntryComment(comment))
    }
}

/// The end-of-file token stays at the bottom of the unconsumed tokens.
pub open spec fn eof_at_bottom(rest: Seq<CstToken>) -> bool {
    rest.len() >= 1 && rest[0].kind is Eof
}

/// What every parse step keeps: the end-of-file token, and that all
/// diagnostics are errors.
spec fn kept(after: &CstParser, before: &CstParser) -> bool {
    &&& eof_at_bottom(after.rest@)
    &&& after.rest@.len() <= before.rest@.len()
    &&& after.diags_errors()
    &&& after.src == before.src
    &&& after.track == before.track
    &&& after.fits()
}

fn message(prefix: &str, t: &CstToken) -> (m: String)
    ensures
        m@ == prefix@ + describe_m(token_model(*t)),
{
    let mut m = literal(prefix);
    let d = describe(t);
    append_str(&mut m, d.as_str());
    m
}

impl CstParser {
    /// Parse a single entry (assignment, bare value, comment).  Returns `None`
    /// when the current token starts no entry (`}`, end of file, or an
    /// operator, which is reported), leaving the tokens as they were.
    fn parse_entry(&mut self) -> (r: Option<CstNode>)
        requires
            eof_at_bottom(old(self).rest@),
            old(self).diags_errors(),
            old(self).fits(),
        ensures
            kept(final(self), old(self)),
            r is None ==> final(self).rest@ == old(self).rest@,
            r matches Some(n) ==> !(n is Error),
            old(self).track@ && r is Some ==> cst_node_fits(r->Some_0, old(self).src@),
            r is Some ==> final(self).rest@.len() < old(self).rest@.len() || head_trivia(
                final(self).rest@,
            ) < head_trivia(old(self).rest@),
            r is None ==> old(self).rest@.last().kind is CloseBrace || old(self).rest@.last().kind is Eof
                || is_operator_m(old(self).rest@.last().kind) || old(self).rest@.last().kind is Boolean,
            (match r {
                Some(n) => Some(node_m(n)),
                None => None,
            }, final(self).state()) == entry_m(old(self).state()),
        decreases old(self).rest@.len(), 3int,
    {
        if let Some(comment) = self.drain_comment() {
            return Some(comment);
        }
        let n = self.rest.len();
        let last = &self.rest[n - 1];
        assert(tokens_m(self.rest@).last() == token_model(*last));
        match &last.kind {
            TokenKind::OpenBrace => {
                let value = self.parse_value();
                Some(CstNode::EntryValue(CstEntryValue::new(value)))
            },
            TokenKind::Ident(_) | TokenKind::Number => {
                let is_ident = matches!(last.kind, TokenKind::Ident(_));
                let token = self.advance().unwrap();
                proof {
                    if self.rest@.len() > 0 {
                        assert(tokens_m(self.rest@).last() == token_model(self.rest@.last()));
                    }
                }
                let next_op = match self.peek() {
                    Some(t) => is_operator_kind(&t.kind),
                    None => false,
                };
                if next_op {
                    return Some(CstNode::Assignment(self.parse_assignment(token)));
                }
                if self.at_open_brace() {
                    let block = self.parse_block();
                    return Some(
                        CstNode::EntryValue(
                            CstEntryValue::new(
                                CstValue::TaggedBlock { tag: Box::new(token), block: Box::new(block) },
                            ),
                        ),
                    );
                }
                if is_ident {
                    Some(CstNode::EntryValue(CstEntryValue::new(classify_ident(token))))
                } else {
                    Some(CstNode::EntryValue(CstEntryValue::new(CstValue::Number(Box::new(token)))))
                }
            },
            TokenKind::String(_) => {
                let token = self.advance().unwrap();
                Some(CstNode::EntryValue(CstEntryValue::new(CstValue::String(Box::new(token)))))
            },
            TokenKind::CloseBrace | TokenKind::Eof => None,
            _ => {
                let range = last.range;
                let msg = message("Unexpected token: ", last);
                self.emit_error(msg, range);
                None
            },
        }
    }

    fn at_open_brace(&self) -> (r: bool)
        ensures
            r == (self.rest@.len() > 0 && self.rest@.last().kind is OpenBrace),
    {
        match self.peek() {
            Some(t) => matches!(t.kind, TokenKind::OpenBrace),
            None => false,
        }
    }

    /// Parse `<operator> value` after the key has been consumed.
    fn parse_assignment(&mut self, key: CstToken) -> (a: CstAssignment)
        requires
            eof_at_bottom(old(self).rest@),
            old(self).rest@.len() >= 2,
            is_operator_m(old(self).rest@.last().kind),
            old(self).diags_errors(),
            old(self).fits(),
            old(self).track@ ==> cst_token_fits(key, old(self).src@),
        ensures
            kept(final(self), old(self)),
            final(self).rest@.len() < old(self).rest@.len(),
            old(self).track@ ==> cst_token_fits(a.key, old(self).src@),
            old(self).track@ ==> cst_token_fits(a.operator, old(self).src@),
            old(self).track@ ==> cst_value_fits(a.value, old(self).src@),
            a.key == key,
            (token_model(a.operator), value_m(a.value), final(self).state()) == assignment_m(
                old(self).state(),
                token_model(key),
            ),
        decreases old(self).rest@.len(), 2int,
    {
        let operator = self.advance().unwrap();
        let value = self.parse_value();
        if let CstValue::Error(_) = &value {
            self.emit_error(literal("Expected value after operator"), key.range);
        }
        CstAssignment { key, operator, value }
    }

    /// Parse any value: block, tagged block, literal, or identifier.
    fn parse_value(&mut self) -> (v: CstValue)
        requires
            eof_at_bottom(old(self).rest@),
            old(self).diags_errors(),
            old(self).fits(),
        ensures
            kept(final(self), old(self)),
            old(self).track@ ==> cst_value_fits(v, old(self).src@),
            ({
                let k = old(self).rest@.last().kind;
                k is OpenBrace || k is Ident || k is String || k is Number || k is CloseBrace
            }) ==> final(self).rest@.len() < old(self).rest@.len(),
            (value_m(v), final(self).state()) == value_m_at(old(self).state()),
        decreases old(self).rest@.len(), 1int,
    {
        let n = self.rest.len();
        let last = &self.rest[n - 1];
        assert(tokens_m(self.rest@).last() == token_model(*last));
        match &last.kind {
            TokenKind::OpenBrace => CstValue::Block(self.parse_block()),
            TokenKind::Ident(_) => {
                let ident = self.advance().unwrap();
                proof {
                    if self.rest@.len() > 0 {
                        assert(tokens_m(self.rest@).last() == token_model(self.rest@.last()));
                    }
                }
                if self.at_open_brace() {
                    let block = self.parse_block();
                    CstValue::TaggedBlock { tag: Box::new(ident), block: Box::new(block) }
                } else {
                    classify_ident(ident)
                }
            },
            TokenKind::String(_) => {
                let token = self.advance().unwrap();
                CstValue::String(Box::new(token))
            },
            TokenKind::Number => {
                let token = self.advance().unwrap();
                CstValue::Number(Box::new(token))
            },
            TokenKind::CloseBrace => {
                let token = self.advance().unwrap();
                self.emit_error(literal("Unexpected '}'"), token.range);
                CstValue::Error(CstDiagnostic::error(literal("Unexpected '}'"), token.range))
            },
            TokenKind::Eof => {
                self.emit_error(literal("Unexpected end of file"), zero_range());
                CstValue::Error(CstDiagnostic::error(literal("Unexpected end of file"), zero_range()))
            },
            _ => {
                let range = last.range;
                let mut m1 = literal("Unexpected operator ");
                let d = describe(last);
                append_str(&mut m1, d.as_str());
                append_str(&mut m1, " without key");
                let m2 = m1.clone();
                self.emit_error(m1, range);
                CstValue::Error(CstDiagnostic::error(m2, range))
            },
        }
    }

    /// Parse `{ entries }`; a block that reaches the end of the file without
    /// its `}` is reported and kept with a missing close brace.
    fn parse_block(&mut self) -> (b: CstBlock)
        requires
            eof_at_bottom(old(self).rest@),
            old(self).rest@.len() >= 2,
            old(self).diags_errors(),
            old(self).fits(),
        ensures
            kept(final(self), old(self)),
            final(self).rest@.len() < old(self).rest@.len(),
            old(self).track@ ==> cst_block_fits(b, old(self).src@),
            b.close_brace is Missing ==> final(self).rest@.len() > 0 && !(final(self).rest@.last().kind is CloseBrace),
            (block_m(b), final(self).state()) == block_m_at(old(self).state()),
        decreases old(self).rest@.len(), 0int,
    {
        let open = self.advance().unwrap();
        let open_range = open.range;
        let mut entries: Vec<CstNode> = Vec::new();
        let ghost st0 = self.state();
        proof {
            assert(nodes_m(entries@) + block_entries_m(st0).0 =~= block_entries_m(st0).0);
        }
        loop
            invariant_except_break
                block_entries_m(st0) == (nodes_m(entries@) + block_entries_m(self.state()).0, block_entries_m(
                    self.state(),
                ).1),
            invariant
                eof_at_bottom(self.rest@),
                self.rest@.len() < old(self).rest@.len(),
                self.diags_errors(),
                self.src == old(self).src,
                self.track == old(self).track,
                self.fits(),
                old(self).track@ ==> cst_token_fits(open, old(self).src@),
                old(self).track@ ==> forall|i: int|
                    0 <= i < entries@.len() ==> cst_node_fits(#[trigger] entries@[i], old(self).src@),
            ensures
                block_entries_m(st0) == (nodes_m(entries@), self.state()),
            decreases self.rest@.len(), head_trivia(self.rest@),
        {
            if self.is_at_end() || self.at_eof() {
                assert(nodes_m(entries@) + block_entries_m(self.state()).0 =~= nodes_m(entries@));
                break;
            }
            if self.at_close_brace() {
                assert(nodes_m(entries@) + block_entries_m(self.state()).0 =~= nodes_m(entries@));
                break;
            }
            let ghost before = self.state();
            let ghost prev = entries@;
            match self.parse_entry() {
                Some(node) => {
                    proof {
                        lemma_nodes_push(prev, node);
                        let more = block_entries_m(self.state()).0;
                        assert(progressed(self.state(), before));
                        assert(nodes_m(prev) + (seq![node_m(node)] + more) =~= nodes_m(prev.push(node)) + more);
                    }
                    entries.push(node);
                },
                None => {
                    assert(nodes_m(entries@) + Seq::<NodeM>::empty() =~= nodes_m(entries@));
                    break;
                },
            }
        }
        proof {
            if self.rest@.len() > 0 {
                assert(tokens_m(self.rest@).last() == token_model(self.rest@.last()));
            }
        }
        let close_brace = if self.at_close_brace() {
            CloseBrace::Present(self.advance().unwrap())
        } else {
            let mut m = literal("Expected '}' to close block opened at line:");
            let line = u32_to_decimal(open_range.start_line);
            append_str(&mut m, line.as_str());
            let diag = CstDiagnostic::error(m, open_range);
            let copy = CstDiagnostic::error(diag.message.clone(), diag.range);
            proof {
                lemma_diags_push(self.diagnostics@, copy);
            }
            self.diagnostics.push(copy);
            CloseBrace::Missing(diag)
        };
        CstBlock { open_brace: open, entries, close_brace }
    }

    /// Skip tokens until one that can start an entry; `}` and the end of the
    /// file are left for the enclosing context.
    fn skip_to_entry_boundary(&mut self)
        requires
            eof_at_bottom(old(self).rest@),
            old(self).diags_errors(),
            old(self).fits(),
        ensures
            kept(final(self), old(self)),
            (old(self).rest@.len() > 1 && ({
                let k = old(self).rest@.last().kind;
                !(k is Ident || k is OpenBrace || k is String || k is Number || k is CloseBrace
                    || k is Eof)
            })) ==> final(self).rest@.len() < old(self).rest@.len(),
            final(self).state() == skip_m(old(self).state()),
    {
        while self.rest.len() > 0
            invariant
                skip_m(self.state()) == skip_m(old(self).state()),
                eof_at_bottom(self.rest@),
                self.rest@.len() <= old(self).rest@.len(),
                self.diags_errors(),
                self.src == old(self).src,
                self.track == old(self).track,
                self.fits(),
                (old(self).rest@.len() > 1 && ({
                    let k = old(self).rest@.last().kind;
                    !(k is Ident || k is OpenBrace || k is String || k is Number || k is CloseBrace
                        || k is Eof)
                })) ==> (self.rest@.len() < old(self).rest@.len() || self.rest@ == old(self).rest@),
            ensures
                eof_at_bottom(self.rest@),
                self.rest@.len() <= old(self).rest@.len(),
                self.diags_errors(),
                self.src == old(self).src,
                self.track == old(self).track,
                self.fits(),
                (old(self).rest@.len() > 1 && ({
                    let k = old(self).rest@.last().kind;
                    !(k is Ident || k is OpenBrace || k is String || k is Number || k is CloseBrace
                        || k is Eof)
                })) ==> self.rest@.len() < old(self).rest@.len(),
                self.state() == skip_m(old(self).state()),
            decreases self.rest@.len(),
        {
            if self.is_at_end() {
                break;
            }
            let n = self.rest.len();
            let last = &self.rest[n - 1];
            assert(tokens_m(self.rest@).last() == token_model(*last));
            match &last.kind {
                TokenKind::Ident(_) | TokenKind::OpenBrace | TokenKind::String(_) | TokenKind::Number
                | TokenKind::CloseBrace | TokenKind::Eof => break,
                _ => {
                    let range = last.range;
                    let msg = message("Skipping unexpected token: ", last);
                    self.emit_error(msg, range);
                    self.advance();
                },
            }
        }
    }
}

fn is_operator_kind(k: &TokenKind) -> (r: bool)
    ensures
        r == is_operator_m(*k),
{
    matches!(k, TokenKind::OpEquals | TokenKind::OpLessThan | TokenKind::OpGreaterThan
        | TokenKind::OpNotEquals | TokenKind::OpLessOrEqual | TokenKind::OpGreaterOrEqual)
}

impl CstParser {
    /// Parse the top-level script.
    fn parse_script(self) -> (r: CstScript)
        requires
            eof_at_bottom(self.rest@),
            self.diags_errors(),
            self.fits(),
        ensures
            forall|k: int| 0 <= k < r.diagnostics@.len() ==> (#[trigger] r.diagnostics@[k]).severity
                == Severity::Error,
            forall|k: int| 0 <= k < r.nodes@.len() ==> !(#[trigger] r.nodes@[k] is Error),
            self.track@ ==> forall|k: int| 0 <= k < r.nodes@.len() ==> cst_node_fits(#[trigger] r.nodes@[k], self.src@),
            self.track@ ==> forall|j: int| 0 <= j < r.trailing_trivia@.len() ==> trivia_in_source(#[trigger] r.trailing_trivia@[j], self.src@),
            nodes_m(r.nodes@) == script_m(self.state()).0,
            diags_m(r.diagnostics@) == script_m(self.state()).1.diags,
            r.trailing_trivia@ == script_m(self.state()).1.rest[0].trivia,
    {
        let mut p = self;
        let ghost src = p.src@;
        let ghost track = p.track@;
        let mut nodes: Vec<CstNode> = Vec::new();
        let ghost st0 = p.state();
        proof {
            assert(nodes_m(nodes@) + script_m(st0).0 =~= script_m(st0).0);
        }
        loop
            invariant_except_break
                script_m(st0) == (nodes_m(nodes@) + script_m(p.state()).0, script_m(p.state()).1),
            invariant
                eof_at_bottom(p.rest@),
                p.diags_errors(),
                p.src@ == src,
                p.track@ == track,
                p.fits(),
                forall|k: int| 0 <= k < nodes@.len() ==> !(#[trigger] nodes@[k] is Error),
                track ==> forall|k: int| 0 <= k < nodes@.len() ==> cst_node_fits(#[trigger] nodes@[k], src),
            ensures
                script_m(st0) == (nodes_m(nodes@), p.state()),
            decreases p.rest@.len(), head_trivia(p.rest@),
        {
            let ghost before = p.state();
            let ghost prev = nodes@;
            if let Some(comment) = p.drain_comment() {
                proof {
                    lemma_nodes_push(prev, comment);
                    let more = script_m(p.state()).0;
                    assert(progressed(p.state(), before));
                    assert(nodes_m(prev) + (seq![node_m(comment)] + more) =~= nodes_m(prev.push(comment)) + more);
                }
                nodes.push(comment);
                continue;
            }
            if p.is_at_end() || p.at_eof() {
                assert(nodes_m(nodes@) + script_m(p.state()).0 =~= nodes_m(nodes@));
                break;
            }
            assert(tokens_m(p.rest@).last() == token_model(p.rest@.last()));
            if p.at_close_brace() {
                // At the script level a `}` closes nothing: consume and report it.
                let token = p.advance().unwrap();
                p.emit_error(literal("Unexpected '}'"), token.range);
                continue;
            }
            match p.parse_entry() {
                Some(node) => {
                    proof {
                        lemma_nodes_push(prev, node);
                        let more = script_m(p.state()).0;
                        assert(progressed(p.state(), before));
                        assert(nodes_m(prev) + (seq![node_m(node)] + more) =~= nodes_m(prev.push(node)) + more);
                    }
                    nodes.push(node);
                },
                None => {
                    p.skip_to_entry_boundary();
                    assert(progressed(p.state(), before));
                },
            }
        }
        let ghost fin = p.state();
        let mut rest = p.rest;
        proof {
            if track {
                assert(cst_token_fits(rest@[0], src));
            }
        }
        let eof = rest.remove(0);
        assert(fin.rest[0] == token_model(eof));
        CstScript { nodes, diagnostics: p.diagnostics, trailing_trivia: eof.leading_trivia }
    }
}

/// Reverses the tokens so that the first one is popped first.
fn reversed(tokens: Vec<CstToken>) -> (rest: Vec<CstToken>)
    requires
        tokens@.len() >= 1,
    ensures
        rest@.len() == tokens@.len(),
        rest@[0] == tokens@.last(),
        forall|k: int| 0 <= k < rest@.len() ==> #[trigger] rest@[k] == tokens@[tokens@.len() - 1 - k],
{
    let mut input = tokens;
    let mut rest: Vec<CstToken> = Vec::new();
    let ghost n = input@.len();
    let ghost orig = input@;
    while input.len() > 0
        invariant
            rest@.len() + input@.len() == n,
            n == orig.len(),
            input@ == orig.subrange(0, input@.len() as int),
            forall|k: int| 0 <= k < rest@.len() ==> #[trigger] rest@[k] == orig[n - 1 - k],
        decreases input@.len(),
    {
        let t = input.pop().unwrap();
        rest.push(t);
    }
    rest
}

/// Parses tokens read from the source bytes `src`; with `track`, the tokens
/// are known to lie inside `src` and so does every node of the result.
pub(crate) fn parse_tokens(tokens: Vec<CstToken>, src: Ghost<Seq<u8>>, track: Ghost<bool>) -> (r: CstScript)
    requires
        tokens@.len() >= 1,
        tokens@.last().kind is Eof,
        track@ ==> forall|k: int| 0 <= k < tokens@.len() ==> cst_token_fits(#[trigger] tokens@[k], src@),
    ensures
        forall|k: int| 0 <= k < r.diagnostics@.len() ==> (#[trigger] r.diagnostics@[k]).severity
            == Severity::Error,
        forall|k: int| 0 <= k < r.nodes@.len() ==> !(#[trigger] r.nodes@[k] is Error),
        track@ ==> forall|k: int| 0 <= k < r.nodes@.len() ==> cst_node_fits(#[trigger] r.nodes@[k], src@),
        track@ ==> forall|j: int| 0 <= j < r.trailing_trivia@.len() ==> trivia_in_source(#[trigger] r.trailing_trivia@[j], src@),
        (nodes_m(r.nodes@), diags_m(r.diagnostics@), r.trailing_trivia@) == cst_of(tokens@),
{
    let ghost orig = tokens@;
    let rest = reversed(tokens);
    let parser = CstParser { rest, diagnostics: Vec::new(), src, track };
    proof {
        assert(parser.state().rest =~= initial_state(orig).rest);
        assert(parser.state().diags =~= initial_state(orig).diags);
        assert(parser.state() == initial_state(orig));
    }
    proof {
        if track@ {
            assert forall|k: int| 0 <= k < parser.rest@.len() implies cst_token_fits(#[trigger] parser.rest@[k], src@) by {
                assert(parser.rest@[k] == orig[orig.len() - 1 - k]);
            }
        }
    }
    parser.parse_script()
}

/// Parse a token stream into a CST script.  The tokens are those of
/// `tokenize`: the last one is the end-of-file token, whose remaining leading
/// trivia becomes the script's trailing trivia.
pub fn parse_cst(tokens: Vec<CstToken>) -> (r: CstScript)
    requires
        tokens@.len() >= 1,
        tokens@.last().kind is Eof,
    ensures
        forall|k: int| 0 <= k < r.diagnostics@.len() ==> (#[trigger] r.diagnostics@[k]).severity
            == Severity::Error,
        forall|k: int| 0 <= k < r.nodes@.len() ==> !(#[trigger] r.nodes@[k] is Error),
        (nodes_m(r.nodes@), diags_m(r.diagnostics@), r.trailing_trivia@) == cst_of(tokens@),
{
    parse_tokens(tokens, Ghost(Seq::empty()), Ghost(false))
}

} // verus!
