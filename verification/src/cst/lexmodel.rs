//! What the tokenizer computes, stated over the characters of the input: a
//! scanner position is a character index with its line and column, and each
//! scanning step maps a position to what it reads and the next position.
use vstd::prelude::*;
use vstd::utf8::{encode_utf8, encode_scalar};
use crate::ast::Range;
use crate::cst::diagnostic::TextRange;
use crate::cst::token::{TokenKind, TriviaKind, Trivia, CstToken};
use crate::cst::lexer::{is_space_or_tab, unescape, bom_len};
use crate::cst::model::{DiagModel, error_diag};
use crate::numtext::float_syntax;
use crate::script::{identifier_char, ident_end};
use crate::text::{utf8_offset, is_digit, unicode_alphanumeric};

verus! {

/// A scanner position: character index, line and column (both from zero).
pub struct LexPos {
    pub i: int,
    pub line: int,
    pub col: int,
}

/// A piece of trivia with its text as characters.
pub struct TriviaM {
    pub kind: TriviaKind,
    pub text: Seq<char>,
    pub range: Range,
    pub byte_range: TextRange,
}

/// A token kind with its text as characters.
pub enum KindM {
    OpenBrace,
    CloseBrace,
    OpEquals,
    OpLessThan,
    OpGreaterThan,
    OpNotEquals,
    OpLessOrEqual,
    OpGreaterOrEqual,
    Ident(Seq<char>),
    String(Seq<char>),
    Number,
    Boolean(bool),
    Eof,
}

/// A token with its leading trivia.
pub struct TokM {
    pub kind: KindM,
    pub text: Seq<char>,
    pub range: Range,
    pub byte_range: TextRange,
    pub trivia: Seq<TriviaM>,
}

pub open spec fn kind_m(k: TokenKind) -> KindM {
    match k {
        TokenKind::OpenBrace => KindM::OpenBrace,
        TokenKind::CloseBrace => KindM::CloseBrace,
        TokenKind::OpEquals => KindM::OpEquals,
        TokenKind::OpLessThan => KindM::OpLessThan,
        TokenKind::OpGreaterThan => KindM::OpGreaterThan,
        TokenKind::OpNotEquals => KindM::OpNotEquals,
        TokenKind::OpLessOrEqual => KindM::OpLessOrEqual,
        TokenKind::OpGreaterOrEqual => KindM::OpGreaterOrEqual,
        TokenKind::Ident(x) => KindM::Ident(x@),
        TokenKind::String(x) => KindM::String(x@),
        TokenKind::Number => KindM::Number,
        TokenKind::Boolean(b) => KindM::Boolean(b),
        TokenKind::Eof => KindM::Eof,
    }
}

pub open spec fn trivia_m(t: Trivia) -> TriviaM {
    TriviaM { kind: t.kind, text: t.text@, range: t.range, byte_range: t.byte_range }
}

pub open spec fn trivias_m(s: Seq<Trivia>) -> Seq<TriviaM> {
    s.map_values(|t: Trivia| trivia_m(t))
}

pub open spec fn tok_m(t: CstToken) -> TokM {
    TokM {
        kind: kind_m(t.kind),
        text: t.text@,
        range: t.range,
        byte_range: t.byte_range,
        trivia: trivias_m(t.leading_trivia@),
    }
}

pub open spec fn toks_m(s: Seq<CstToken>) -> Seq<TokM> {
    s.map_values(|t: CstToken| tok_m(t))
}

/// The line/column range from `a` to `b`.
pub open spec fn span_range(a: LexPos, b: LexPos) -> Range {
    Range { start_line: a.line as u32, start_col: a.col as u32, end_line: b.line as u32, end_col: b.col as u32 }
}

/// The byte range of the characters `a..b`.
pub open spec fn byte_span(cs: Seq<char>, a: int, b: int) -> TextRange {
    TextRange { start: utf8_offset(cs, a) as usize, end: utf8_offset(cs, b) as usize }
}

/// End of the run of spaces and tabs at `i`.
pub open spec fn space_end(cs: Seq<char>, i: int) -> int
    decreases cs.len() - i,
{
    if 0 <= i < cs.len() && is_space_or_tab(cs[i]) {
        space_end(cs, i + 1)
    } else {
        i
    }
}

/// The first line break (`\n` or `\r`) at or after `i`, or the end.
pub open spec fn line_end(cs: Seq<char>, i: int) -> int
    decreases cs.len() - i,
{
    if 0 <= i < cs.len() && cs[i] != '\n' && cs[i] != '\r' {
        line_end(cs, i + 1)
    } else {
        i
    }
}

/// The piece of trivia at `p`: a run of spaces and tabs, one newline (`\r\n`
/// counts as one), or a comment up to the line break, whose text is the
/// source's characters and whose columns count bytes.
pub open spec fn trivia_at(cs: Seq<char>, p: LexPos) -> Option<(TriviaM, LexPos)> {
    if 0 <= p.i < cs.len() {
        let c = cs[p.i];
        if is_space_or_tab(c) {
            let e = space_end(cs, p.i);
            let q = LexPos { i: e, line: p.line, col: p.col + (e - p.i) };
            Some((TriviaM { kind: TriviaKind::Whitespace, text: cs.subrange(p.i, e), range: span_range(p, q), byte_range: byte_span(cs, p.i, e) }, q))
        } else if c == '\n' || c == '\r' {
            let e = if c == '\r' && p.i + 1 < cs.len() && cs[p.i + 1] == '\n' {
                p.i + 2
            } else {
                p.i + 1
            };
            let q = LexPos { i: e, line: p.line + 1, col: 0 };
            Some((TriviaM { kind: TriviaKind::Newline, text: cs.subrange(p.i, e), range: span_range(p, q), byte_range: byte_span(cs, p.i, e) }, q))
        } else if c == '#' {
            let e = line_end(cs, p.i);
            let q = LexPos { i: e, line: p.line, col: p.col + (utf8_offset(cs, e) - utf8_offset(cs, p.i)) };
            Some((TriviaM {
                kind: TriviaKind::Comment,
                text: cs.subrange(p.i, e),
                range: span_range(p, q),
                byte_range: byte_span(cs, p.i, e),
            }, q))
        } else {
            None
        }
    } else {
        None
    }
}

/// All the trivia at `p`, and the position after it.
pub open spec fn trivia_run(cs: Seq<char>, p: LexPos) -> (Seq<TriviaM>, LexPos)
    decreases cs.len() - p.i,
{
    match trivia_at(cs, p) {
        Some((t, q)) => if p.i < q.i <= cs.len() {
            let (more, r) = trivia_run(cs, q);
            (seq![t] + more, r)
        } else {
            (seq![t], q)
        },
        None => (Seq::empty(), p),
    }
}

/// End of the digits (and at most one dot, unless `dot` says one was seen) at `j`.
pub open spec fn number_run(cs: Seq<char>, j: int, dot: bool) -> int
    decreases cs.len() - j,
{
    if 0 <= j < cs.len() && is_digit(cs[j]) {
        number_run(cs, j + 1, dot)
    } else if 0 <= j < cs.len() && cs[j] == '.' && !dot {
        number_run(cs, j + 1, true)
    } else {
        j
    }
}

/// A digit, or `.` or `-` before a digit.
pub open spec fn number_starts(cs: Seq<char>, i: int) -> bool {
    let c = cs[i];
    is_digit(c) || ((c == '.' || c == '-') && i + 1 < cs.len() && is_digit(cs[i + 1]))
}

/// The end of the numeric literal at `i`: none where the digits run into an
/// alphanumeric character or do not read as a float.
pub open spec fn number_end(cs: Seq<char>, i: int) -> Option<int> {
    if number_starts(cs, i) {
        let c = cs[i];
        let e = if c == '-' {
            number_run(cs, i + 1, false)
        } else if c == '.' {
            number_run(cs, i + 1, true)
        } else {
            number_run(cs, i, false)
        };
        if e < cs.len() && unicode_alphanumeric(cs[e]) {
            None
        } else if !float_syntax(cs.subrange(i, e)) {
            None
        } else {
            Some(e)
        }
    } else {
        None
    }
}

/// Where the body of a quoted string starting at `j` ends (after its closing
/// quote), and whether it reached the end of the input unterminated.
pub open spec fn string_close(cs: Seq<char>, j: int) -> (int, bool)
    decreases cs.len() - j,
{
    if j >= cs.len() {
        (cs.len() as int, true)
    } else if cs[j] == '"' {
        (j + 1, false)
    } else if cs[j] == '\\' {
        if j + 1 < cs.len() {
            string_close(cs, j + 2)
        } else {
            (cs.len() as int, true)
        }
    } else {
        string_close(cs, j + 1)
    }
}

/// A token covering `p.i..e` on one line, one column per character.
pub open spec fn plain(kind: KindM, cs: Seq<char>, p: LexPos, e: int) -> (Option<TokM>, LexPos, Option<DiagModel>) {
    let q = LexPos { i: e, line: p.line, col: p.col + (e - p.i) };
    (
        Some(TokM { kind, text: cs.subrange(p.i, e), range: span_range(p, q), byte_range: byte_span(cs, p.i, e), trivia: Seq::empty() }),
        q,
        None,
    )
}

pub open spec fn unexpected_message(c: char) -> Seq<char> {
    "Unexpected character: '"@.push(c).push('\'')
}

/// A character that starts no token: skipped and reported.
pub open spec fn skipped(c: char, p: LexPos) -> (Option<TokM>, LexPos, Option<DiagModel>) {
    let q = LexPos { i: p.i + 1, line: p.line, col: p.col + 1 };
    (None, q, Some(error_diag(unexpected_message(c), span_range(p, q))))
}

/// The token at `p` (without its leading trivia), the position after it, and
/// the diagnostic it gives, if any.  A number is tried first; then braces,
/// operators, a quoted string, an identifier.
pub open spec fn token_at(cs: Seq<char>, p: LexPos) -> (Option<TokM>, LexPos, Option<DiagModel>) {
    let i = p.i;
    let c = cs[i];
    let next_eq = i + 1 < cs.len() && cs[i + 1] == '=';
    match number_end(cs, i) {
        Some(e) => plain(KindM::Number, cs, p, e),
        None => if c == '{' {
            plain(KindM::OpenBrace, cs, p, i + 1)
        } else if c == '}' {
            plain(KindM::CloseBrace, cs, p, i + 1)
        } else if c == '=' {
            plain(KindM::OpEquals, cs, p, i + 1)
        } else if c == '<' {
            if next_eq {
                plain(KindM::OpLessOrEqual, cs, p, i + 2)
            } else {
                plain(KindM::OpLessThan, cs, p, i + 1)
            }
        } else if c == '>' {
            if next_eq {
                plain(KindM::OpGreaterOrEqual, cs, p, i + 2)
            } else {
                plain(KindM::OpGreaterThan, cs, p, i + 1)
            }
        } else if c == '!' {
            if next_eq {
                plain(KindM::OpNotEquals, cs, p, i + 2)
            } else {
                skipped(c, p)
            }
        } else if c == '"' {
            let (e, unterminated) = string_close(cs, i + 1);
            let body = cs.subrange(i + 1, if unterminated { e } else { e - 1 });
            let (t, q, _) = plain(KindM::String(unescape(body)), cs, p, e);
            (t, q, if unterminated {
                Some(error_diag("Unterminated string literal"@, span_range(p, q)))
            } else {
                None
            })
        } else if identifier_char(c) {
            let e = ident_end(cs, i);
            plain(KindM::Ident(cs.subrange(i, e)), cs, p, e)
        } else {
            skipped(c, p)
        }
    }
}

/// The end-of-file token at `p`, carrying the trailing trivia.
pub open spec fn eof_at(cs: Seq<char>, p: LexPos, leading: Seq<TriviaM>) -> TokM {
    TokM { kind: KindM::Eof, text: Seq::empty(), range: span_range(p, p), byte_range: byte_span(cs, p.i, p.i), trivia: leading }
}

/// The tokens and diagnostics from `p` on, the next token carrying `leading`.
pub open spec fn lex_from(cs: Seq<char>, p: LexPos, leading: Seq<TriviaM>) -> (Seq<TokM>, Seq<DiagModel>)
    decreases cs.len() - p.i,
{
    if 0 <= p.i < cs.len() {
        let (ot, q, od) = token_at(cs, p);
        let (tr, r) = trivia_run(cs, q);
        if p.i < r.i <= cs.len() {
            let (ts, ds) = lex_from(cs, r, tr);
            (
                match ot {
                    Some(t) => seq![TokM { trivia: leading, ..t }] + ts,
                    None => ts,
                },
                match od {
                    Some(d) => seq![d] + ds,
                    None => ds,
                },
            )
        } else {
            (Seq::empty(), Seq::empty())
        }
    } else {
        (seq![eof_at(cs, p, leading)], Seq::empty())
    }
}

// ---------------------------------------------------------------------------
// Runs
// ---------------------------------------------------------------------------

/// A run of spaces and tabs from `a` that stops at `b` ends at `b`.
pub proof fn lemma_space_end(cs: Seq<char>, a: int, b: int)
    requires
        0 <= a <= b <= cs.len(),
        forall|k: int| a <= k < b ==> is_space_or_tab(#[trigger] cs[k]),
        b == cs.len() || !is_space_or_tab(cs[b]),
    ensures
        space_end(cs, a) == b,
    decreases b - a,
{
    if a < b {
        lemma_space_end(cs, a + 1, b);
    }
}

/// Scanning from `a` up to a line break that stops at `b` ends at `b`.
pub proof fn lemma_line_end(cs: Seq<char>, a: int, b: int)
    requires
        0 <= a <= b <= cs.len(),
        forall|k: int| a <= k < b ==> #[trigger] cs[k] != '\n' && cs[k] != '\r',
        b == cs.len() || cs[b] == '\n' || cs[b] == '\r',
    ensures
        line_end(cs, a) == b,
    decreases b - a,
{
    if a < b {
        lemma_line_end(cs, a + 1, b);
    }
}

/// A run of identifier characters from `a` that stops at `b` ends at `b`.
pub proof fn lemma_ident_run(cs: Seq<char>, a: int, b: int)
    requires
        0 <= a <= b <= cs.len(),
        forall|k: int| a <= k < b ==> identifier_char(#[trigger] cs[k]),
        b == cs.len() || !identifier_char(cs[b]),
    ensures
        ident_end(cs, a) == b,
    decreases b - a,
{
    if a < b {
        lemma_ident_run(cs, a + 1, b);
    }
}

/// What tokenizing `cs` gives: after a byte-order mark, the trivia, then
/// tokens each with the trivia that follows it given to the next.
pub open spec fn lex(cs: Seq<char>) -> (Seq<TokM>, Seq<DiagModel>) {
    let (tr, p) = trivia_run(cs, LexPos { i: bom_len(cs), line: 0, col: 0 });
    lex_from(cs, p, tr)
}

// ---------------------------------------------------------------------------
// Losslessness
// ---------------------------------------------------------------------------

/// The text of a run of trivia.
pub open spec fn trivias_text(ts: Seq<TriviaM>) -> Seq<char>
    decreases ts.len(),
{
    if ts.len() == 0 {
        Seq::empty()
    } else {
        trivias_text(ts.drop_last()) + ts.last().text
    }
}

/// The text of a token stream: each token's leading trivia, then the token.
pub open spec fn toks_text(ts: Seq<TokM>) -> Seq<char>
    decreases ts.len(),
{
    if ts.len() == 0 {
        Seq::empty()
    } else {
        toks_text(ts.drop_last()) + trivias_text(ts.last().trivia) + ts.last().text
    }
}

/// The only diagnostics are unterminated strings: no character was skipped.
pub open spec fn only_unterminated(ds: Seq<DiagModel>) -> bool {
    forall|k: int| 0 <= k < ds.len() ==> (#[trigger] ds[k]).message == "Unterminated string literal"@
}

proof fn lemma_trivias_text_prepend(t: TriviaM, ts: Seq<TriviaM>)
    ensures
        trivias_text(seq![t] + ts) == t.text + trivias_text(ts),
    decreases ts.len(),
{
    if ts.len() == 0 {
        assert(seq![t] + ts =~= seq![t]);
        assert(seq![t].drop_last() =~= Seq::<TriviaM>::empty());
        assert(trivias_text(Seq::<TriviaM>::empty()) == Seq::<char>::empty());
        assert(trivias_text(seq![t]) == trivias_text(Seq::<TriviaM>::empty()) + t.text);
        assert(Seq::<char>::empty() + t.text =~= t.text + Seq::<char>::empty());
    } else {
        assert((seq![t] + ts).drop_last() =~= seq![t] + ts.drop_last());
        assert((seq![t] + ts).last() == ts.last());
        lemma_trivias_text_prepend(t, ts.drop_last());
        assert(t.text + trivias_text(ts.drop_last()) + ts.last().text =~= t.text + (trivias_text(ts.drop_last()) + ts.last().text));
    }
}

proof fn lemma_toks_text_prepend(t: TokM, ts: Seq<TokM>)
    ensures
        toks_text(seq![t] + ts) == trivias_text(t.trivia) + t.text + toks_text(ts),
    decreases ts.len(),
{
    if ts.len() == 0 {
        assert(seq![t] + ts =~= seq![t]);
        assert(seq![t].drop_last() =~= Seq::<TokM>::empty());
        assert(toks_text(Seq::<TokM>::empty()) == Seq::<char>::empty());
        assert(toks_text(seq![t]) == toks_text(Seq::<TokM>::empty()) + trivias_text(t.trivia) + t.text);
        assert(Seq::<char>::empty() + trivias_text(t.trivia) + t.text =~= trivias_text(t.trivia) + t.text + Seq::<char>::empty());
    } else {
        assert((seq![t] + ts).drop_last() =~= seq![t] + ts.drop_last());
        assert((seq![t] + ts).last() == ts.last());
        lemma_toks_text_prepend(t, ts.drop_last());
        let a = trivias_text(t.trivia) + t.text;
        assert(a + toks_text(ts.drop_last()) + trivias_text(ts.last().trivia) + ts.last().text =~= a + (toks_text(ts.drop_last()) + trivias_text(ts.last().trivia) + ts.last().text));
    }
}

proof fn lemma_space_end_bounds(cs: Seq<char>, i: int)
    requires
        0 <= i <= cs.len(),
    ensures
        i <= space_end(cs, i) <= cs.len(),
    decreases cs.len() - i,
{
    if i < cs.len() && is_space_or_tab(cs[i]) {
        lemma_space_end_bounds(cs, i + 1);
    }
}

proof fn lemma_line_end_bounds(cs: Seq<char>, i: int)
    requires
        0 <= i <= cs.len(),
    ensures
        i <= line_end(cs, i) <= cs.len(),
    decreases cs.len() - i,
{
    if i < cs.len() && cs[i] != '\n' && cs[i] != '\r' {
        lemma_line_end_bounds(cs, i + 1);
    }
}

proof fn lemma_number_run_bounds(cs: Seq<char>, j: int, dot: bool)
    requires
        0 <= j <= cs.len(),
    ensures
        j <= number_run(cs, j, dot) <= cs.len(),
        j < cs.len() && is_digit(cs[j]) ==> j < number_run(cs, j, dot),
    decreases cs.len() - j,
{
    if j < cs.len() && is_digit(cs[j]) {
        lemma_number_run_bounds(cs, j + 1, dot);
    } else if j < cs.len() && cs[j] == '.' && !dot {
        lemma_number_run_bounds(cs, j + 1, true);
    }
}

proof fn lemma_string_close_bounds(cs: Seq<char>, j: int)
    requires
        0 <= j <= cs.len(),
    ensures
        j <= string_close(cs, j).0 <= cs.len(),
    decreases cs.len() - j,
{
    if j < cs.len() && cs[j] != '"' {
        if cs[j] == '\\' {
            if j + 1 < cs.len() {
                lemma_string_close_bounds(cs, j + 2);
            }
        } else {
            lemma_string_close_bounds(cs, j + 1);
        }
    }
}

/// A piece of trivia moves the scanner forward and spells its source text.
proof fn lemma_trivia_at(cs: Seq<char>, p: LexPos)
    requires
        0 <= p.i <= cs.len(),
    ensures
        trivia_at(cs, p) matches Some((t, q)) ==> {
            &&& p.i < q.i <= cs.len()
            &&& t.text == cs.subrange(p.i, q.i)
        },
{
    if p.i < cs.len() {
        lemma_space_end_bounds(cs, p.i + 1);
        lemma_line_end_bounds(cs, p.i + 1);
    }
}

/// The trivia at `p` moves forward and spells the source text it covers.
pub proof fn lemma_trivia_run_text(cs: Seq<char>, p: LexPos)
    requires
        0 <= p.i <= cs.len(),
    ensures
        p.i <= trivia_run(cs, p).1.i <= cs.len(),
        trivias_text(trivia_run(cs, p).0) == cs.subrange(
            p.i,
            trivia_run(cs, p).1.i,
        ),
    decreases cs.len() - p.i,
{
    lemma_trivia_at(cs, p);
    match trivia_at(cs, p) {
        Some((t, q)) => {
            lemma_trivia_run_text(cs, q);
            let (more, r) = trivia_run(cs, q);
            lemma_trivias_text_prepend(t, more);
            assert(trivia_run(cs, p).0 == seq![t] + more);
            assert((seq![t] + more)[0] == t);
            assert(cs.subrange(p.i, r.i) =~= cs.subrange(p.i, q.i) + cs.subrange(q.i, r.i));
        },
        None => {
            assert(cs.subrange(p.i, p.i) =~= Seq::<char>::empty());
        },
    }
}

/// A token moves the scanner forward and spells its source text; a
/// character that starts no token is reported as unexpected.
proof fn lemma_token_at(cs: Seq<char>, p: LexPos)
    requires
        0 <= p.i < cs.len(),
    ensures
        ({
            let (ot, q, od) = token_at(cs, p);
            &&& p.i < q.i <= cs.len()
            &&& (ot matches Some(t) ==> t.text == cs.subrange(p.i, q.i) && t.trivia == Seq::<TriviaM>::empty())
            &&& (ot is None ==> (od matches Some(d) && d.message != "Unterminated string literal"@))
        }),
{
    let i = p.i;
    let c = cs[i];
    lemma_number_run_bounds(cs, i, false);
    lemma_number_run_bounds(cs, i + 1, false);
    lemma_number_run_bounds(cs, i + 1, true);
    lemma_string_close_bounds(cs, i + 1);
    crate::script::lemma_ident_end(cs, i + 1);
    reveal_strlit("Unterminated string literal");
    reveal_strlit("Unexpected character: '");
    assert(unexpected_message(c).len() != "Unterminated string literal"@.len());
}

/// Without skipped characters, the tokens from `p` spell the text from `p`,
/// the first carrying the trivia `leading`.
proof fn lemma_lex_from_text(cs: Seq<char>, p: LexPos, leading: Seq<TriviaM>)
    requires
        0 <= p.i <= cs.len(),
        only_unterminated(lex_from(cs, p, leading).1),
    ensures
        lex_from(cs, p, leading).0.len() >= 1,
        lex_from(cs, p, leading).0[0].trivia == leading,
        toks_text(lex_from(cs, p, leading).0) == trivias_text(leading) + cs.subrange(p.i, cs.len() as int),
    decreases cs.len() - p.i,
{
    if p.i < cs.len() {
        lemma_token_at(cs, p);
        let (ot, q, od) = token_at(cs, p);
        lemma_trivia_run_text(cs, q);
        let (tr, r) = trivia_run(cs, q);
        let (ts, ds) = lex_from(cs, r, tr);
        match ot {
            Some(t) => {
                let t2 = TokM { trivia: leading, ..t };
                assert(lex_from(cs, p, leading).0 == seq![t2] + ts);
                assert(only_unterminated(ds)) by {
                    match od {
                        Some(d) => {
                            assert forall|k: int| 0 <= k < ds.len() implies (#[trigger] ds[k]).message == "Unterminated string literal"@ by {
                                assert((seq![d] + ds)[k + 1] == ds[k]);
                            }
                        },
                        None => {},
                    }
                }
                lemma_lex_from_text(cs, r, tr);
                lemma_toks_text_prepend(t2, ts);
                assert((seq![t2] + ts)[0] == t2);
                assert(cs.subrange(p.i, cs.len() as int) =~= cs.subrange(p.i, q.i) + cs.subrange(q.i, r.i)
                    + cs.subrange(r.i, cs.len() as int));
                assert(trivias_text(leading) + t.text + (trivias_text(tr) + cs.subrange(r.i, cs.len() as int))
                    =~= trivias_text(leading) + cs.subrange(p.i, cs.len() as int));
            },
            None => {
                let d = od->Some_0;
                assert(lex_from(cs, p, leading).1 == seq![d] + ds);
                assert((seq![d] + ds)[0] == d);
            },
        }
    } else {
        let eof = eof_at(cs, p, leading);
        assert(cs.subrange(p.i, cs.len() as int) =~= Seq::<char>::empty());
        assert(seq![eof].drop_last() =~= Seq::<TokM>::empty());
        assert(toks_text(Seq::<TokM>::empty()) == Seq::<char>::empty());
        assert(toks_text(seq![eof]) == toks_text(Seq::<TokM>::empty()) + trivias_text(leading) + eof.text);
        assert(Seq::<char>::empty() + trivias_text(leading) + Seq::<char>::empty() =~= trivias_text(leading) + Seq::<char>::empty());
    }
}

/// Tokenizing is lossless: when no character is skipped, the tokens and
/// their trivia spell the input after its byte-order mark.
pub proof fn law_lex_lossless(cs: Seq<char>)
    requires
        only_unterminated(lex(cs).1),
    ensures
        toks_text(lex(cs).0) == cs.subrange(bom_len(cs), cs.len() as int),
{
    let p0 = LexPos { i: bom_len(cs), line: 0, col: 0 };
    lemma_trivia_run_text(cs, p0);
    let (tr, p1) = trivia_run(cs, p0);
    lemma_lex_from_text(cs, p1, tr);
    assert(cs.subrange(bom_len(cs), cs.len() as int) =~= cs.subrange(bom_len(cs), p1.i) + cs.subrange(p1.i, cs.len() as int));
}

} // verus!
