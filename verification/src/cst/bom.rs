//! A leading byte-order mark changes nothing in the tokens but their byte
//! offsets, which it moves by the three bytes of its UTF-8 encoding.
use vstd::prelude::*;
use crate::cst::diagnostic::TextRange;
use crate::cst::lexer::{bom_len, is_space_or_tab};
use crate::cst::lexmodel::{TriviaM, TokM, KindM, LexPos, byte_span, space_end, line_end, number_run, number_starts,
    number_end, string_close, trivia_at, trivia_run, plain, token_at, eof_at, lex_from, lex};
use crate::cst::model::DiagModel;
use crate::script::ident_end;
use crate::text::{utf8_offset, lemma_encode_utf8_append, lemma_encode_single, lemma_utf8_offset_mono};

verus! {

pub open spec fn with_bom(s: Seq<char>) -> Seq<char> {
    seq!['\u{feff}'] + s
}

pub open spec fn shift_range(r: TextRange) -> TextRange {
    TextRange { start: (r.start + 3) as usize, end: (r.end + 3) as usize }
}

pub open spec fn shift_trivia(x: TriviaM) -> TriviaM {
    TriviaM { byte_range: shift_range(x.byte_range), ..x }
}

pub open spec fn shift_trivias(ts: Seq<TriviaM>) -> Seq<TriviaM> {
    ts.map_values(|x: TriviaM| shift_trivia(x))
}

pub open spec fn shift_tok(x: TokM) -> TokM {
    TokM { byte_range: shift_range(x.byte_range), trivia: shift_trivias(x.trivia), ..x }
}

/// The tokens with their byte ranges, and those of their trivia, moved by
/// three bytes.
pub open spec fn shift_toks(ts: Seq<TokM>) -> Seq<TokM> {
    ts.map_values(|x: TokM| shift_tok(x))
}

pub open spec fn sh(p: LexPos) -> LexPos {
    LexPos { i: p.i + 1, ..p }
}

/// The input is short enough for its byte offsets, moved by three, to stay
/// 32-bit numbers.
pub open spec fn small(s: Seq<char>) -> bool {
    utf8_offset(s, s.len() as int) + 3 <= u32::MAX
}

proof fn lemma_offset(s: Seq<char>, i: int)
    requires
        0 <= i <= s.len(),
    ensures
        utf8_offset(with_bom(s), i + 1) == utf8_offset(s, i) + 3,
{
    let t = with_bom(s);
    assert(t.take(i + 1) =~= seq!['\u{feff}'] + s.take(i));
    lemma_encode_utf8_append(seq!['\u{feff}'], s.take(i));
    lemma_encode_single('\u{feff}');
    vstd::utf8::char_is_scalar('\u{feff}');
    assert(('\u{feff}' as u32) == 0xFEFFu32);
    assert(vstd::utf8::encode_scalar(0xFEFFu32).len() == 3);
}

proof fn lemma_span(s: Seq<char>, a: int, b: int)
    requires
        0 <= a <= b <= s.len(),
        small(s),
    ensures
        byte_span(with_bom(s), a + 1, b + 1) == shift_range(byte_span(s, a, b)),
{
    lemma_offset(s, a);
    lemma_offset(s, b);
    lemma_utf8_offset_mono(s, a, s.len() as int);
    lemma_utf8_offset_mono(s, b, s.len() as int);
    lemma_utf8_offset_mono(s, 0, a);
    assert(s.take(0) =~= Seq::<char>::empty());
    assert(vstd::utf8::encode_utf8(Seq::<char>::empty()) =~= Seq::<u8>::empty());
}

proof fn lemma_index(s: Seq<char>, i: int)
    requires
        0 <= i < s.len(),
    ensures
        with_bom(s)[i + 1] == s[i],
        with_bom(s).len() == s.len() + 1,
{
}

proof fn lemma_sub(s: Seq<char>, a: int, b: int)
    requires
        0 <= a <= b <= s.len(),
    ensures
        with_bom(s).subrange(a + 1, b + 1) == s.subrange(a, b),
{
    assert(with_bom(s).subrange(a + 1, b + 1) =~= s.subrange(a, b));
}

proof fn lemma_space_end(s: Seq<char>, i: int)
    requires
        0 <= i,
    ensures
        space_end(with_bom(s), i + 1) == space_end(s, i) + 1,
        i <= space_end(s, i) <= if i <= s.len() { s.len() as int } else { i },
    decreases s.len() - i,
{
    if i < s.len() {
        lemma_index(s, i);
        lemma_space_end(s, i + 1);
    }
}

proof fn lemma_line_end(s: Seq<char>, i: int)
    requires
        0 <= i,
    ensures
        line_end(with_bom(s), i + 1) == line_end(s, i) + 1,
        i <= line_end(s, i) <= if i <= s.len() { s.len() as int } else { i },
    decreases s.len() - i,
{
    if i < s.len() {
        lemma_index(s, i);
        lemma_line_end(s, i + 1);
    }
}

proof fn lemma_ident_end(s: Seq<char>, i: int)
    requires
        0 <= i,
    ensures
        ident_end(with_bom(s), i + 1) == ident_end(s, i) + 1,
        i <= ident_end(s, i) <= if i <= s.len() { s.len() as int } else { i },
    decreases s.len() - i,
{
    if i < s.len() {
        lemma_index(s, i);
        lemma_ident_end(s, i + 1);
    }
}

proof fn lemma_number_run(s: Seq<char>, j: int, dot: bool)
    requires
        0 <= j,
    ensures
        number_run(with_bom(s), j + 1, dot) == number_run(s, j, dot) + 1,
        j <= number_run(s, j, dot) <= if j <= s.len() { s.len() as int } else { j },
    decreases s.len() - j,
{
    if j < s.len() {
        lemma_index(s, j);
        lemma_number_run(s, j + 1, dot);
        lemma_number_run(s, j + 1, true);
    }
}

proof fn lemma_string_close(s: Seq<char>, j: int)
    requires
        0 <= j,
    ensures
        string_close(with_bom(s), j + 1) == (string_close(s, j).0 + 1, string_close(s, j).1),
        string_close(s, j).0 <= s.len(),
        j <= s.len() ==> j <= string_close(s, j).0,
        !string_close(s, j).1 ==> j < string_close(s, j).0,
    decreases s.len() - j,
{
    if j < s.len() {
        lemma_index(s, j);
        if s[j] == '\\' && j + 1 < s.len() {
            lemma_string_close(s, j + 2);
        } else {
            lemma_string_close(s, j + 1);
        }
    }
}

proof fn lemma_number_end(s: Seq<char>, i: int)
    requires
        0 <= i < s.len(),
    ensures
        number_end(with_bom(s), i + 1) == match number_end(s, i) {
            Some(e) => Some(e + 1),
            None => None::<int>,
        },
        match number_end(s, i) {
            Some(e) => i < e <= s.len(),
            None => true,
        },
{
    let t = with_bom(s);
    lemma_index(s, i);
    if i + 1 < s.len() {
        lemma_index(s, i + 1);
    }
    assert(number_starts(t, i + 1) == number_starts(s, i));
    if number_starts(s, i) {
        let c = s[i];
        lemma_number_run(s, i + 1, false);
        lemma_number_run(s, i + 1, true);
        lemma_number_run(s, i, false);
        let e = if c == '-' {
            number_run(s, i + 1, false)
        } else if c == '.' {
            number_run(s, i + 1, true)
        } else {
            number_run(s, i, false)
        };
        if e < s.len() {
            lemma_index(s, e);
        }
        lemma_sub(s, i, e);
    }
}

proof fn lemma_trivia_at(s: Seq<char>, p: LexPos)
    requires
        0 <= p.i,
        small(s),
    ensures
        trivia_at(with_bom(s), sh(p)) == match trivia_at(s, p) {
            Some((x, q)) => Some((shift_trivia(x), sh(q))),
            None => None::<(TriviaM, LexPos)>,
        },
        match trivia_at(s, p) {
            Some((x, q)) => p.i < q.i <= s.len(),
            None => true,
        },
{
    let t = with_bom(s);
    if p.i < s.len() {
        lemma_index(s, p.i);
        if p.i + 1 < s.len() {
            lemma_index(s, p.i + 1);
        }
        lemma_space_end(s, p.i);
        lemma_line_end(s, p.i);
        lemma_space_end(s, p.i + 1);
        lemma_line_end(s, p.i + 1);
        let c = s[p.i];
        if is_space_or_tab(c) {
            let e = space_end(s, p.i);
            lemma_sub(s, p.i, e);
            lemma_span(s, p.i, e);
        } else if c == '\n' || c == '\r' {
            let e = if c == '\r' && p.i + 1 < s.len() && s[p.i + 1] == '\n' { p.i + 2 } else { p.i + 1 };
            lemma_sub(s, p.i, e);
            lemma_span(s, p.i, e);
        } else if c == '#' {
            let e = line_end(s, p.i);
            lemma_sub(s, p.i, e);
            lemma_span(s, p.i, e);
            lemma_offset(s, p.i);
            lemma_offset(s, e);
        }
    }
}

pub(crate) proof fn lemma_trivia_run(s: Seq<char>, p: LexPos)
    requires
        0 <= p.i,
        small(s),
    ensures
        trivia_run(with_bom(s), sh(p)) == (shift_trivias(trivia_run(s, p).0), sh(trivia_run(s, p).1)),
        p.i <= trivia_run(s, p).1.i,
        p.i <= s.len() ==> trivia_run(s, p).1.i <= s.len(),
    decreases s.len() - p.i,
{
    lemma_trivia_at(s, p);
    match trivia_at(s, p) {
        Some((x, q)) => {
            lemma_trivia_run(s, q);
            let (more, r) = trivia_run(s, q);
            assert(shift_trivias(seq![x] + more) =~= seq![shift_trivia(x)] + shift_trivias(more));
        },
        None => {
            assert(shift_trivias(Seq::<TriviaM>::empty()) =~= Seq::<TriviaM>::empty());
        },
    }
}

proof fn lemma_plain(kind: KindM, s: Seq<char>, p: LexPos, e: int)
    requires
        0 <= p.i <= e <= s.len(),
        small(s),
    ensures
        plain(kind, with_bom(s), sh(p), e + 1) == (
            Some(shift_tok(plain(kind, s, p, e).0.unwrap())),
            sh(plain(kind, s, p, e).1),
            None::<DiagModel>,
        ),
        plain(kind, s, p, e).0 is Some,
        plain(kind, s, p, e).1.i == e,
{
    lemma_sub(s, p.i, e);
    lemma_span(s, p.i, e);
    assert(shift_trivias(Seq::<TriviaM>::empty()) =~= Seq::<TriviaM>::empty());
}

pub open spec fn shift_opt(o: Option<TokM>) -> Option<TokM> {
    match o {
        Some(x) => Some(shift_tok(x)),
        None => None,
    }
}

pub(crate) proof fn lemma_token_at(s: Seq<char>, p: LexPos)
    requires
        0 <= p.i < s.len(),
        small(s),
    ensures
        token_at(with_bom(s), sh(p)) == (shift_opt(token_at(s, p).0), sh(token_at(s, p).1), token_at(s, p).2),
        p.i < token_at(s, p).1.i <= s.len(),
{
    let t = with_bom(s);
    let i = p.i;
    lemma_index(s, i);
    if i + 1 < s.len() {
        lemma_index(s, i + 1);
    }
    lemma_number_end(s, i);
    let c = s[i];
    match number_end(s, i) {
        Some(e) => {
            lemma_plain(KindM::Number, s, p, e);
        },
        None => {
            if c == '{' {
                lemma_plain(KindM::OpenBrace, s, p, i + 1);
            } else if c == '}' {
                lemma_plain(KindM::CloseBrace, s, p, i + 1);
            } else if c == '=' {
                lemma_plain(KindM::OpEquals, s, p, i + 1);
            } else if c == '<' {
                if i + 1 < s.len() && s[i + 1] == '=' {
                    lemma_plain(KindM::OpLessOrEqual, s, p, i + 2);
                } else {
                    lemma_plain(KindM::OpLessThan, s, p, i + 1);
                }
            } else if c == '>' {
                if i + 1 < s.len() && s[i + 1] == '=' {
                    lemma_plain(KindM::OpGreaterOrEqual, s, p, i + 2);
                } else {
                    lemma_plain(KindM::OpGreaterThan, s, p, i + 1);
                }
            } else if c == '!' {
                if i + 1 < s.len() && s[i + 1] == '=' {
                    lemma_plain(KindM::OpNotEquals, s, p, i + 2);
                }
            } else if c == '"' {
                lemma_string_close(s, i + 1);
                let (e, unterminated) = string_close(s, i + 1);
                let b = if unterminated { e } else { e - 1 };
                lemma_sub(s, i + 1, b);
                lemma_plain(KindM::String(crate::cst::lexer::unescape(s.subrange(i + 1, b))), s, p, e);
            } else if crate::script::identifier_char(c) {
                lemma_ident_end(s, i);
                lemma_ident_end(s, i + 1);
                let e = ident_end(s, i);
                lemma_sub(s, i, e);
                lemma_plain(KindM::Ident(s.subrange(i, e)), s, p, e);
            }
        },
    }
}

proof fn lemma_lex_from(s: Seq<char>, p: LexPos, lead: Seq<TriviaM>)
    requires
        0 <= p.i <= s.len(),
        small(s),
    ensures
        lex_from(with_bom(s), sh(p), shift_trivias(lead)) == (shift_toks(lex_from(s, p, lead).0), lex_from(s, p, lead).1),
    decreases s.len() - p.i,
{
    if p.i < s.len() {
        lemma_token_at(s, p);
        let (ot, q, od) = token_at(s, p);
        lemma_trivia_run(s, q);
        let (tr, r) = trivia_run(s, q);
        lemma_lex_from(s, r, tr);
        let (ts, ds) = lex_from(s, r, tr);
        match ot {
            Some(x) => {
                assert(shift_toks(seq![TokM { trivia: lead, ..x }] + ts) =~= seq![TokM { trivia: shift_trivias(lead), ..shift_tok(x) }] + shift_toks(ts));
            },
            None => {},
        }
    } else {
        lemma_span(s, p.i, p.i);
        assert(shift_toks(seq![eof_at(s, p, lead)]) =~= seq![eof_at(with_bom(s), sh(p), shift_trivias(lead))]);
    }
}

/// A byte-order mark in front of a text that has none changes nothing in
/// what the tokenizer gives but the byte offsets of the tokens and their
/// trivia, each moved by three bytes: kinds, texts, line/column ranges and
/// diagnostics stay as they are.
pub proof fn law_bom_only_shifts_byte_offsets(s: Seq<char>)
    requires
        !(s.len() > 0 && s[0] == '\u{feff}'),
        small(s),
    ensures
        lex(with_bom(s)).0 == shift_toks(lex(s).0),
        lex(with_bom(s)).1 == lex(s).1,
{
    let p0 = LexPos { i: 0, line: 0, col: 0 };
    assert(bom_len(with_bom(s)) == 1);
    assert(bom_len(s) == 0);
    assert(sh(p0) == LexPos { i: 1, line: 0, col: 0 });
    lemma_trivia_run(s, p0);
    let (tr, p) = trivia_run(s, p0);
    lemma_lex_from(s, p, tr);
}

} // verus!
