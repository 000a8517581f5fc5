//! CST tokenizer: a linear scanner producing tokens with their leading trivia.
use vstd::prelude::*;
use vstd::string::*;
use vstd::utf8::{encode_utf8, encode_scalar};
use crate::ast::{Range, span_fits};
use crate::cst::diagnostic::{TextRange, CstDiagnostic, Severity};
use crate::cst::token::{TokenKind, TriviaKind, Trivia, CstToken};
use crate::numtext::is_digit_char;
use crate::script::{identifier_char, is_identifier_char, ident_end};
use crate::cst::lexmodel::{
    LexPos, TriviaM, TokM, trivia_m, trivias_m, tok_m, toks_m, trivia_at, trivia_run, number_run,
    number_end, string_close, skipped, token_at, lex_from, lex, unexpected_message, lemma_space_end,
    lemma_line_end, lemma_ident_run, trivias_text, toks_text,
    only_unterminated, law_lex_lossless,
};
use crate::cst::model::{DiagModel, diags_m, diag_model};
use crate::text::{
    utf8_offset, utf8_width, utf8_len, push_char, literal, chars_of, char_is_alphanumeric,
    unicode_alphanumeric, is_digit, lemma_utf8_offset_step, lemma_encode_slice,
    lemma_offset_is_boundary, lemma_utf8_offset_full, lemma_utf8_offset_mono,
};

verus! {

/// Scanner state: the characters of the input and the cursor, with its byte
/// offset and its line/column position.
struct Scan {
    cs: Vec<char>,
    i: usize,
    byte_pos: usize,
    line: u32,
    col: u32,
}

impl Scan {
    /// The cursor as the model sees it.
    spec fn pos(&self) -> LexPos {
        LexPos { i: self.i as int, line: self.line as int, col: self.col as int }
    }

    spec fn wf(&self) -> bool {
        &&& self.i <= self.cs.len()
        &&& self.byte_pos == utf8_offset(self.cs@, self.i as int)
        &&& utf8_offset(self.cs@, self.cs.len() as int) <= u32::MAX
        &&& self.line + self.col <= self.byte_pos
    }

    /// The scanner moved forward over the same text.
    spec fn advanced(&self, before: &Scan) -> bool {
        &&& self.cs@ == before.cs@
        &&& before.i <= self.i
        &&& self.wf()
    }

    fn peek(&self) -> (c: char)
        requires
            self.wf(),
            self.i < self.cs.len(),
        ensures
            c == self.cs@[self.i as int],
    {
        self.cs[self.i]
    }

    /// Moves past one character on the current line, counting `cols` columns.
    fn bump(&mut self, cols: u32)
        requires
            old(self).wf(),
            old(self).i < old(self).cs.len(),
            cols == 1 || cols == utf8_width(old(self).cs@[old(self).i as int]),
        ensures
            final(self).cs@ == old(self).cs@,
            final(self).i == old(self).i + 1,
            final(self).line == old(self).line,
            final(self).col == old(self).col + cols,
            final(self).wf(),
    {
        proof {
            lemma_utf8_offset_step(self.cs@, self.i as int);
            lemma_utf8_offset_mono(self.cs@, self.i + 1, self.cs.len() as int);
        }
        let w = utf8_len(self.cs[self.i]);
        self.i = self.i + 1;
        self.byte_pos = self.byte_pos + w;
        self.col = self.col + cols;
    }

    /// Moves past one line-ending character, starting a new line.
    fn bump_line(&mut self)
        requires
            old(self).wf(),
            old(self).i < old(self).cs.len(),
        ensures
            final(self).cs@ == old(self).cs@,
            final(self).i == old(self).i + 1,
            final(self).line == old(self).line + 1,
            final(self).col == 0,
            final(self).wf(),
    {
        proof {
            lemma_utf8_offset_step(self.cs@, self.i as int);
            lemma_utf8_offset_mono(self.cs@, self.i + 1, self.cs.len() as int);
        }
        let w = utf8_len(self.cs[self.i]);
        self.i = self.i + 1;
        self.byte_pos = self.byte_pos + w;
        self.line = self.line + 1;
        self.col = 0;
    }

    fn range_from(&self, start_line: u32, start_col: u32) -> (r: Range)
        ensures
            r == (Range { start_line, start_col, end_line: self.line, end_col: self.col }),
    {
        Range { start_line, start_col, end_line: self.line, end_col: self.col }
    }

    /// The text of the characters from `from` to the cursor.
    fn text_since(&self, from: usize) -> (s: String)
        requires
            self.wf(),
            from <= self.i,
        ensures
            s@ == self.cs@.subrange(from as int, self.i as int),
    {
        let mut s = String::new();
        let mut k = from;
        while k < self.i
            invariant
                from <= k <= self.i <= self.cs.len(),
                s@ == self.cs@.subrange(from as int, k as int),
            decreases self.i - k,
        {
            push_char(&mut s, self.cs[k]);
            assert(self.cs@.subrange(from as int, k + 1) =~= self.cs@.subrange(from as int, k as int).push(self.cs@[k as int]));
            k += 1;
        }
        s
    }
}

pub open spec fn is_space_or_tab(c: char) -> bool {
    c == ' ' || c == '\t'
}

/// Scans a run of spaces and tabs.
fn scan_whitespace(sc: &mut Scan) -> (t: Trivia)
    requires
        old(sc).wf(),
        old(sc).i < old(sc).cs.len(),
        is_space_or_tab(old(sc).cs@[old(sc).i as int]),
    ensures
        final(sc).advanced(old(sc)),
        final(sc).i > old(sc).i,
        t.kind == TriviaKind::Whitespace,
        t.byte_range.start == old(sc).byte_pos && t.byte_range.end == final(sc).byte_pos,
        t.text@ == final(sc).cs@.subrange(old(sc).i as int, final(sc).i as int),
        forall|k: int| old(sc).i <= k < final(sc).i ==> is_space_or_tab(#[trigger] final(sc).cs@[k]),
        trivia_at(old(sc).cs@, old(sc).pos()) == Some((trivia_m(t), final(sc).pos())),
{
    let start = sc.i;
    let b0 = sc.byte_pos;
    let (l0, c0) = (sc.line, sc.col);
    while sc.i < sc.cs.len() && (sc.cs[sc.i] == ' ' || sc.cs[sc.i] == '\t')
        invariant
            sc.wf(),
            sc.cs@ == old(sc).cs@,
            start == old(sc).i,
            start <= sc.i,
            sc.line == l0,
            sc.col == c0 + (sc.i - start),
            l0 == old(sc).line,
            c0 == old(sc).col,
            forall|k: int| start <= k < sc.i ==> is_space_or_tab(#[trigger] sc.cs@[k]),
        decreases sc.cs.len() - sc.i,
    {
        sc.bump(1);
    }
    proof {
        lemma_space_end(sc.cs@, start as int, sc.i as int);
    }
    let text = sc.text_since(start);
    Trivia { kind: TriviaKind::Whitespace, text, range: sc.range_from(l0, c0), byte_range: TextRange::new(b0, sc.byte_pos) }
}

/// Scans one newline: `\n`, `\r\n` or a lone `\r`.
fn scan_newline(sc: &mut Scan) -> (t: Trivia)
    requires
        old(sc).wf(),
        old(sc).i < old(sc).cs.len(),
        old(sc).cs@[old(sc).i as int] == '\n' || old(sc).cs@[old(sc).i as int] == '\r',
    ensures
        final(sc).advanced(old(sc)),
        final(sc).i > old(sc).i,
        t.kind == TriviaKind::Newline,
        t.byte_range.start == old(sc).byte_pos && t.byte_range.end == final(sc).byte_pos,
        t.text@ == final(sc).cs@.subrange(old(sc).i as int, final(sc).i as int),
        t.text@ == seq!['\n'] || t.text@ == seq!['\r'] || t.text@ == seq!['\r', '\n'],
        old(sc).cs@[old(sc).i as int] == '\r' && old(sc).i + 1 < old(sc).cs.len()
            && old(sc).cs@[old(sc).i + 1] == '\n' ==> t.text@ == seq!['\r', '\n'],
        trivia_at(old(sc).cs@, old(sc).pos()) == Some((trivia_m(t), final(sc).pos())),
{
    let start = sc.i;
    let b0 = sc.byte_pos;
    let (l0, c0) = (sc.line, sc.col);
    let first = sc.peek();
    if first == '\n' {
        sc.bump_line();
    } else {
        // A carriage return, possibly followed by a line feed; the pair is one newline.
        proof {
            lemma_utf8_offset_step(sc.cs@, sc.i as int);
            lemma_utf8_offset_mono(sc.cs@, sc.i + 1, sc.cs.len() as int);
        }
        let w = utf8_len(sc.cs[sc.i]);
        sc.i = sc.i + 1;
        sc.byte_pos = sc.byte_pos + w;
        if sc.i < sc.cs.len() && sc.cs[sc.i] == '\n' {
            proof {
                lemma_utf8_offset_step(sc.cs@, sc.i as int);
                lemma_utf8_offset_mono(sc.cs@, sc.i + 1, sc.cs.len() as int);
            }
            let w2 = utf8_len(sc.cs[sc.i]);
            sc.i = sc.i + 1;
            sc.byte_pos = sc.byte_pos + w2;
        }
        proof {
            lemma_utf8_offset_mono(sc.cs@, sc.i as int, sc.cs.len() as int);
        }
        sc.line = sc.line + 1;
        sc.col = 0;
    }
    let text = sc.text_since(start);
    assert(text@.len() >= 1);
    assert(text@ =~= seq!['\n'] || text@ =~= seq!['\r'] || text@ =~= seq!['\r', '\n']);
    Trivia { kind: TriviaKind::Newline, text, range: sc.range_from(l0, c0), byte_range: TextRange::new(b0, sc.byte_pos) }
}

/// Scans a comment from `#` up to (not including) the end of the line; its
/// text is the source text it covers.
fn scan_comment(sc: &mut Scan) -> (t: Trivia)
    requires
        old(sc).wf(),
        old(sc).i < old(sc).cs.len(),
        old(sc).cs@[old(sc).i as int] == '#',
    ensures
        final(sc).advanced(old(sc)),
        final(sc).i > old(sc).i,
        t.kind == TriviaKind::Comment,
        t.byte_range.start == old(sc).byte_pos && t.byte_range.end == final(sc).byte_pos,
        t.text@ == final(sc).cs@.subrange(old(sc).i as int, final(sc).i as int),
        forall|k: int|
            old(sc).i <= k < final(sc).i ==> #[trigger] final(sc).cs@[k] != '\n' && final(sc).cs@[k]
                != '\r',
        final(sc).i == final(sc).cs.len() || final(sc).cs@[final(sc).i as int] == '\n'
            || final(sc).cs@[final(sc).i as int] == '\r',
        trivia_at(old(sc).cs@, old(sc).pos()) == Some((trivia_m(t), final(sc).pos())),
{
    let start = sc.i;
    let b0 = sc.byte_pos;
    let (l0, c0) = (sc.line, sc.col);
    let mut text = String::new();
    while sc.i < sc.cs.len() && sc.cs[sc.i] != '\n' && sc.cs[sc.i] != '\r'
        invariant
            sc.wf(),
            sc.cs@ == old(sc).cs@,
            start == old(sc).i,
            start <= sc.i,
            sc.line == l0,
            sc.col == c0 + (sc.byte_pos - b0),
            b0 == utf8_offset(sc.cs@, start as int),
            l0 == old(sc).line,
            c0 == old(sc).col,
            text@ == sc.cs@.subrange(start as int, sc.i as int),
            forall|k: int| start <= k < sc.i ==> #[trigger] sc.cs@[k] != '\n' && sc.cs@[k] != '\r',
        decreases sc.cs.len() - sc.i,
    {
        let c = sc.peek();
        let w = utf8_len(c);
        push_char(&mut text, c);
        assert(sc.cs@.subrange(start as int, sc.i + 1) =~= sc.cs@.subrange(start as int, sc.i as int).push(c));
        proof {
            lemma_utf8_offset_step(sc.cs@, sc.i as int);
        }
        sc.bump(w as u32);
    }
    proof {
        lemma_line_end(sc.cs@, start as int, sc.i as int);
    }
    Trivia { kind: TriviaKind::Comment, text, range: sc.range_from(l0, c0), byte_range: TextRange::new(b0, sc.byte_pos) }
}

/// The cursor fields of two scanner states agree.
spec fn same_cursor(a: &Scan, b: &Scan) -> bool {
    &&& a.cs@ == b.cs@
    &&& a.i == b.i
    &&& a.byte_pos == b.byte_pos
    &&& a.line == b.line
    &&& a.col == b.col
}

/// Tries to scan a numeric literal at the cursor: an optional `-` or `.`
/// prefix followed by a digit, then digits and at most one fractional dot.
/// Fails, leaving the cursor where it was, when the literal runs into an
/// alphanumeric character (`42abc` is an identifier) or is not a valid float.
fn try_scan_number(sc: &mut Scan) -> (r: Option<String>)
    requires
        old(sc).wf(),
        old(sc).i < old(sc).cs.len(),
    ensures
        final(sc).wf(),
        r is None ==> same_cursor(final(sc), old(sc)),
        r matches Some(text) ==> {
            &&& final(sc).advanced(old(sc))
            &&& final(sc).i > old(sc).i
            &&& final(sc).line == old(sc).line
            &&& text@ == final(sc).cs@.subrange(old(sc).i as int, final(sc).i as int)
            &&& crate::numtext::float_syntax(text@)
            &&& (final(sc).i == final(sc).cs.len() || !unicode_alphanumeric(
                final(sc).cs@[final(sc).i as int],
            ))
            &&& final(sc).col == old(sc).col + (final(sc).i - old(sc).i)
        },
        r is None <==> number_end(old(sc).cs@, old(sc).i as int) is None,
        r is Some ==> number_end(old(sc).cs@, old(sc).i as int) == Some(final(sc).i as int),
{
    let (i0, b0, l0, c0) = (sc.i, sc.byte_pos, sc.line, sc.col);
    let c = sc.peek();
    let ghost cs = sc.cs@;
    let ghost e_spec = if c == '-' {
        number_run(cs, i0 + 1, false)
    } else if c == '.' {
        number_run(cs, i0 + 1, true)
    } else {
        number_run(cs, i0 as int, false)
    };
    if !is_digit_char(c) && c != '.' && c != '-' {
        return None;
    }
    if c == '.' || c == '-' {
        if sc.i + 1 >= sc.cs.len() {
            return None;
        }
        if !is_digit_char(sc.cs[sc.i + 1]) {
            return None;
        }
    }
    let mut has_dot = false;
    if c == '-' || c == '.' {
        sc.bump(1);
        if c == '.' {
            has_dot = true;
        }
    }
    while sc.i < sc.cs.len()
        invariant
            sc.wf(),
            sc.cs@ == old(sc).cs@,
            cs == sc.cs@,
            i0 == old(sc).i,
            i0 <= sc.i,
            sc.line == old(sc).line,
            sc.col == c0 + (sc.i - i0),
            c0 == old(sc).col,
            sc.i == i0 ==> sc.i < sc.cs.len() && is_digit(sc.cs@[i0 as int]),
            number_run(cs, sc.i as int, has_dot) == e_spec,
        ensures
            sc.wf(),
            sc.cs@ == old(sc).cs@,
            i0 <= sc.i,
            sc.line == old(sc).line,
            sc.col == c0 + (sc.i - i0),
            sc.i == i0 ==> sc.i < sc.cs.len() && is_digit(sc.cs@[i0 as int]),
            sc.i == e_spec,
        decreases sc.cs.len() - sc.i,
    {
        let b = sc.peek();
        if is_digit_char(b) {
            sc.bump(1);
        } else if b == '.' && !has_dot {
            sc.bump(1);
            has_dot = true;
        } else {
            break;
        }
    }
    if sc.i < sc.cs.len() && char_is_alphanumeric(sc.cs[sc.i]) {
        sc.i = i0;
        sc.byte_pos = b0;
        sc.line = l0;
        sc.col = c0;
        return None;
    }
    if !crate::numtext::is_float_text(&sc.cs, i0, sc.i) {
        sc.i = i0;
        sc.byte_pos = b0;
        sc.line = l0;
        sc.col = c0;
        return None;
    }
    Some(sc.text_since(i0))
}

/// The content of a quoted string body: a backslash takes the following
/// character literally, and a trailing lone backslash is dropped.
pub open spec fn unescape(t: Seq<char>) -> Seq<char>
    decreases t.len(),
{
    if t.len() == 0 {
        seq![]
    } else if t[0] == '\\' {
        if t.len() == 1 {
            seq![]
        } else {
            seq![t[1]] + unescape(t.skip(2))
        }
    } else {
        seq![t[0]] + unescape(t.skip(1))
    }
}

/// `t` does not end in the middle of an escape.
pub open spec fn escapes_complete(t: Seq<char>) -> bool
    decreases t.len(),
{
    if t.len() == 0 {
        true
    } else if t[0] == '\\' {
        t.len() >= 2 && escapes_complete(t.skip(2))
    } else {
        escapes_complete(t.skip(1))
    }
}

proof fn lemma_unescape_append(x: Seq<char>, y: Seq<char>)
    requires
        escapes_complete(x),
    ensures
        unescape(x + y) == unescape(x) + unescape(y),
        escapes_complete(y) ==> escapes_complete(x + y),
    decreases x.len(),
{
    if x.len() == 0 {
        assert(x + y =~= y);
    } else if x[0] == '\\' {
        assert((x + y)[0] == '\\');
        assert((x + y).skip(2) =~= x.skip(2) + y);
        lemma_unescape_append(x.skip(2), y);
        assert(seq![x[1]] + (unescape(x.skip(2)) + unescape(y)) =~= (seq![x[1]] + unescape(x.skip(2))) + unescape(y));
    } else {
        assert((x + y)[0] == x[0]);
        assert((x + y).skip(1) =~= x.skip(1) + y);
        lemma_unescape_append(x.skip(1), y);
        assert(seq![x[0]] + (unescape(x.skip(1)) + unescape(y)) =~= (seq![x[0]] + unescape(x.skip(1))) + unescape(y));
    }
}

/// Scans a quoted string from its opening quote to its closing quote, or to the
/// end of the input when it is unterminated.  Returns the content with escapes
/// resolved, the source text, and whether the string was unterminated.
fn scan_string(sc: &mut Scan) -> (r: (String, String, bool))
    requires
        old(sc).wf(),
        old(sc).i < old(sc).cs.len(),
        old(sc).cs@[old(sc).i as int] == '"',
    ensures
        final(sc).advanced(old(sc)),
        final(sc).i > old(sc).i,
        r.1@ == final(sc).cs@.subrange(old(sc).i as int, final(sc).i as int),
        r.2 ==> final(sc).i == final(sc).cs.len(),
        !r.2 ==> final(sc).i >= old(sc).i + 2 && final(sc).cs@[final(sc).i - 1] == '"',
        r.0@ == unescape(
            final(sc).cs@.subrange(old(sc).i + 1, if r.2 { final(sc).i as int } else { final(sc).i - 1 }),
        ),
        string_close(old(sc).cs@, old(sc).i + 1) == (final(sc).i as int, r.2),
        final(sc).line == old(sc).line,
        final(sc).col == old(sc).col + (final(sc).i - old(sc).i),
{
    let start = sc.i;
    let ghost cs = sc.cs@;
    let ghost close = string_close(cs, start + 1);
    sc.bump(1);
    let mut content = String::new();
    let mut unterminated = false;
    let mut closed = false;
    assert(sc.cs@.subrange(start + 1, sc.i as int) =~= Seq::<char>::empty());
    while !closed && !unterminated
        invariant
            sc.wf(),
            sc.cs@ == old(sc).cs@,
            cs == sc.cs@,
            start == old(sc).i,
            start + 1 <= sc.i,
            sc.line == old(sc).line,
            sc.col == old(sc).col + (sc.i - start),
            !closed && !unterminated ==> string_close(cs, sc.i as int) == close,
            closed ==> close == (sc.i as int, false),
            unterminated ==> close == (sc.i as int, true),
            !closed && !unterminated ==> escapes_complete(sc.cs@.subrange(start + 1, sc.i as int))
                && content@ == unescape(sc.cs@.subrange(start + 1, sc.i as int)),
            unterminated ==> !closed && sc.i == sc.cs.len() && content@ == unescape(
                sc.cs@.subrange(start + 1, sc.i as int),
            ),
            closed ==> !unterminated && sc.i >= start + 2 && sc.cs@[sc.i - 1] == '"' && content@
                == unescape(sc.cs@.subrange(start + 1, sc.i - 1)),
        decreases sc.cs.len() - sc.i, if closed || unterminated { 0int } else { 1int },
    {
        let ghost body = sc.cs@.subrange(start + 1, sc.i as int);
        if sc.i >= sc.cs.len() {
            unterminated = true;
        } else {
            let b = sc.peek();
            if b == '"' {
                sc.bump(1);
                closed = true;
            } else if b == '\\' {
                sc.bump(1);
                if sc.i < sc.cs.len() {
                    let esc = sc.peek();
                    push_char(&mut content, esc);
                    sc.bump(1);
                    proof {
                        let pair = seq!['\\', esc];
                        assert(sc.cs@.subrange(start + 1, sc.i as int) =~= body + pair);
                        assert(pair.skip(2) =~= Seq::<char>::empty());
                        assert(escapes_complete(Seq::<char>::empty()));
                        assert(escapes_complete(pair));
                        reveal_with_fuel(unescape, 2);
                        assert(pair[1] == esc);
                        assert(unescape(pair) =~= seq![esc]);
                        lemma_unescape_append(body, pair);
                    }
                } else {
                    unterminated = true;
                    proof {
                        let one = seq!['\\'];
                        assert(sc.cs@.subrange(start + 1, sc.i as int) =~= body + one);
                        assert(unescape(one) =~= Seq::<char>::empty());
                        lemma_unescape_append(body, one);
                        assert(content@ =~= unescape(body) + unescape(one));
                    }
                }
            } else {
                push_char(&mut content, b);
                sc.bump(1);
                proof {
                    let one = seq![b];
                    assert(sc.cs@.subrange(start + 1, sc.i as int) =~= body + one);
                    assert(one.skip(1) =~= Seq::<char>::empty());
                    assert(escapes_complete(Seq::<char>::empty()));
                    assert(escapes_complete(one));
                    reveal_with_fuel(unescape, 2);
                    assert(one[0] == b);
                    assert(unescape(one) =~= seq![b]);
                    lemma_unescape_append(body, one);
                }
            }
        }
    }
    let text = sc.text_since(start);
    (content, text, unterminated)
}

/// Scans a maximal run of identifier characters.
fn scan_ident(sc: &mut Scan) -> (text: String)
    requires
        old(sc).wf(),
        old(sc).i < old(sc).cs.len(),
        identifier_char(old(sc).cs@[old(sc).i as int]),
    ensures
        final(sc).advanced(old(sc)),
        final(sc).i > old(sc).i,
        final(sc).line == old(sc).line,
        text@ == final(sc).cs@.subrange(old(sc).i as int, final(sc).i as int),
        forall|k: int| old(sc).i <= k < final(sc).i ==> identifier_char(#[trigger] final(sc).cs@[k]),
        final(sc).i == final(sc).cs.len() || !identifier_char(final(sc).cs@[final(sc).i as int]),
        final(sc).i == ident_end(old(sc).cs@, old(sc).i as int),
        final(sc).col == old(sc).col + (final(sc).i - old(sc).i),
{
    let start = sc.i;
    while sc.i < sc.cs.len() && is_identifier_char(sc.cs[sc.i])
        invariant
            sc.wf(),
            sc.cs@ == old(sc).cs@,
            start == old(sc).i,
            start <= sc.i,
            sc.line == old(sc).line,
            sc.col == old(sc).col + (sc.i - start),
            forall|k: int| start <= k < sc.i ==> identifier_char(#[trigger] sc.cs@[k]),
        decreases sc.cs.len() - sc.i,
    {
        sc.bump(1);
    }
    proof {
        lemma_ident_run(sc.cs@, start as int, sc.i as int);
    }
    sc.text_since(start)
}

// ---------------------------------------------------------------------------
// The token stream
// ---------------------------------------------------------------------------

/// The token lies inside the source on character boundaries and its text is
/// exactly the source text it covers.
pub open spec fn token_in_source(t: CstToken, bytes: Seq<u8>) -> bool {
    &&& span_fits(t.byte_range.start as int, t.byte_range.end as int, bytes)
    &&& encode_utf8(t.text@) == bytes.subrange(t.byte_range.start as int, t.byte_range.end as int)
}

/// The token's kind agrees with its text.
pub open spec fn kind_agrees(t: CstToken) -> bool {
    match t.kind {
        TokenKind::OpenBrace => t.text@ == seq!['{'],
        TokenKind::CloseBrace => t.text@ == seq!['}'],
        TokenKind::OpEquals => t.text@ == seq!['='],
        TokenKind::OpLessThan => t.text@ == seq!['<'],
        TokenKind::OpGreaterThan => t.text@ == seq!['>'],
        TokenKind::OpNotEquals => t.text@ == seq!['!', '='],
        TokenKind::OpLessOrEqual => t.text@ == seq!['<', '='],
        TokenKind::OpGreaterOrEqual => t.text@ == seq!['>', '='],
        TokenKind::Ident(x) => {
            &&& x@ == t.text@
            &&& x@.len() > 0
            &&& forall|k: int| 0 <= k < x@.len() ==> identifier_char(#[trigger] x@[k])
        },
        TokenKind::String(content) => {
            &&& t.text@.len() >= 1
            &&& t.text@[0] == '"'
            &&& (content@ == unescape(t.text@.subrange(1, t.text@.len() - 1)) || content@
                == unescape(t.text@.subrange(1, t.text@.len() as int)))
        },
        TokenKind::Number => crate::numtext::float_syntax(t.text@),
        TokenKind::Boolean(_) => false,
        TokenKind::Eof => t.text@.len() == 0,
    }
}

/// The trivia's kind agrees with its text.
pub open spec fn trivia_agrees(t: Trivia) -> bool {
    match t.kind {
        TriviaKind::Whitespace => t.text@.len() > 0 && forall|k: int|
            0 <= k < t.text@.len() ==> is_space_or_tab(#[trigger] t.text@[k]),
        TriviaKind::Newline => t.text@ == seq!['\n'] || t.text@ == seq!['\r'] || t.text@ == seq![
            '\r',
            '\n',
        ],
        TriviaKind::Comment => t.text@.len() > 0 && t.text@[0] == '#',
    }
}

/// The trivia lies inside the source on character boundaries; a comment's
/// text after its `#` does too.
pub open spec fn trivia_in_source(t: Trivia, bytes: Seq<u8>) -> bool {
    &&& span_fits(t.byte_range.start as int, t.byte_range.end as int, bytes)
    &&& t.kind == TriviaKind::Comment ==> span_fits(
        t.byte_range.start + 1,
        t.byte_range.end as int,
        bytes,
    )
}

/// The characters `a..b` of `cs` cover a byte span that fits its encoding.
proof fn lemma_chars_span_fits(cs: Seq<char>, a: int, b: int)
    requires
        0 <= a <= b <= cs.len(),
    ensures
        span_fits(utf8_offset(cs, a), utf8_offset(cs, b), encode_utf8(cs)),
{
    lemma_offset_is_boundary(cs, a);
    lemma_offset_is_boundary(cs, b);
    lemma_utf8_offset_mono(cs, a, b);
    lemma_encode_slice(cs, a, b);
}

pub open spec fn trivia_text(ts: Seq<Trivia>) -> Seq<char>
    decreases ts.len(),
{
    if ts.len() == 0 {
        seq![]
    } else {
        trivia_text(ts.drop_last()) + ts.last().text@
    }
}

/// The text of a token stream: each token's leading trivia, then the token.
pub open spec fn tokens_text(ts: Seq<CstToken>) -> Seq<char>
    decreases ts.len(),
{
    if ts.len() == 0 {
        seq![]
    } else {
        tokens_text(ts.drop_last()) + trivia_text(ts.last().leading_trivia@) + ts.last().text@
    }
}

/// Number of leading characters that are a byte-order mark (0 or 1).
pub open spec fn bom_len(s: Seq<char>) -> int {
    if s.len() > 0 && s[0] == '\u{feff}' {
        1
    } else {
        0
    }
}

/// What `tokenize` promises of its result.
pub open spec fn tokenize_post(input: &str, tokens: Seq<CstToken>, diags: Seq<CstDiagnostic>) -> bool {
    let bytes = input.spec_bytes();
    &&& tokens.len() >= 1
    &&& tokens.last().kind == TokenKind::Eof
    &&& tokens.last().byte_range == TextRange { start: bytes.len() as usize, end: bytes.len() as usize }
    &&& forall|k: int| 0 <= k < tokens.len() - 1 ==> !(#[trigger] tokens[k].kind is Eof)
    &&& forall|k: int| 0 <= k < tokens.len() ==> token_in_source(#[trigger] tokens[k], bytes)
    &&& forall|k: int| 0 <= k < tokens.len() ==> kind_agrees(#[trigger] tokens[k])
    &&& forall|k: int, j: int|
        #![trigger tokens[k].leading_trivia@[j]]
        0 <= k < tokens.len() && 0 <= j < tokens[k].leading_trivia@.len() ==> trivia_agrees(
            tokens[k].leading_trivia@[j],
        ) && trivia_in_source(tokens[k].leading_trivia@[j], bytes)
    &&& forall|k1: int, k2: int|
        0 <= k1 < k2 < tokens.len() ==> (#[trigger] tokens[k1]).byte_range.end <= (#[trigger] tokens[k2]).byte_range.start
    &&& forall|k: int| 0 <= k < diags.len() ==> (#[trigger] diags[k]).severity == Severity::Error
    // Lossless: when no character was skipped, the tokens and their trivia
    // spell the input.
    &&& no_skipped_chars(diags) ==> tokens_text(tokens) == input@.subrange(
        bom_len(input@),
        input@.len() as int,
    )
}

/// The only diagnostics are for unterminated strings: no character was skipped.
pub open spec fn no_skipped_chars(diags: Seq<CstDiagnostic>) -> bool {
    forall|k: int| 0 <= k < diags.len() ==> (#[trigger] diags[k]).message@ == "Unterminated string literal"@
}

proof fn lemma_trivia_text_model(ts: Seq<Trivia>)
    ensures
        trivia_text(ts) == trivias_text(trivias_m(ts)),
    decreases ts.len(),
{
    if ts.len() > 0 {
        lemma_trivia_text_model(ts.drop_last());
        assert(trivias_m(ts).drop_last() =~= trivias_m(ts.drop_last()));
    }
}

proof fn lemma_tokens_text_model(ts: Seq<CstToken>)
    ensures
        tokens_text(ts) == toks_text(toks_m(ts)),
    decreases ts.len(),
{
    if ts.len() > 0 {
        lemma_tokens_text_model(ts.drop_last());
        lemma_trivia_text_model(ts.last().leading_trivia@);
        assert(toks_m(ts).drop_last() =~= toks_m(ts.drop_last()));
    }
}

/// The exact lossless condition on the tokenizer's output is the model's.
proof fn lemma_lossless(input: &str, tokens: Seq<CstToken>, diags: Seq<CstDiagnostic>)
    requires
        toks_m(tokens) == lex(input@).0,
        diags_m(diags) == lex(input@).1,
        no_skipped_chars(diags),
    ensures
        tokens_text(tokens) == input@.subrange(bom_len(input@), input@.len() as int),
{
    let (ts, ds) = lex(input@);
    assert(only_unterminated(ds)) by {
        assert forall|k: int| 0 <= k < ds.len() implies (#[trigger] ds[k]).message == "Unterminated string literal"@ by {
            assert(ds[k] == diag_model(diags[k]));
        }
    }
    law_lex_lossless(input@);
    lemma_tokens_text_model(tokens);
}

/// Builds a token covering the characters from `start_i` to the cursor.
fn make_token(
    sc: &Scan,
    kind: TokenKind,
    text: String,
    start_i: usize,
    start_byte: usize,
    l0: u32,
    c0: u32,
    leading: Vec<Trivia>,
) -> (t: CstToken)
    requires
        sc.wf(),
        start_i <= sc.i,
        start_byte == utf8_offset(sc.cs@, start_i as int),
        text@ == sc.cs@.subrange(start_i as int, sc.i as int),
    ensures
        t.kind == kind,
        t.text@ == text@,
        t.leading_trivia@ == leading@,
        t.byte_range == (TextRange { start: start_byte, end: sc.byte_pos }),
        t.range == (Range { start_line: l0, start_col: c0, end_line: sc.line, end_col: sc.col }),
        token_in_source(t, encode_utf8(sc.cs@)),
{
    proof {
        lemma_encode_slice(sc.cs@, start_i as int, sc.i as int);
        lemma_offset_is_boundary(sc.cs@, start_i as int);
        lemma_offset_is_boundary(sc.cs@, sc.i as int);
        lemma_utf8_offset_mono(sc.cs@, start_i as int, sc.i as int);
    }
    let range = sc.range_from(l0, c0);
    CstToken::new(kind, text, range, TextRange::new(start_byte, sc.byte_pos), leading)
}

/// Collects the trivia (whitespace, newlines, comments) at the cursor.
fn collect_trivia(sc: &mut Scan) -> (v: Vec<Trivia>)
    requires
        old(sc).wf(),
    ensures
        final(sc).advanced(old(sc)),
        forall|j: int| 0 <= j < v@.len() ==> trivia_agrees(#[trigger] v@[j]),
        forall|j: int| 0 <= j < v@.len() ==> trivia_in_source(#[trigger] v@[j], encode_utf8(final(sc).cs@)),
        final(sc).i < final(sc).cs.len() ==> {
            let c = final(sc).cs@[final(sc).i as int];
            c != ' ' && c != '\t' && c != '\n' && c != '\r' && c != '#'
        },
        trivia_run(old(sc).cs@, old(sc).pos()) == (trivias_m(v@), final(sc).pos()),
{
    let g = sc.i;
    let mut v: Vec<Trivia> = Vec::new();
    let ghost p0 = sc.pos();
    assert(trivias_m(v@) + trivia_run(sc.cs@, p0).0 =~= trivia_run(sc.cs@, p0).0);
    loop
        invariant_except_break
            trivia_run(sc.cs@, p0) == (trivias_m(v@) + trivia_run(sc.cs@, sc.pos()).0, trivia_run(
                sc.cs@,
                sc.pos(),
            ).1),
        invariant
            p0 == old(sc).pos(),
            sc.wf(),
            sc.cs@ == old(sc).cs@,
            g == old(sc).i,
            g <= sc.i,
            forall|j: int| 0 <= j < v@.len() ==> trivia_agrees(#[trigger] v@[j]),
            forall|j: int| 0 <= j < v@.len() ==> trivia_in_source(#[trigger] v@[j], encode_utf8(sc.cs@)),
        ensures
            sc.wf(),
            sc.cs@ == old(sc).cs@,
            g <= sc.i,
            forall|j: int| 0 <= j < v@.len() ==> trivia_agrees(#[trigger] v@[j]),
            forall|j: int| 0 <= j < v@.len() ==> trivia_in_source(#[trigger] v@[j], encode_utf8(sc.cs@)),
            sc.i < sc.cs.len() ==> {
                let c = sc.cs@[sc.i as int];
                c != ' ' && c != '\t' && c != '\n' && c != '\r' && c != '#'
            },
            trivia_run(sc.cs@, p0) == (trivias_m(v@), sc.pos()),
        decreases sc.cs.len() - sc.i,
    {
        if sc.i >= sc.cs.len() {
            assert(trivias_m(v@) + Seq::<TriviaM>::empty() =~= trivias_m(v@));
            break;
        }
        let i_before = sc.i;
        let ghost before = sc.pos();
        let ghost prev = v@;
        let c = sc.peek();
        let t;
        if c == ' ' || c == '\t' {
            t = scan_whitespace(sc);
        } else if c == '\n' || c == '\r' {
            t = scan_newline(sc);
        } else if c == '#' {
            t = scan_comment(sc);
            proof {
                let x = sc.cs@.subrange(i_before as int, sc.i as int);
                assert(t.text@.len() > 0) by {
                    vstd::utf8::encode_utf8_first_scalar(x);
                    crate::text::lemma_encode_single(x[0]);
                    assert(x.drop_first().len() >= 0);
                }
                assert(t.text@[0] == '#') by {
                    crate::text::lemma_encode_single('#');
                    assert(x =~= seq!['#'] + x.drop_first());
                    crate::text::lemma_encode_utf8_append(seq!['#'], x.drop_first());
                    assert(('#' as u32) == 0x23u32);
                    assert((0x23u32 & 0x7F) as u8 == 0x23u8) by (bit_vector);
                    assert(encode_scalar('#' as u32) =~= seq![0x23u8]);
                    assert((0x23u8 as char) == '#');
                }
            }
        } else {
            assert(trivias_m(v@) + Seq::<TriviaM>::empty() =~= trivias_m(v@));
            break;
        }
        proof {
            let more = trivia_run(sc.cs@, sc.pos()).0;
            assert(trivias_m(prev.push(t)) =~= trivias_m(prev).push(trivia_m(t)));
            assert(trivias_m(prev) + (seq![trivia_m(t)] + more) =~= trivias_m(prev.push(t)) + more);
            lemma_chars_span_fits(sc.cs@, i_before as int, sc.i as int);
            if c == '#' {
                lemma_utf8_offset_step(sc.cs@, i_before as int);
                assert(('#' as u32) == 0x23u32);
                lemma_chars_span_fits(sc.cs@, i_before + 1, sc.i as int);
            }
        }
        v.push(t);
    }
    v
}

/// Diagnostics only grow, and what is added are errors.
spec fn diags_grew(after: Seq<CstDiagnostic>, before: Seq<CstDiagnostic>) -> bool {
    &&& after.len() >= before.len()
    &&& after.subrange(0, before.len() as int) == before
    &&& forall|k: int| before.len() <= k < after.len() ==> (#[trigger] after[k]).severity == Severity::Error
}

fn unexpected_char_message(c: char) -> (m: String)
    ensures
        m@ == unexpected_message(c),
{
    let mut m = literal("Unexpected character: '");
    push_char(&mut m, c);
    push_char(&mut m, '\'');
    m
}

/// Recognises the token at the cursor.  Returns `None` (after reporting an
/// error) for a character that starts no token; that character and the
/// leading trivia are dropped.
fn scan_token(sc: &mut Scan, leading: Vec<Trivia>, diags: &mut Vec<CstDiagnostic>) -> (r: Option<CstToken>)
    requires
        old(sc).wf(),
        old(sc).i < old(sc).cs.len(),
    ensures
        final(sc).advanced(old(sc)),
        final(sc).i > old(sc).i,
        diags_grew(final(diags)@, old(diags)@),
        r is None ==> final(diags)@.len() > old(diags)@.len(),
        r matches Some(t) ==> {
            &&& token_in_source(t, encode_utf8(final(sc).cs@))
            &&& kind_agrees(t)
            &&& !(t.kind is Eof)
            &&& t.byte_range.start == old(sc).byte_pos
            &&& t.byte_range.end == final(sc).byte_pos
            &&& t.leading_trivia@ == leading@
            &&& t.text@ == final(sc).cs@.subrange(old(sc).i as int, final(sc).i as int)
        },
        ({
            let (ot, q, od) = token_at(old(sc).cs@, old(sc).pos());
            &&& final(sc).pos() == q
            &&& (r is Some <==> ot is Some)
            &&& (r matches Some(t) ==> tok_m(t) == TokM { trivia: trivias_m(leading@), ..ot->Some_0 })
            &&& diags_m(final(diags)@) == match od {
                Some(d) => diags_m(old(diags)@).push(d),
                None => diags_m(old(diags)@),
            }
        }),
{
    let i0 = sc.i;
    let b0 = sc.byte_pos;
    let l0 = sc.line;
    let c0 = sc.col;
    let c = sc.peek();
    let n = sc.cs.len();
    assert(diags@.subrange(0, diags@.len() as int) =~= diags@);
    if is_digit_char(c) || (c == '.' && sc.i + 1 < n && is_digit_char(sc.cs[sc.i + 1])) || (c
        == '-' && sc.i + 1 < n && is_digit_char(sc.cs[sc.i + 1])) {
        if let Some(text) = try_scan_number(sc) {
            return Some(make_token(sc, TokenKind::Number, text, i0, b0, l0, c0, leading));
        }
    }
    if c == '{' || c == '}' || c == '=' {
        sc.bump(1);
        let text = sc.text_since(i0);
        assert(text@ =~= seq![c]);
        let kind = if c == '{' {
            TokenKind::OpenBrace
        } else if c == '}' {
            TokenKind::CloseBrace
        } else {
            TokenKind::OpEquals
        };
        return Some(make_token(sc, kind, text, i0, b0, l0, c0, leading));
    }
    if c == '<' || c == '>' {
        sc.bump(1);
        if sc.i < sc.cs.len() && sc.cs[sc.i] == '=' {
            sc.bump(1);
            let text = sc.text_since(i0);
            assert(text@ =~= seq![c, '=']);
            let kind = if c == '<' {
                TokenKind::OpLessOrEqual
            } else {
                TokenKind::OpGreaterOrEqual
            };
            return Some(make_token(sc, kind, text, i0, b0, l0, c0, leading));
        }
        let text = sc.text_since(i0);
        assert(text@ =~= seq![c]);
        let kind = if c == '<' {
            TokenKind::OpLessThan
        } else {
            TokenKind::OpGreaterThan
        };
        return Some(make_token(sc, kind, text, i0, b0, l0, c0, leading));
    }
    if c == '!' {
        sc.bump(1);
        if sc.i < sc.cs.len() && sc.cs[sc.i] == '=' {
            sc.bump(1);
            let text = sc.text_since(i0);
            assert(text@ =~= seq!['!', '=']);
            return Some(make_token(sc, TokenKind::OpNotEquals, text, i0, b0, l0, c0, leading));
        }
        // A standalone '!' is an error; its leading trivia is dropped.
        let range = sc.range_from(l0, c0);
        diags.push(CstDiagnostic::error(unexpected_char_message('!'), range));
        assert(diags@.subrange(0, old(diags)@.len() as int) =~= old(diags)@);
        return None;
    }
    if c == '"' {
        let (content, text, unterminated) = scan_string(sc);
        if unterminated {
            let range = sc.range_from(l0, c0);
            diags.push(CstDiagnostic::error(literal("Unterminated string literal"), range));
            assert(diags@.subrange(0, old(diags)@.len() as int) =~= old(diags)@);
        }
        proof {
            let tx = text@;
            assert(tx.subrange(1, tx.len() as int) =~= sc.cs@.subrange(i0 + 1, sc.i as int));
            if !unterminated {
                assert(tx.subrange(1, tx.len() - 1) =~= sc.cs@.subrange(i0 + 1, sc.i - 1));
            }
            assert(tx[0] == '"');
        }
        return Some(make_token(sc, TokenKind::String(content), text, i0, b0, l0, c0, leading));
    }
    if is_identifier_char(c) {
        let text = scan_ident(sc);
        let name = text.clone();
        return Some(make_token(sc, TokenKind::Ident(name), text, i0, b0, l0, c0, leading));
    }
    // Unexpected character: report it and skip it; its leading trivia is dropped.
    sc.bump(1);
    let range = sc.range_from(l0, c0);
    diags.push(CstDiagnostic::error(unexpected_char_message(c), range));
    assert(diags@.subrange(0, old(diags)@.len() as int) =~= old(diags)@);
    None
}

/// Tokenize HOI4 script source text into a flat list of tokens, each carrying
/// its leading trivia, and the diagnostics for characters that start no token
/// and for unterminated strings.  A leading byte-order mark is skipped.  The
/// last token is always `Eof` and carries the trailing trivia.
pub fn tokenize(input: &str) -> (r: (Vec<CstToken>, Vec<CstDiagnostic>))
    requires
        input.spec_bytes().len() <= u32::MAX,
    ensures
        tokenize_post(input, r.0@, r.1@),
        toks_m(r.0@) == lex(input@).0,
        diags_m(r.1@) == lex(input@).1,
{
    let cs = chars_of(input);
    let ghost bytes = input.spec_bytes();
    proof {
        lemma_utf8_offset_full(cs@);
        assert(cs@.take(0) =~= Seq::<char>::empty());
        assert(encode_utf8(Seq::<char>::empty()) =~= Seq::<u8>::empty());
    }
    let mut sc = Scan { cs, i: 0, byte_pos: 0, line: 0, col: 0 };
    if sc.cs.len() > 0 && sc.cs[0] == '\u{feff}' {
        proof {
            lemma_utf8_offset_step(sc.cs@, 0);
            vstd::utf8::char_is_scalar('\u{feff}');
            assert(('\u{feff}' as u32) == 0xFEFFu32);
            lemma_utf8_offset_mono(sc.cs@, 1, sc.cs.len() as int);
        }
        sc.i = 1;
        sc.byte_pos = 3;
    }
    let s0 = sc.i;
    assert(s0 == bom_len(input@));
    let mut tokens: Vec<CstToken> = Vec::new();
    let mut diags: Vec<CstDiagnostic> = Vec::new();
    let ghost g0 = sc.i;
    let mut leading = collect_trivia(&mut sc);
    proof {
        lemma_utf8_offset_mono(sc.cs@, g0 as int, sc.i as int);
        let rest = lex_from(sc.cs@, sc.pos(), trivias_m(leading@));
        assert(toks_m(tokens@) + rest.0 =~= rest.0);
        assert(diags_m(diags@) + rest.1 =~= rest.1);
    }
    while sc.i < sc.cs.len()
        invariant
            ({
                let rest = lex_from(input@, sc.pos(), trivias_m(leading@));
                lex(input@) == (toks_m(tokens@) + rest.0, diags_m(diags@) + rest.1)
            }),
            sc.wf(),
            sc.cs@ == input@,
            bytes == input.spec_bytes(),
            bytes == encode_utf8(sc.cs@),
            s0 == bom_len(input@),
            s0 <= sc.i,
            forall|k: int| 0 <= k < tokens@.len() ==> token_in_source(#[trigger] tokens@[k], bytes),
            forall|k: int| 0 <= k < tokens@.len() ==> kind_agrees(#[trigger] tokens@[k]),
            forall|k: int| 0 <= k < tokens@.len() ==> !(#[trigger] tokens@[k].kind is Eof),
            forall|k: int| 0 <= k < tokens@.len() ==> (#[trigger] tokens@[k]).byte_range.end <= sc.byte_pos,
            forall|k: int, j: int|
                #![trigger tokens@[k].leading_trivia@[j]]
                0 <= k < tokens@.len() && 0 <= j < tokens@[k].leading_trivia@.len() ==> trivia_agrees(
                    tokens@[k].leading_trivia@[j],
                ) && trivia_in_source(tokens@[k].leading_trivia@[j], bytes),
            forall|j: int| 0 <= j < leading@.len() ==> trivia_agrees(#[trigger] leading@[j]),
            forall|j: int| 0 <= j < leading@.len() ==> trivia_in_source(#[trigger] leading@[j], bytes),
            forall|k1: int, k2: int|
                0 <= k1 < k2 < tokens@.len() ==> (#[trigger] tokens@[k1]).byte_range.end
                    <= (#[trigger] tokens@[k2]).byte_range.start,
            forall|k: int| 0 <= k < diags@.len() ==> (#[trigger] diags@[k]).severity == Severity::Error,
        decreases sc.cs.len() - sc.i,
    {
        let ghost i_before = sc.i;
        let ghost old_tokens = tokens@;
        let ghost old_leading = leading@;
        let ghost old_diags = diags@;
        let ghost p = sc.pos();
        let r = scan_token(&mut sc, leading, &mut diags);
        let ghost i_mid = sc.i;
        match r {
            Some(t) => {
                proof {
                    assert(toks_m(tokens@.push(t)) =~= toks_m(tokens@).push(tok_m(t)));
                }
                tokens.push(t);
            },
            None => {},
        }
        leading = collect_trivia(&mut sc);
        proof {
            let (ot, q, od) = token_at(input@, p);
            let rest = lex_from(input@, sc.pos(), trivias_m(leading@));
            let step = lex_from(input@, p, trivias_m(old_leading));
            assert(step.0 == match ot {
                Some(t) => seq![TokM { trivia: trivias_m(old_leading), ..t }] + rest.0,
                None => rest.0,
            });
            match ot {
                Some(t) => {
                    assert(toks_m(old_tokens) + (seq![TokM { trivia: trivias_m(old_leading), ..t }] + rest.0)
                        =~= toks_m(tokens@) + rest.0);
                },
                None => {
                    assert(tokens@ == old_tokens);
                },
            }
            match od {
                Some(d) => {
                    assert(diags_m(old_diags) + (seq![d] + rest.1) =~= diags_m(diags@) + rest.1);
                },
                None => {},
            }
            lemma_utf8_offset_mono(sc.cs@, i_mid as int, sc.i as int);
            lemma_utf8_offset_mono(sc.cs@, i_before as int, i_mid as int);
            assert forall|k: int| 0 <= k < diags@.len() implies (#[trigger] diags@[k]).severity
                == Severity::Error by {
                if k < old_diags.len() {
                    assert(diags@.subrange(0, old_diags.len() as int)[k] == diags@[k]);
                }
            }
            assert forall|k: int| 0 <= k < tokens@.len() implies (#[trigger] tokens@[k]).byte_range.end
                <= sc.byte_pos by {
                if k < old_tokens.len() {
                    assert(tokens@[k] == old_tokens[k]);
                }
            }
        }
    }
    let empty = String::new();
    assert(empty@ =~= sc.cs@.subrange(sc.i as int, sc.i as int));
    let eof = make_token(&sc, TokenKind::Eof, empty, sc.i, sc.byte_pos, sc.line, sc.col, leading);
    proof {
        assert(eof.text@ =~= Seq::<char>::empty());
        assert(bytes.len() == sc.byte_pos);
    }
    let ghost before_eof = tokens@;
    tokens.push(eof);
    proof {
        assert(toks_m(tokens@) =~= toks_m(before_eof).push(tok_m(eof)));
        assert(toks_m(before_eof) + seq![tok_m(eof)] =~= toks_m(tokens@));
        assert(diags_m(diags@) + Seq::<DiagModel>::empty() =~= diags_m(diags@));
        assert(tokens@.last() == eof);
        if no_skipped_chars(diags@) {
            lemma_lossless(input, tokens@, diags@);
        }
    }
    (tokens, diags)
}

} // verus!
