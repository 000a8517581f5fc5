//! The script parser: reads HOI4 script text into the abstract syntax tree,
//! recovering from errors by resynchronising on braces or line ends.
//!
//! The grammar is stated as spec functions over the characters of the
//! source (`ws_end`, `ident_end`, `quoted_at`, ..., `entry_at`, `script_at`),
//! each alternative tried in order; the executable parser is proved to
//! produce exactly what they describe.
use vstd::prelude::*;
use vstd::utf8::encode_utf8;
use vstd::string::*;
use crate::ast::{ByteSpan, Range, Operator, NodeedValue, Value, Assignment, Entry, Script, entry_fits, value_fits, span_fits};
use crate::numtext::{finite_float_text, is_finite_float_text};
use crate::text::{
    unicode_alphanumeric, char_is_alphanumeric, char_is_whitespace, utf8_offset, utf8_width, utf8_len,
    push_char, literal, chars_of, lemma_utf8_offset_step, lemma_utf8_offset_mono, lemma_utf8_offset_full,
    lemma_chars_span_fits, newline_from, trim_start, trim_end, trim, push_range,
};

verus! {

/// The characters that may appear in an unquoted HOI4 identifier.
pub open spec fn identifier_char(c: char) -> bool {
    ||| unicode_alphanumeric(c)
    ||| c == '_' || c == '.' || c == ':' || c == '@' || c == '[' || c == ']' || c == '?'
    ||| c == '^' || c == '$' || c == '/' || c == '-' || c == '\'' || c == '%' || c == '|'
    ||| c == '*'
}

/// Returns `true` if `c` is a valid HOI4 identifier character.
pub fn is_identifier_char(c: char) -> (r: bool)
    ensures
        r == identifier_char(c),
        r ==> !is_multispace(c),
{
    char_is_alphanumeric(c) || c == '_' || c == '.' || c == ':' || c == '@' || c == '['
        || c == ']' || c == '?' || c == '^' || c == '$' || c == '/' || c == '-' || c == '\''
        || c == '%' || c == '|' || c == '*'
}

// ---------------------------------------------------------------------------
// Positions: line and byte column of each character index
// ---------------------------------------------------------------------------

/// Zero-based line of character index `i`: the line feeds before it.
pub open spec fn line_at(cs: Seq<char>, i: int) -> int
    decreases i,
{
    if i <= 0 {
        0
    } else {
        line_at(cs, i - 1) + if cs[i - 1] == '\n' { 1int } else { 0int }
    }
}

/// Zero-based column of character index `i`, counted in bytes since the
/// last line feed.
pub open spec fn col_at(cs: Seq<char>, i: int) -> int
    decreases i,
{
    if i <= 0 {
        0
    } else if cs[i - 1] == '\n' {
        0
    } else {
        col_at(cs, i - 1) + utf8_width(cs[i - 1])
    }
}

pub proof fn lemma_line_col_bound(cs: Seq<char>, i: int)
    requires
        0 <= i <= cs.len(),
    ensures
        0 <= line_at(cs, i),
        0 <= col_at(cs, i),
        line_at(cs, i) + col_at(cs, i) <= utf8_offset(cs, i),
    decreases i,
{
    if i > 0 {
        lemma_line_col_bound(cs, i - 1);
        lemma_utf8_offset_step(cs, i - 1);
        vstd::utf8::char_is_scalar(cs[i - 1]);
    }
}

/// Along a stretch without line feeds the line stays and the column grows by
/// at least one per character.
pub proof fn lemma_col_run(cs: Seq<char>, a: int, b: int)
    requires
        0 <= a <= b <= cs.len(),
        forall|k: int| a <= k < b ==> cs[k] != '\n',
    ensures
        line_at(cs, b) == line_at(cs, a),
        col_at(cs, b) >= col_at(cs, a) + (b - a),
    decreases b - a,
{
    if a < b {
        lemma_col_run(cs, a, b - 1);
        vstd::utf8::char_is_scalar(cs[b - 1]);
    }
}

/// The source characters with, for each index up to and including the end,
/// its byte offset, line and column.
pub(crate) struct Src {
    pub(crate) cs: Vec<char>,
    pub(crate) byte: Vec<usize>,
    pub(crate) line: Vec<u32>,
    pub(crate) col: Vec<u32>,
}

impl Src {
    pub(crate) open spec fn wf(&self) -> bool {
        &&& self.byte@.len() == self.cs@.len() + 1
        &&& self.line@.len() == self.cs@.len() + 1
        &&& self.col@.len() == self.cs@.len() + 1
        &&& utf8_offset(self.cs@, self.cs@.len() as int) <= u32::MAX
        &&& self.cs@.len() <= u32::MAX
        &&& forall|k: int| 0 <= k <= self.cs@.len() ==> #[trigger] self.byte@[k] == utf8_offset(self.cs@, k)
        &&& forall|k: int| 0 <= k <= self.cs@.len() ==> #[trigger] self.line@[k] == line_at(self.cs@, k)
        &&& forall|k: int| 0 <= k <= self.cs@.len() ==> #[trigger] self.col@[k] == col_at(self.cs@, k)
    }

    pub(crate) fn new(cs: Vec<char>) -> (s: Src)
        requires
            utf8_offset(cs@, cs@.len() as int) <= u32::MAX,
        ensures
            s.wf(),
            s.cs@ == cs@,
    {
        let mut byte: Vec<usize> = Vec::new();
        let mut line: Vec<u32> = Vec::new();
        let mut col: Vec<u32> = Vec::new();
        let (mut b, mut l, mut c): (usize, u32, u32) = (0, 0, 0);
        let mut k: usize = 0;
        proof {
            assert(cs@.take(0) =~= Seq::<char>::empty());
            assert(vstd::utf8::encode_utf8(Seq::<char>::empty()) =~= Seq::<u8>::empty());
        }
        while k < cs.len()
            invariant
                k <= cs.len(),
                utf8_offset(cs@, cs@.len() as int) <= u32::MAX,
                byte@.len() == k && line@.len() == k && col@.len() == k,
                b == utf8_offset(cs@, k as int),
                l == line_at(cs@, k as int),
                c == col_at(cs@, k as int),
                forall|j: int| 0 <= j < k ==> #[trigger] byte@[j] == utf8_offset(cs@, j),
                forall|j: int| 0 <= j < k ==> #[trigger] line@[j] == line_at(cs@, j),
                forall|j: int| 0 <= j < k ==> #[trigger] col@[j] == col_at(cs@, j),
            decreases cs.len() - k,
        {
            byte.push(b);
            line.push(l);
            col.push(c);
            proof {
                lemma_utf8_offset_step(cs@, k as int);
                lemma_utf8_offset_mono(cs@, k + 1, cs@.len() as int);
                lemma_line_col_bound(cs@, k + 1);
            }
            let w = utf8_len(cs[k]);
            b = b + w;
            if cs[k] == '\n' {
                l = l + 1;
                c = 0;
            } else {
                c = c + (w as u32);
            }
            k = k + 1;
        }
        byte.push(b);
        line.push(l);
        col.push(c);
        proof {
            crate::text::lemma_utf8_offset_chars(cs@, 0, cs@.len() as int);
        }
        Src { cs, byte, line, col }
    }
}

// ---------------------------------------------------------------------------
// Lexical pieces
// ---------------------------------------------------------------------------

/// The whitespace that separates script items: space, tab, CR and LF.
pub open spec fn is_multispace(c: char) -> bool {
    c == ' ' || c == '\t' || c == '\r' || c == '\n'
}

/// End of the run of separating whitespace that starts at `i`.
pub open spec fn ws_end(cs: Seq<char>, i: int) -> int
    decreases cs.len() - i,
{
    if 0 <= i < cs.len() && is_multispace(cs[i]) {
        ws_end(cs, i + 1)
    } else {
        i
    }
}

/// End of the run of identifier characters that starts at `i`.
pub open spec fn ident_end(cs: Seq<char>, i: int) -> int
    decreases cs.len() - i,
{
    if 0 <= i < cs.len() && identifier_char(cs[i]) {
        ident_end(cs, i + 1)
    } else {
        i
    }
}

/// End of the run of ASCII digits that starts at `i`.
pub open spec fn digits_end(cs: Seq<char>, i: int) -> int
    decreases cs.len() - i,
{
    if 0 <= i < cs.len() && '0' <= cs[i] && cs[i] <= '9' {
        digits_end(cs, i + 1)
    } else {
        i
    }
}

/// End of the run of characters other than CR and LF that starts at `i`.
pub open spec fn line_text_end(cs: Seq<char>, i: int) -> int
    decreases cs.len() - i,
{
    if 0 <= i < cs.len() && cs[i] != '\n' && cs[i] != '\r' {
        line_text_end(cs, i + 1)
    } else {
        i
    }
}

/// The body of a quoted string from index `j`, with the characters `acc`
/// already read: the end just past the closing quote and the text with its
/// escapes resolved (a backslash keeps the character after it).
pub open spec fn quoted_from(cs: Seq<char>, j: int, acc: Seq<char>) -> Option<(int, Seq<char>)>
    decreases cs.len() - j,
{
    if 0 <= j < cs.len() {
        if cs[j] == '"' {
            Some((j + 1, acc))
        } else if cs[j] == '\\' {
            if j + 1 < cs.len() {
                quoted_from(cs, j + 2, acc.push(cs[j + 1]))
            } else {
                None
            }
        } else {
            quoted_from(cs, j + 1, acc.push(cs[j]))
        }
    } else {
        None
    }
}

/// A quoted string at `i`.
pub open spec fn quoted_at(cs: Seq<char>, i: int) -> Option<(int, Seq<char>)> {
    if 0 <= i < cs.len() && cs[i] == '"' {
        quoted_from(cs, i + 1, Seq::empty())
    } else {
        None
    }
}

/// The end of the digits of a number whose sign (if any) ends at `j`:
/// `digits ('.' digits?)?` or `'.' digits`.
pub open spec fn number_body_end(cs: Seq<char>, j: int) -> Option<int> {
    let d = digits_end(cs, j);
    if d > j {
        if d < cs.len() && cs[d] == '.' {
            Some(digits_end(cs, d + 1))
        } else {
            Some(d)
        }
    } else if 0 <= j < cs.len() && cs[j] == '.' && digits_end(cs, j + 1) > j + 1 {
        Some(digits_end(cs, j + 1))
    } else {
        None
    }
}

/// A signed decimal number at `i` that is not followed by a letter or digit.
pub open spec fn number_end(cs: Seq<char>, i: int) -> Option<int> {
    let j = if 0 <= i < cs.len() && (cs[i] == '-' || cs[i] == '+') { i + 1 } else { i };
    match number_body_end(cs, j) {
        Some(k) => if k < cs.len() && unicode_alphanumeric(cs[k]) && cs[k] != '%' {
            None
        } else {
            Some(k)
        },
        None => None,
    }
}

/// `yes` or `no` at `i`, not followed by a letter or digit.
pub open spec fn boolean_at(cs: Seq<char>, i: int) -> Option<(int, bool)> {
    let w = if 0 <= i && i + 3 <= cs.len() && cs[i] == 'y' && cs[i + 1] == 'e' && cs[i + 2] == 's' {
        Some((i + 3, true))
    } else if 0 <= i && i + 2 <= cs.len() && cs[i] == 'n' && cs[i + 1] == 'o' {
        Some((i + 2, false))
    } else {
        None
    };
    match w {
        Some((e, b)) => if e < cs.len() && unicode_alphanumeric(cs[e]) {
            None
        } else {
            Some((e, b))
        },
        None => None,
    }
}

/// A comment at `i`: `#` and the rest of the line; returns its end.
pub open spec fn comment_end(cs: Seq<char>, i: int) -> Option<int> {
    if 0 <= i < cs.len() && cs[i] == '#' {
        Some(line_text_end(cs, i + 1))
    } else {
        None
    }
}

/// An operator at `i`, the two-character ones first.
pub open spec fn operator_at(cs: Seq<char>, i: int) -> Option<(int, Operator)> {
    if 0 <= i && i + 1 < cs.len() && cs[i] == '<' && cs[i + 1] == '=' {
        Some((i + 2, Operator::LessOrEqual))
    } else if 0 <= i && i + 1 < cs.len() && cs[i] == '>' && cs[i + 1] == '=' {
        Some((i + 2, Operator::GreaterOrEqual))
    } else if 0 <= i && i + 1 < cs.len() && cs[i] == '!' && cs[i + 1] == '=' {
        Some((i + 2, Operator::NotEquals))
    } else if 0 <= i < cs.len() && cs[i] == '=' {
        Some((i + 1, Operator::Equals))
    } else if 0 <= i < cs.len() && cs[i] == '<' {
        Some((i + 1, Operator::LessThan))
    } else if 0 <= i < cs.len() && cs[i] == '>' {
        Some((i + 1, Operator::GreaterThan))
    } else {
        None
    }
}

/// The byte span of the characters `a..b`.
pub open spec fn span_of(cs: Seq<char>, a: int, b: int) -> ByteSpan {
    ByteSpan { start: utf8_offset(cs, a) as usize, end: utf8_offset(cs, b) as usize }
}

/// The range of the characters `a..b` on one line: the end column is the
/// start column plus the number of characters.
pub open spec fn flat_range(cs: Seq<char>, a: int, b: int) -> Range {
    Range {
        start_line: line_at(cs, a) as u32,
        start_col: col_at(cs, a) as u32,
        end_line: line_at(cs, a) as u32,
        end_col: (col_at(cs, a) + (b - a)) as u32,
    }
}

/// The range from the position of `a` to the position of `b`.
pub open spec fn pos_range(cs: Seq<char>, a: int, b: int) -> Range {
    Range {
        start_line: line_at(cs, a) as u32,
        start_col: col_at(cs, a) as u32,
        end_line: line_at(cs, b) as u32,
        end_col: col_at(cs, b) as u32,
    }
}

pub proof fn lemma_ws_end(cs: Seq<char>, i: int)
    requires
        0 <= i <= cs.len(),
    ensures
        i <= ws_end(cs, i) <= cs.len(),
        forall|k: int| i <= k < ws_end(cs, i) ==> is_multispace(#[trigger] cs[k]),
    decreases cs.len() - i,
{
    if 0 <= i < cs.len() && is_multispace(cs[i]) {
        lemma_ws_end(cs, i + 1);
    }
}

pub proof fn lemma_ident_end(cs: Seq<char>, i: int)
    requires
        0 <= i <= cs.len(),
    ensures
        i <= ident_end(cs, i) <= cs.len(),
        forall|k: int| i <= k < ident_end(cs, i) ==> identifier_char(#[trigger] cs[k]),
    decreases cs.len() - i,
{
    if i < cs.len() && identifier_char(cs[i]) {
        lemma_ident_end(cs, i + 1);
    }
}

pub proof fn lemma_digits_end(cs: Seq<char>, i: int)
    requires
        0 <= i <= cs.len(),
    ensures
        i <= digits_end(cs, i) <= cs.len(),
        forall|k: int| i <= k < digits_end(cs, i) ==> '0' <= #[trigger] cs[k] <= '9',
    decreases cs.len() - i,
{
    if i < cs.len() && '0' <= cs[i] && cs[i] <= '9' {
        lemma_digits_end(cs, i + 1);
    }
}

pub proof fn lemma_line_text_end(cs: Seq<char>, i: int)
    requires
        0 <= i <= cs.len(),
    ensures
        i <= line_text_end(cs, i) <= cs.len(),
        forall|k: int| i <= k < line_text_end(cs, i) ==> #[trigger] cs[k] != '\n' && cs[k] != '\r',
    decreases cs.len() - i,
{
    if i < cs.len() && cs[i] != '\n' && cs[i] != '\r' {
        lemma_line_text_end(cs, i + 1);
    }
}

pub proof fn lemma_quoted_from(cs: Seq<char>, j: int, acc: Seq<char>)
    requires
        0 <= j <= cs.len(),
    ensures
        quoted_from(cs, j, acc) matches Some((e, _)) ==> j < e <= cs.len(),
    decreases cs.len() - j,
{
    if 0 <= j < cs.len() {
        if cs[j] == '"' {
        } else if cs[j] == '\\' {
            if j + 1 < cs.len() {
                lemma_quoted_from(cs, j + 2, acc.push(cs[j + 1]));
            }
        } else {
            lemma_quoted_from(cs, j + 1, acc.push(cs[j]));
        }
    }
}

} // verus!

verus! {

// ---------------------------------------------------------------------------
// Executable lexical pieces
// ---------------------------------------------------------------------------

fn is_multispace_char(c: char) -> (r: bool)
    ensures
        r == is_multispace(c),
{
    c == ' ' || c == '\t' || c == '\r' || c == '\n'
}

pub(crate) fn scan_ws(src: &Src, i: usize) -> (r: usize)
    requires
        src.wf(),
        i <= src.cs@.len(),
    ensures
        r == ws_end(src.cs@, i as int),
        i <= r <= src.cs@.len(),
{
    let mut j = i;
    while j < src.cs.len() && is_multispace_char(src.cs[j])
        invariant
            i <= j <= src.cs@.len(),
            ws_end(src.cs@, j as int) == ws_end(src.cs@, i as int),
        decreases src.cs@.len() - j,
    {
        j += 1;
    }
    j
}

fn scan_ident(src: &Src, i: usize) -> (r: usize)
    requires
        src.wf(),
        i <= src.cs@.len(),
    ensures
        r == ident_end(src.cs@, i as int),
        i <= r <= src.cs@.len(),
        forall|k: int| i <= k < r ==> !is_multispace(#[trigger] src.cs@[k]),
{
    let mut j = i;
    while j < src.cs.len() && is_identifier_char(src.cs[j])
        invariant
            i <= j <= src.cs@.len(),
            ident_end(src.cs@, j as int) == ident_end(src.cs@, i as int),
            forall|k: int| i <= k < j ==> !is_multispace(#[trigger] src.cs@[k]),
        decreases src.cs@.len() - j,
    {
        j += 1;
    }
    j
}

pub(crate) fn scan_digits_from(src: &Src, i: usize) -> (r: usize)
    requires
        src.wf(),
        i <= src.cs@.len(),
    ensures
        r == digits_end(src.cs@, i as int),
        i <= r <= src.cs@.len(),
{
    let mut j = i;
    while j < src.cs.len() && '0' <= src.cs[j] && src.cs[j] <= '9'
        invariant
            i <= j <= src.cs@.len(),
            digits_end(src.cs@, j as int) == digits_end(src.cs@, i as int),
        decreases src.cs@.len() - j,
    {
        j += 1;
    }
    j
}

fn scan_line_text(src: &Src, i: usize) -> (r: usize)
    requires
        src.wf(),
        i <= src.cs@.len(),
    ensures
        r == line_text_end(src.cs@, i as int),
        i <= r <= src.cs@.len(),
{
    let mut j = i;
    while j < src.cs.len() && src.cs[j] != '\n' && src.cs[j] != '\r'
        invariant
            i <= j <= src.cs@.len(),
            line_text_end(src.cs@, j as int) == line_text_end(src.cs@, i as int),
        decreases src.cs@.len() - j,
    {
        j += 1;
    }
    j
}

fn find_newline(src: &Src, i: usize) -> (r: Option<usize>)
    requires
        src.wf(),
        i <= src.cs@.len(),
    ensures
        match newline_from(src.cs@, i as int) {
            Some(k) => r == Some(k as usize) && i <= k < src.cs@.len(),
            None => r is None,
        },
{
    let mut j = i;
    while j < src.cs.len()
        invariant
            i <= j <= src.cs@.len(),
            newline_from(src.cs@, j as int) == newline_from(src.cs@, i as int),
        decreases src.cs@.len() - j,
    {
        if src.cs[j] == '\n' {
            return Some(j);
        }
        j += 1;
    }
    None
}

fn scan_quoted(src: &Src, i: usize) -> (r: Option<(usize, String)>)
    requires
        src.wf(),
        i <= src.cs@.len(),
    ensures
        match quoted_at(src.cs@, i as int) {
            Some((e, t)) => r matches Some((e2, s)) && e2 == e && s@ == t && i < e <= src.cs@.len(),
            None => r is None,
        },
{
    if !(i < src.cs.len() && src.cs[i] == '"') {
        return None;
    }
    proof {
        lemma_quoted_from(src.cs@, i + 1, Seq::empty());
    }
    let mut s = String::new();
    let mut j = i + 1;
    while j < src.cs.len()
        invariant
            i < j <= src.cs@.len(),
            quoted_from(src.cs@, j as int, s@) == quoted_at(src.cs@, i as int),
        decreases src.cs@.len() - j,
    {
        let c = src.cs[j];
        if c == '"' {
            return Some((j + 1, s));
        } else if c == '\\' {
            if j + 1 < src.cs.len() {
                push_char(&mut s, src.cs[j + 1]);
                j = j + 2;
            } else {
                return None;
            }
        } else {
            push_char(&mut s, c);
            j = j + 1;
        }
    }
    None
}

fn scan_number(src: &Src, i: usize) -> (r: Option<usize>)
    requires
        src.wf(),
        i <= src.cs@.len(),
    ensures
        match number_end(src.cs@, i as int) {
            Some(k) => r == Some(k as usize) && i < k <= src.cs@.len(),
            None => r is None,
        },
        r matches Some(k) ==> forall|j: int| i <= j < k ==> #[trigger] src.cs@[j] != '\n',
{
    let j = if i < src.cs.len() && (src.cs[i] == '-' || src.cs[i] == '+') { i + 1 } else { i };
    let d = scan_digits_from(src, j);
    proof {
        lemma_digits_end(src.cs@, j as int);
        if d < src.cs.len() {
            lemma_digits_end(src.cs@, d + 1);
        }
        if j < src.cs.len() {
            lemma_digits_end(src.cs@, j + 1);
        }
    }
    let k = if d > j {
        if d < src.cs.len() && src.cs[d] == '.' {
            scan_digits_from(src, d + 1)
        } else {
            d
        }
    } else if j < src.cs.len() && src.cs[j] == '.' {
        let e = scan_digits_from(src, j + 1);
        if e > j + 1 {
            e
        } else {
            return None;
        }
    } else {
        return None;
    };
    if k < src.cs.len() && char_is_alphanumeric(src.cs[k]) && src.cs[k] != '%' {
        None
    } else {
        Some(k)
    }
}

fn scan_boolean(src: &Src, i: usize) -> (r: Option<(usize, bool)>)
    requires
        src.wf(),
        i <= src.cs@.len(),
    ensures
        match boolean_at(src.cs@, i as int) {
            Some((e, b)) => r == Some((e as usize, b)) && i < e <= src.cs@.len(),
            None => r is None,
        },
{
    let n = src.cs.len();
    let (e, b) = if n - i >= 3 && src.cs[i] == 'y' && src.cs[i + 1] == 'e' && src.cs[i + 2] == 's' {
        (i + 3, true)
    } else if n - i >= 2 && src.cs[i] == 'n' && src.cs[i + 1] == 'o' {
        (i + 2, false)
    } else {
        return None;
    };
    if e < n && char_is_alphanumeric(src.cs[e]) {
        None
    } else {
        Some((e, b))
    }
}

fn scan_operator(src: &Src, i: usize) -> (r: Option<(usize, Operator)>)
    requires
        src.wf(),
        i <= src.cs@.len(),
    ensures
        match operator_at(src.cs@, i as int) {
            Some((e, op)) => r == Some((e as usize, op)) && i < e <= src.cs@.len(),
            None => r is None,
        },
{
    let n = src.cs.len();
    if n - i > 1 && src.cs[i] == '<' && src.cs[i + 1] == '=' {
        Some((i + 2, Operator::LessOrEqual))
    } else if n - i > 1 && src.cs[i] == '>' && src.cs[i + 1] == '=' {
        Some((i + 2, Operator::GreaterOrEqual))
    } else if n - i > 1 && src.cs[i] == '!' && src.cs[i + 1] == '=' {
        Some((i + 2, Operator::NotEquals))
    } else if i < n && src.cs[i] == '=' {
        Some((i + 1, Operator::Equals))
    } else if i < n && src.cs[i] == '<' {
        Some((i + 1, Operator::LessThan))
    } else if i < n && src.cs[i] == '>' {
        Some((i + 1, Operator::GreaterThan))
    } else {
        None
    }
}

impl Src {
    /// The byte span of the characters `a..b`.
    pub(crate) fn span(&self, a: usize, b: usize) -> (s: ByteSpan)
        requires
            self.wf(),
            a <= b <= self.cs@.len(),
        ensures
            s == span_of(self.cs@, a as int, b as int),
            span_fits(s.start as int, s.end as int, vstd::utf8::encode_utf8(self.cs@)),
    {
        proof {
            lemma_chars_span_fits(self.cs@, a as int, b as int);
        }
        ByteSpan { start: self.byte[a], end: self.byte[b] }
    }

    /// The one-line range of the characters `a..b`.
    pub(crate) fn flat(&self, a: usize, b: usize) -> (r: Range)
        requires
            self.wf(),
            a <= b <= self.cs@.len(),
            forall|k: int| a <= k < b ==> self.cs@[k] != '\n',
        ensures
            r == flat_range(self.cs@, a as int, b as int),
    {
        proof {
            lemma_col_run(self.cs@, a as int, b as int);
            lemma_line_col_bound(self.cs@, a as int);
            lemma_line_col_bound(self.cs@, b as int);
            lemma_utf8_offset_mono(self.cs@, a as int, self.cs@.len() as int);
            lemma_utf8_offset_mono(self.cs@, b as int, self.cs@.len() as int);
        }
        Range {
            start_line: self.line[a],
            start_col: self.col[a],
            end_line: self.line[a],
            end_col: self.col[a] + ((b - a) as u32),
        }
    }

    /// The range from the position of `a` to the position of `b`.
    pub(crate) fn between(&self, a: usize, b: usize) -> (r: Range)
        requires
            self.wf(),
            a <= self.cs@.len(),
            b <= self.cs@.len(),
        ensures
            r == pos_range(self.cs@, a as int, b as int),
    {
        proof {
            lemma_line_col_bound(self.cs@, a as int);
            lemma_line_col_bound(self.cs@, b as int);
            lemma_utf8_offset_mono(self.cs@, a as int, self.cs@.len() as int);
            lemma_utf8_offset_mono(self.cs@, b as int, self.cs@.len() as int);
        }
        Range { start_line: self.line[a], start_col: self.col[a], end_line: self.line[b], end_col: self.col[b] }
    }
}

} // verus!

verus! {

// ---------------------------------------------------------------------------
// The grammar
// ---------------------------------------------------------------------------

/// What a parsed value denotes, with the entries of blocks as sequences.
pub enum ValueModel {
    String(ByteSpan),
    QuotedString(Seq<char>),
    Number(ByteSpan),
    Boolean(bool),
    Block(Seq<EntryModel>),
    TaggedBlock(ByteSpan, Seq<EntryModel>, Range),
}

/// What a parsed entry denotes.
pub enum EntryModel {
    /// Key span, key range, operator, operator range, value, value range.
    Assignment(ByteSpan, Range, Operator, Range, ValueModel, Range),
    Value(ValueModel, Range),
    Comment(ByteSpan, Range),
}

pub open spec fn value_model(v: Value) -> ValueModel
    decreases v,
{
    match v {
        Value::String(s) => ValueModel::String(s),
        Value::QuotedString(s) => ValueModel::QuotedString(s@),
        Value::Number(s) => ValueModel::Number(s),
        Value::Boolean(b) => ValueModel::Boolean(b),
        Value::Block(es) => ValueModel::Block(entries_model(es@)),
        Value::TaggedBlock(t, es, r) => ValueModel::TaggedBlock(t, entries_model(es@), r),
    }
}

pub open spec fn entry_model(e: Entry) -> EntryModel
    decreases e,
{
    match e {
        Entry::Assignment(a) => EntryModel::Assignment(
            a.key,
            a.key_range,
            a.operator,
            a.operator_range,
            value_model(a.value.value),
            a.value.range,
        ),
        Entry::Value(nv) => EntryModel::Value(value_model(nv.value), nv.range),
        Entry::Comment(s, r) => EntryModel::Comment(s, r),
    }
}

pub open spec fn entries_model(es: Seq<Entry>) -> Seq<EntryModel>
    decreases es,
{
    if es.len() == 0 {
        Seq::empty()
    } else {
        entries_model(es.drop_last()).push(entry_model(es.last()))
    }
}

/// A block at `i` (after separating whitespace): its end, entries and range.
pub open spec fn block_at(cs: Seq<char>, i: int) -> Option<(int, Seq<EntryModel>, Range)>
    decreases cs.len() - i, 1int,
    when 0 <= i <= cs.len()
{
    proof {
        lemma_ws_end(cs, i);
    }
    let s = ws_end(cs, i);
    if s < cs.len() && cs[s] == '{' {
        let (p, es) = entries_at(cs, s + 1);
        let q = ws_end(cs, p);
        if 0 <= q < cs.len() && cs[q] == '}' {
            Some((q + 1, es, Range {
                start_line: line_at(cs, s) as u32,
                start_col: col_at(cs, s) as u32,
                end_line: line_at(cs, q) as u32,
                end_col: (col_at(cs, q) + 1) as u32,
            }))
        } else {
            None
        }
    } else {
        None
    }
}

/// An identifier followed by a block.
pub open spec fn tagged_at(cs: Seq<char>, i: int) -> Option<(int, ValueModel, Range)>
    decreases cs.len() - i, 1int,
    when 0 <= i <= cs.len()
{
    proof {
        lemma_ident_end(cs, i);
    }
    let e = ident_end(cs, i);
    if e > i {
        match block_at(cs, e) {
            Some((q, es, br)) => Some((q, ValueModel::TaggedBlock(span_of(cs, i, e), es, br), Range {
                start_line: line_at(cs, i) as u32,
                start_col: col_at(cs, i) as u32,
                end_line: br.end_line,
                end_col: br.end_col,
            })),
            None => None,
        }
    } else {
        None
    }
}

/// An identifier read as a value: a number when it starts with a digit or a
/// minus sign and reads as a finite `f64`, else a string.
pub open spec fn ident_value_at(cs: Seq<char>, i: int) -> Option<(int, ValueModel)> {
    let e = ident_end(cs, i);
    if e > i {
        if ('0' <= cs[i] && cs[i] <= '9' || cs[i] == '-' || cs[i] == '+') && finite_float_text(
            cs.subrange(i, e),
        ) {
            Some((e, ValueModel::Number(span_of(cs, i, e))))
        } else {
            Some((e, ValueModel::String(span_of(cs, i, e))))
        }
    } else {
        None
    }
}

/// A value at `i`: quoted string, boolean, tagged block, identifier or
/// number, signed number, block, tried in this order.
pub open spec fn value_at(cs: Seq<char>, i: int) -> Option<(int, ValueModel, Range)>
    decreases cs.len() - i, 2int,
    when 0 <= i <= cs.len()
{
    match quoted_at(cs, i) {
        Some((e, t)) => Some((e, ValueModel::QuotedString(t), pos_range(cs, i, e))),
        None => match boolean_at(cs, i) {
            Some((e, b)) => Some((e, ValueModel::Boolean(b), flat_range(cs, i, e))),
            None => match tagged_at(cs, i) {
                Some(t) => Some(t),
                None => match ident_value_at(cs, i) {
                    Some((e, v)) => Some((e, v, flat_range(cs, i, e))),
                    None => match number_end(cs, i) {
                        Some(e) => Some((e, ValueModel::Number(span_of(cs, i, e)), flat_range(cs, i, e))),
                        None => match block_at(cs, i) {
                            Some((e, es, r)) => Some((e, ValueModel::Block(es), r)),
                            None => None,
                        },
                    },
                },
            },
        },
    }
}

/// The key of an assignment: an identifier, or a quoted string (whose span
/// covers the quotes).
pub open spec fn key_at(cs: Seq<char>, i: int) -> Option<(int, ByteSpan, Range)> {
    let e = ident_end(cs, i);
    if e > i {
        Some((e, span_of(cs, i, e), flat_range(cs, i, e)))
    } else {
        match quoted_at(cs, i) {
            Some((q, _)) => Some((q, span_of(cs, i, q), pos_range(cs, i, q))),
            None => None,
        }
    }
}

/// `key op value`, with separating whitespace around the operator.
pub open spec fn assignment_at(cs: Seq<char>, i: int) -> Option<(int, EntryModel)>
    decreases cs.len() - i, 3int,
    when 0 <= i <= cs.len()
{
    proof {
        lemma_ident_end(cs, i);
        if i < cs.len() && cs[i] == '"' {
            lemma_quoted_from(cs, i + 1, Seq::empty());
        }
    }
    match key_at(cs, i) {
        Some((k, ks, kr)) => {
            proof {
                lemma_ws_end(cs, k);
            }
            let o = ws_end(cs, k);
            match operator_at(cs, o) {
                Some((oe, op)) => {
                    proof {
                        lemma_ws_end(cs, oe);
                    }
                    let v = ws_end(cs, oe);
                    match value_at(cs, v) {
                        Some((ve, vm, vr)) => Some(
                            (ve, EntryModel::Assignment(ks, kr, op, flat_range(cs, o, oe), vm, vr)),
                        ),
                        None => None,
                    }
                },
                None => None,
            }
        },
        None => None,
    }
}

/// An entry at `i`: comment, assignment or value, tried in this order.
pub open spec fn entry_at(cs: Seq<char>, i: int) -> Option<(int, EntryModel)>
    decreases cs.len() - i, 4int,
    when 0 <= i <= cs.len()
{
    match comment_end(cs, i) {
        Some(e) => Some((e, EntryModel::Comment(span_of(cs, i + 1, e), flat_range(cs, i, e)))),
        None => match assignment_at(cs, i) {
            Some(a) => Some(a),
            None => match value_at(cs, i) {
                Some((e, v, r)) => Some((e, EntryModel::Value(v, r))),
                None => None,
            },
        },
    }
}

/// The entries of a block from `i`, each after separating whitespace, until
/// one fails to parse: where they end and what they are.
pub open spec fn entries_at(cs: Seq<char>, i: int) -> (int, Seq<EntryModel>)
    decreases cs.len() - i, 5int,
    when 0 <= i <= cs.len()
{
    proof {
        lemma_ws_end(cs, i);
    }
    match entry_at(cs, ws_end(cs, i)) {
        Some((e, m)) => if i < e <= cs.len() {
            let (p, rest) = entries_at(cs, e);
            (p, seq![m] + rest)
        } else {
            (i, Seq::empty())
        },
        None => (i, Seq::empty()),
    }
}

} // verus!

verus! {

// ---------------------------------------------------------------------------
// The executable parser
// ---------------------------------------------------------------------------

impl Src {
    /// Line and column of character index `k`.
    pub(crate) fn at(&self, k: usize) -> (r: (u32, u32))
        requires
            self.wf(),
            k <= self.cs@.len(),
        ensures
            r.0 == line_at(self.cs@, k as int),
            r.1 == col_at(self.cs@, k as int),
            r.0 == line_at(self.cs@, k as int) as u32,
            r.1 == col_at(self.cs@, k as int) as u32,
            r.1 + 1 <= u32::MAX || k == self.cs@.len(),
    {
        proof {
            lemma_line_col_bound(self.cs@, k as int);
            lemma_utf8_offset_mono(self.cs@, k as int, self.cs@.len() as int);
            if k < self.cs@.len() {
                lemma_utf8_offset_step(self.cs@, k as int);
                vstd::utf8::char_is_scalar(self.cs@[k as int]);
                lemma_utf8_offset_mono(self.cs@, k + 1, self.cs@.len() as int);
            }
        }
        (self.line[k], self.col[k])
    }
}

/// The exec result of a value parse agrees with the grammar.
pub open spec fn value_result(cs: Seq<char>, i: int, r: Option<(usize, NodeedValue)>, m: Option<(int, ValueModel, Range)>) -> bool {
    match m {
        Some((e, vm, rg)) => r matches Some((e2, nv)) && e2 == e && value_model(nv.value) == vm
            && nv.range == rg && value_fits(nv.value, encode_utf8(cs)) && i < e <= cs.len(),
        None => r is None,
    }
}

fn parse_block(src: &Src, i: usize) -> (r: Option<(usize, Vec<Entry>, Range)>)
    requires
        src.wf(),
        i <= src.cs@.len(),
    ensures
        match block_at(src.cs@, i as int) {
            Some((e, m, rg)) => r matches Some((e2, v, rg2)) && e2 == e && entries_model(v@) == m
                && rg2 == rg && i < e <= src.cs@.len()
                && forall|k: int| 0 <= k < v@.len() ==> entry_fits(#[trigger] v@[k], encode_utf8(src.cs@)),
            None => r is None,
        },
    decreases src.cs@.len() - i, 1int,
{
    let s = scan_ws(src, i);
    if !(s < src.cs.len() && src.cs[s] == '{') {
        return None;
    }
    let (p, es) = parse_entries(src, s + 1);
    let q = scan_ws(src, p);
    if !(q < src.cs.len() && src.cs[q] == '}') {
        return None;
    }
    let (sl, sc) = src.at(s);
    let (ql, qc) = src.at(q);
    Some((q + 1, es, Range { start_line: sl, start_col: sc, end_line: ql, end_col: qc + 1 }))
}

fn parse_entries(src: &Src, i: usize) -> (r: (usize, Vec<Entry>))
    requires
        src.wf(),
        i <= src.cs@.len(),
    ensures
        r.0 == entries_at(src.cs@, i as int).0,
        entries_model(r.1@) == entries_at(src.cs@, i as int).1,
        i <= r.0 <= src.cs@.len(),
        forall|k: int| 0 <= k < r.1@.len() ==> entry_fits(#[trigger] r.1@[k], encode_utf8(src.cs@)),
    decreases src.cs@.len() - i, 5int,
{
    let mut cur = i;
    let mut v: Vec<Entry> = Vec::new();
    loop
        invariant
            src.wf(),
            i <= cur <= src.cs@.len(),
            entries_at(src.cs@, i as int) == (
                entries_at(src.cs@, cur as int).0,
                entries_model(v@) + entries_at(src.cs@, cur as int).1,
            ),
            forall|k: int| 0 <= k < v@.len() ==> entry_fits(#[trigger] v@[k], encode_utf8(src.cs@)),
        decreases src.cs@.len() - cur,
    {
        let s = scan_ws(src, cur);
        match parse_entry(src, s) {
            Some((e, ent)) => {
                let ghost m = entry_model(ent);
                let ghost rest = entries_at(src.cs@, e as int);
                proof {
                    assert(v@.push(ent).drop_last() =~= v@);
                    assert(entries_model(v@.push(ent)) == entries_model(v@).push(m));
                    assert(entries_model(v@) + (seq![m] + rest.1) =~= entries_model(v@).push(m) + rest.1);
                }
                v.push(ent);
                cur = e;
            },
            None => {
                assert(entries_model(v@) + Seq::<EntryModel>::empty() =~= entries_model(v@));
                return (cur, v);
            },
        }
    }
}

fn parse_tagged(src: &Src, i: usize) -> (r: Option<(usize, NodeedValue)>)
    requires
        src.wf(),
        i <= src.cs@.len(),
    ensures
        value_result(src.cs@, i as int, r, tagged_at(src.cs@, i as int)),
    decreases src.cs@.len() - i, 1int,
{
    let e = scan_ident(src, i);
    if e == i {
        return None;
    }
    match parse_block(src, e) {
        Some((q, es, br)) => {
            let (il, ic) = src.at(i);
            let range = Range { start_line: il, start_col: ic, end_line: br.end_line, end_col: br.end_col };
            Some((q, NodeedValue { value: Value::TaggedBlock(src.span(i, e), es, br), range }))
        },
        None => None,
    }
}

fn parse_ident_value(src: &Src, i: usize) -> (r: Option<(usize, NodeedValue)>)
    requires
        src.wf(),
        i <= src.cs@.len(),
    ensures
        match ident_value_at(src.cs@, i as int) {
            Some((e, vm)) => r matches Some((e2, nv)) && e2 == e && value_model(nv.value) == vm
                && nv.range == flat_range(src.cs@, i as int, e) && value_fits(nv.value, encode_utf8(src.cs@))
                && i < e <= src.cs@.len(),
            None => r is None,
        },
{
    let e = scan_ident(src, i);
    if e == i {
        return None;
    }
    let c = src.cs[i];
    let span = src.span(i, e);
    let range = src.flat(i, e);
    if (('0' <= c && c <= '9') || c == '-' || c == '+') && is_finite_float_text(&src.cs, i, e) {
        Some((e, NodeedValue { value: Value::Number(span), range }))
    } else {
        Some((e, NodeedValue { value: Value::String(span), range }))
    }
}

fn parse_value(src: &Src, i: usize) -> (r: Option<(usize, NodeedValue)>)
    requires
        src.wf(),
        i <= src.cs@.len(),
    ensures
        value_result(src.cs@, i as int, r, value_at(src.cs@, i as int)),
    decreases src.cs@.len() - i, 2int,
{
    if let Some((e, s)) = scan_quoted(src, i) {
        return Some((e, NodeedValue { value: Value::QuotedString(s), range: src.between(i, e) }));
    }
    if let Some((e, b)) = scan_boolean(src, i) {
        return Some((e, NodeedValue { value: Value::Boolean(b), range: src.flat(i, e) }));
    }
    if let Some((e, nv)) = parse_tagged(src, i) {
        return Some((e, nv));
    }
    if let Some((e, nv)) = parse_ident_value(src, i) {
        return Some((e, nv));
    }
    if let Some(e) = scan_number(src, i) {
        return Some((e, NodeedValue { value: Value::Number(src.span(i, e)), range: src.flat(i, e) }));
    }
    if let Some((e, es, r)) = parse_block(src, i) {
        return Some((e, NodeedValue { value: Value::Block(es), range: r }));
    }
    None
}

fn parse_assignment(src: &Src, i: usize) -> (r: Option<(usize, Assignment)>)
    requires
        src.wf(),
        i <= src.cs@.len(),
    ensures
        match assignment_at(src.cs@, i as int) {
            Some((e, m)) => r matches Some((e2, a)) && e2 == e && entry_model(Entry::Assignment(a)) == m
                && entry_fits(Entry::Assignment(a), encode_utf8(src.cs@)) && i < e <= src.cs@.len(),
            None => r is None,
        },
    decreases src.cs@.len() - i, 3int,
{
    let e = scan_ident(src, i);
    let (k, key, key_range) = if e > i {
        (e, src.span(i, e), src.flat(i, e))
    } else {
        match scan_quoted(src, i) {
            Some((q, _)) => (q, src.span(i, q), src.between(i, q)),
            None => {
                return None;
            },
        }
    };
    let o = scan_ws(src, k);
    let (oe, operator) = match scan_operator(src, o) {
        Some(x) => x,
        None => {
            return None;
        },
    };
    let v = scan_ws(src, oe);
    let (ve, value) = match parse_value(src, v) {
        Some(x) => x,
        None => {
            return None;
        },
    };
    let operator_range = src.flat(o, oe);
    Some((ve, Assignment { key, key_range, operator, operator_range, value }))
}

fn parse_entry(src: &Src, i: usize) -> (r: Option<(usize, Entry)>)
    requires
        src.wf(),
        i <= src.cs@.len(),
    ensures
        match entry_at(src.cs@, i as int) {
            Some((e, m)) => r matches Some((e2, ent)) && e2 == e && entry_model(ent) == m
                && entry_fits(ent, encode_utf8(src.cs@)) && i < e <= src.cs@.len(),
            None => r is None,
        },
    decreases src.cs@.len() - i, 4int,
{
    if i < src.cs.len() && src.cs[i] == '#' {
        let e = scan_line_text(src, i + 1);
        proof {
            lemma_line_text_end(src.cs@, i + 1);
        }
        return Some((e, Entry::Comment(src.span(i + 1, e), src.flat(i, e))));
    }
    if let Some((e, a)) = parse_assignment(src, i) {
        return Some((e, Entry::Assignment(a)));
    }
    if let Some((e, nv)) = parse_value(src, i) {
        return Some((e, Entry::Value(nv)));
    }
    None
}

} // verus!

verus! {

// ---------------------------------------------------------------------------
// Error recovery and the top level
// ---------------------------------------------------------------------------

/// What the resynchronising scan is inside of.
pub enum ScanMode {
    Normal,
    Comment,
    Quoted,
    Escaped,
}

/// Scans forward from `i` for a `}` that brings the brace depth below
/// `start`, skipping comments (`#` to the end of the line) and quoted
/// strings (with backslash escapes); returns the index just past it.
pub open spec fn resync_scan(cs: Seq<char>, i: int, mode: ScanMode, depth: int, start: int) -> Option<int>
    decreases cs.len() - i,
{
    if 0 <= i < cs.len() {
        let c = cs[i];
        match mode {
            ScanMode::Comment => resync_scan(
                cs,
                i + 1,
                if c == '\n' { ScanMode::Normal } else { ScanMode::Comment },
                depth,
                start,
            ),
            ScanMode::Quoted => resync_scan(
                cs,
                i + 1,
                if c == '\\' {
                    ScanMode::Escaped
                } else if c == '"' {
                    ScanMode::Normal
                } else {
                    ScanMode::Quoted
                },
                depth,
                start,
            ),
            ScanMode::Escaped => resync_scan(cs, i + 1, ScanMode::Quoted, depth, start),
            ScanMode::Normal => if c == '#' {
                resync_scan(cs, i + 1, ScanMode::Comment, depth, start)
            } else if c == '"' {
                resync_scan(cs, i + 1, ScanMode::Quoted, depth, start)
            } else if c == '{' {
                resync_scan(cs, i + 1, ScanMode::Normal, depth + 1, start)
            } else if c == '}' {
                if depth - 1 < start {
                    Some(i + 1)
                } else {
                    resync_scan(cs, i + 1, ScanMode::Normal, depth - 1, start)
                }
            } else {
                resync_scan(cs, i + 1, ScanMode::Normal, depth, start)
            },
        }
    } else {
        None
    }
}

/// Where parsing resumes after an error at `s`: past the brace that
/// resynchronises the depth, else past the end of the line, else nowhere.
pub open spec fn recovery_at(cs: Seq<char>, s: int) -> Option<int> {
    match resync_scan(cs, s, ScanMode::Normal, 0, 0) {
        Some(p) => Some(p),
        None => match newline_from(cs, s) {
            Some(n) => Some(n + 1),
            None => None,
        },
    }
}

/// The end of the line that starts at `s` (before its line feed).
pub open spec fn first_line_end(cs: Seq<char>, s: int) -> int {
    match newline_from(cs, s) {
        Some(n) => n,
        None => cs.len() as int,
    }
}

/// The text quoted in the message for an error at `s`: the rest of its
/// line, trimmed, cut to 30 characters and `...` when longer than 30 bytes;
/// when that is empty, the next 10 characters.
pub open spec fn snippet(cs: Seq<char>, s: int) -> Seq<char> {
    let t = trim(cs.subrange(s, first_line_end(cs, s)));
    if encode_utf8(t).len() > 30 {
        t.take(if t.len() < 30 { t.len() as int } else { 30 }) + "..."@
    } else if t.len() == 0 {
        cs.subrange(s, if s + 10 < cs.len() { s + 10 } else { cs.len() as int })
    } else {
        t
    }
}

pub open spec fn error_message(cs: Seq<char>, s: int) -> Seq<char> {
    "Parsing error near: '"@ + snippet(cs, s) + seq!['\'']
}

/// Number of columns an error at `s` underlines: the rest of its line, at
/// most 20 characters and at least one.
pub open spec fn error_width(cs: Seq<char>, s: int) -> int {
    let k = line_text_end(cs, s) - s;
    let k2 = if k > 20 { 20 } else { k };
    if k2 == 0 { 1 } else { k2 }
}

pub open spec fn error_range(cs: Seq<char>, s: int) -> Range {
    Range {
        start_line: line_at(cs, s) as u32,
        start_col: col_at(cs, s) as u32,
        end_line: line_at(cs, s) as u32,
        end_col: (col_at(cs, s) + error_width(cs, s)) as u32,
    }
}

/// The entries and errors of a script from `i` on: entries separated by
/// whitespace; where none parses, an error and a resumption point.
pub open spec fn script_at(cs: Seq<char>, i: int) -> (Seq<EntryModel>, Seq<(Seq<char>, Range)>)
    decreases cs.len() - i,
    when 0 <= i <= cs.len()
{
    proof {
        lemma_ws_end(cs, i);
    }
    let s = ws_end(cs, i);
    if s >= cs.len() {
        (Seq::empty(), Seq::empty())
    } else {
        match entry_at(cs, s) {
            Some((e, m)) => if i < e <= cs.len() {
                let (es, errs) = script_at(cs, e);
                (seq![m] + es, errs)
            } else {
                (Seq::empty(), Seq::empty())
            },
            None => {
                let err = (error_message(cs, s), error_range(cs, s));
                match recovery_at(cs, s) {
                    Some(p) => if i < p <= cs.len() {
                        let (es, errs) = script_at(cs, p);
                        (es, seq![err] + errs)
                    } else {
                        (Seq::empty(), seq![err])
                    },
                    None => (Seq::empty(), seq![err]),
                }
            },
        }
    }
}

/// The input without a leading byte-order mark.
pub open spec fn strip_bom(s: Seq<char>) -> Seq<char> {
    if s.len() > 0 && s[0] == '\u{feff}' {
        s.drop_first()
    } else {
        s
    }
}

pub open spec fn errors_model(errs: Seq<(String, Range)>) -> Seq<(Seq<char>, Range)> {
    errs.map_values(|p: (String, Range)| (p.0@, p.1))
}

fn resync_chars(cs: &Vec<char>, from: usize, start: i64) -> (r: Option<usize>)
    requires
        from <= cs@.len() <= u32::MAX,
        i32::MIN <= start <= i32::MAX,
    ensures
        match resync_scan(cs@, from as int, ScanMode::Normal, start as int, start as int) {
            Some(k) => r == Some(k as usize) && from < k <= cs@.len(),
            None => r is None,
        },
{
    let mut i = from;
    let mut mode = ScanMode::Normal;
    let mut depth = start;
    while i < cs.len()
        invariant
            from <= i <= cs@.len() <= u32::MAX,
            i32::MIN <= start <= i32::MAX,
            start <= depth <= start + (i - from),
            resync_scan(cs@, i as int, mode, depth as int, start as int) == resync_scan(
                cs@,
                from as int,
                ScanMode::Normal,
                start as int,
                start as int,
            ),
        decreases cs@.len() - i,
    {
        let c = cs[i];
        match mode {
            ScanMode::Comment => {
                if c == '\n' {
                    mode = ScanMode::Normal;
                }
            },
            ScanMode::Quoted => {
                if c == '\\' {
                    mode = ScanMode::Escaped;
                } else if c == '"' {
                    mode = ScanMode::Normal;
                }
            },
            ScanMode::Escaped => {
                mode = ScanMode::Quoted;
            },
            ScanMode::Normal => {
                if c == '#' {
                    mode = ScanMode::Comment;
                } else if c == '"' {
                    mode = ScanMode::Quoted;
                } else if c == '{' {
                    depth = depth + 1;
                } else if c == '}' {
                    if depth - 1 < start {
                        return Some(i + 1);
                    }
                    depth = depth - 1;
                }
            },
        }
        i = i + 1;
    }
    None
}

/// Scans `text` for a `}` that brings the brace depth below `start_depth`
/// (0 outside any block, -1 inside one whose `{` was already read),
/// skipping comments and quoted strings.  Returns the number of bytes up to
/// and including that brace, or `None` when there is none.
pub fn find_resync_point(text: &str, start_depth: i32) -> (r: Option<usize>)
    requires
        text.spec_bytes().len() <= u32::MAX,
    ensures
        match resync_scan(text@, 0, ScanMode::Normal, start_depth as int, start_depth as int) {
            Some(k) => r == Some(utf8_offset(text@, k) as usize),
            None => r is None,
        },
{
    let cs = chars_of(text);
    proof {
        lemma_utf8_offset_full(cs@);
        crate::text::lemma_utf8_offset_chars(cs@, 0, cs@.len() as int);
        assert(cs@.take(0) =~= Seq::<char>::empty());
        assert(encode_utf8(Seq::<char>::empty()) =~= Seq::<u8>::empty());
    }
    let src = Src::new(cs);
    match resync_chars(&src.cs, 0, start_depth as i64) {
        Some(k) => Some(src.byte[k]),
        None => None,
    }
}

} // verus!

verus! {

/// The message for a parse error at `s`.
fn error_message_at(src: &Src, s: usize) -> (m: String)
    requires
        src.wf(),
        s < src.cs@.len(),
    ensures
        m@ == error_message(src.cs@, s as int),
{
    let ghost cs = src.cs@;
    let e = match find_newline(src, s) {
        Some(n) => n,
        None => src.cs.len(),
    };
    assert(e == first_line_end(cs, s as int));
    let mut lo = s;
    while lo < e && char_is_whitespace(src.cs[lo])
        invariant
            src.wf(),
            cs == src.cs@,
            s <= lo <= e <= cs.len(),
            trim_start(cs.subrange(s as int, e as int)) == trim_start(cs.subrange(lo as int, e as int)),
        decreases e - lo,
    {
        assert(cs.subrange(lo as int, e as int).drop_first() =~= cs.subrange(lo + 1, e as int));
        lo += 1;
    }
    assert(trim_start(cs.subrange(s as int, e as int)) == cs.subrange(lo as int, e as int));
    let mut hi = e;
    while hi > lo && char_is_whitespace(src.cs[hi - 1])
        invariant
            src.wf(),
            cs == src.cs@,
            s <= lo <= hi <= e <= cs.len(),
            trim_end(cs.subrange(lo as int, e as int)) == trim_end(cs.subrange(lo as int, hi as int)),
        decreases hi - lo,
    {
        assert(cs.subrange(lo as int, hi as int).drop_last() =~= cs.subrange(lo as int, hi - 1));
        hi -= 1;
    }
    let ghost t = cs.subrange(lo as int, hi as int);
    assert(trim(cs.subrange(s as int, e as int)) == t);
    proof {
        crate::text::lemma_encode_slice(cs, lo as int, hi as int);
        lemma_utf8_offset_mono(cs, lo as int, hi as int);
    }
    let mut m = literal("Parsing error near: '");
    if src.byte[hi] - src.byte[lo] > 30 {
        let take_end = if hi - lo < 30 { hi } else { lo + 30 };
        assert(t.take(if t.len() < 30 { t.len() as int } else { 30 }) =~= cs.subrange(lo as int, take_end as int));
        push_range(&mut m, &src.cs, lo, take_end);
        crate::text::append_str(&mut m, "...");
    } else if hi == lo {
        let end10 = if src.cs.len() - s > 10 { s + 10 } else { src.cs.len() };
        push_range(&mut m, &src.cs, s, end10);
    } else {
        push_range(&mut m, &src.cs, lo, hi);
    }
    push_char(&mut m, '\'');
    m
}

/// The range reported for a parse error at `s`.
fn error_range_at(src: &Src, s: usize) -> (r: Range)
    requires
        src.wf(),
        s < src.cs@.len(),
    ensures
        r == error_range(src.cs@, s as int),
{
    let e = scan_line_text(src, s);
    proof {
        lemma_line_text_end(src.cs@, s as int);
        lemma_col_run(src.cs@, s as int, e as int);
        lemma_line_col_bound(src.cs@, e as int);
        lemma_utf8_offset_mono(src.cs@, e as int, src.cs@.len() as int);
    }
    let (l, c) = src.at(s);
    let k = if e - s > 20 { 20 } else { e - s };
    let w = if k == 0 { 1 } else { k };
    Range { start_line: l, start_col: c, end_line: l, end_col: c + (w as u32) }
}

/// Where parsing resumes after an error at `s`.
fn recover(src: &Src, s: usize) -> (r: Option<usize>)
    requires
        src.wf(),
        s < src.cs@.len(),
    ensures
        match recovery_at(src.cs@, s as int) {
            Some(p) => r == Some(p as usize) && s < p <= src.cs@.len(),
            None => r is None,
        },
{
    match resync_chars(&src.cs, s, 0) {
        Some(p) => Some(p),
        None => match find_newline(src, s) {
            Some(n) => Some(n + 1),
            None => None,
        },
    }
}

/// Parses the whole source: entries, and an error for each place where no
/// entry parses.
fn parse_all(src: &Src) -> (r: (Vec<Entry>, Vec<(String, Range)>))
    requires
        src.wf(),
    ensures
        entries_model(r.0@) == script_at(src.cs@, 0).0,
        errors_model(r.1@) == script_at(src.cs@, 0).1,
        forall|k: int| 0 <= k < r.0@.len() ==> entry_fits(#[trigger] r.0@[k], encode_utf8(src.cs@)),
{
    let ghost cs = src.cs@;
    let mut cur: usize = 0;
    let mut entries: Vec<Entry> = Vec::new();
    let mut errors: Vec<(String, Range)> = Vec::new();
    assert(entries_model(entries@) =~= Seq::<EntryModel>::empty());
    assert(errors_model(errors@) =~= Seq::<(Seq<char>, Range)>::empty());
    loop
        invariant
            src.wf(),
            cs == src.cs@,
            cur <= cs.len(),
            script_at(cs, 0) == (
                entries_model(entries@) + script_at(cs, cur as int).0,
                errors_model(errors@) + script_at(cs, cur as int).1,
            ),
            forall|k: int| 0 <= k < entries@.len() ==> entry_fits(#[trigger] entries@[k], encode_utf8(cs)),
        decreases cs.len() - cur,
    {
        let s = scan_ws(src, cur);
        if s >= src.cs.len() {
            assert(entries_model(entries@) + Seq::<EntryModel>::empty() =~= entries_model(entries@));
            assert(errors_model(errors@) + Seq::<(Seq<char>, Range)>::empty() =~= errors_model(errors@));
            return (entries, errors);
        }
        match parse_entry(src, s) {
            Some((e, ent)) => {
                let ghost m = entry_model(ent);
                let ghost rest = script_at(cs, e as int);
                proof {
                    assert(entries@.push(ent).drop_last() =~= entries@);
                    assert(entries_model(entries@.push(ent)) == entries_model(entries@).push(m));
                    assert(entries_model(entries@) + (seq![m] + rest.0) =~= entries_model(entries@).push(m) + rest.0);
                }
                entries.push(ent);
                cur = e;
            },
            None => {
                let msg = error_message_at(src, s);
                let range = error_range_at(src, s);
                let ghost err = (msg@, range);
                let ghost old_errors = errors@;
                errors.push((msg, range));
                proof {
                    assert(errors_model(errors@) =~= errors_model(old_errors).push(err));
                }
                match recover(src, s) {
                    Some(p) => {
                        let ghost rest = script_at(cs, p as int);
                        assert(errors_model(old_errors) + (seq![err] + rest.1) =~= errors_model(errors@) + rest.1);
                        cur = p;
                    },
                    None => {
                        assert(entries_model(entries@) + Seq::<EntryModel>::empty() =~= entries_model(entries@));
                        assert(errors_model(old_errors) + seq![err] =~= errors_model(errors@));
                        return (entries, errors);
                    },
                }
            },
        }
    }
}

/// Parses HOI4 script text.  A leading byte-order mark is dropped; the
/// result's source is the rest, and all byte spans point into it.  Returns
/// the script and the parse errors, each with its message and range.
pub fn parse_script(input: &str) -> (r: (Script, Vec<(String, Range)>))
    requires
        input.spec_bytes().len() <= u32::MAX,
    ensures
        r.0.source@ == strip_bom(input@),
        !r.0.closed_by_eof,
        entries_model(r.0.entries@) == script_at(r.0.source@, 0).0,
        errors_model(r.1@) == script_at(r.0.source@, 0).1,
        forall|k: int| 0 <= k < r.0.entries@.len() ==> entry_fits(#[trigger] r.0.entries@[k], encode_utf8(r.0.source@)),
{
    let all = chars_of(input);
    let start: usize = if all.len() > 0 && all[0] == '\u{feff}' { 1 } else { 0 };
    let mut source = String::new();
    push_range(&mut source, &all, start, all.len());
    assert(source@ =~= strip_bom(input@));
    let cs = chars_of(source.as_str());
    proof {
        crate::text::lemma_encode_slice(all@, start as int, all@.len() as int);
        lemma_utf8_offset_full(all@);
        lemma_utf8_offset_full(cs@);
        crate::text::lemma_utf8_offset_chars(cs@, 0, cs@.len() as int);
        assert(all@.subrange(start as int, all@.len() as int) =~= cs@);
        assert(cs@.take(0) =~= Seq::<char>::empty());
        assert(encode_utf8(Seq::<char>::empty()) =~= Seq::<u8>::empty());
    }
    let src = Src::new(cs);
    let (entries, errors) = parse_all(&src);
    (Script { source, entries, closed_by_eof: false }, errors)
}

} // verus!

verus! {

/// Resynchronisation stops just past a closing brace: the scan, from any
/// state, ends right after a `}` that lies at or after where it started.
pub proof fn lemma_resync_stops_after_brace(cs: Seq<char>, i: int, mode: ScanMode, depth: int, start: int)
    requires
        0 <= i,
    ensures
        resync_scan(cs, i, mode, depth, start) matches Some(k) ==> i < k <= cs.len() && cs[k - 1] == '}',
    decreases cs.len() - i,
{
    if 0 <= i < cs.len() {
        let c = cs[i];
        match mode {
            ScanMode::Comment => {
                lemma_resync_stops_after_brace(cs, i + 1, if c == '\n' { ScanMode::Normal } else { ScanMode::Comment }, depth, start);
            },
            ScanMode::Quoted => {
                lemma_resync_stops_after_brace(
                    cs,
                    i + 1,
                    if c == '\\' {
                        ScanMode::Escaped
                    } else if c == '"' {
                        ScanMode::Normal
                    } else {
                        ScanMode::Quoted
                    },
                    depth,
                    start,
                );
            },
            ScanMode::Escaped => {
                lemma_resync_stops_after_brace(cs, i + 1, ScanMode::Quoted, depth, start);
            },
            ScanMode::Normal => {
                if c == '#' {
                    lemma_resync_stops_after_brace(cs, i + 1, ScanMode::Comment, depth, start);
                } else if c == '"' {
                    lemma_resync_stops_after_brace(cs, i + 1, ScanMode::Quoted, depth, start);
                } else if c == '{' {
                    lemma_resync_stops_after_brace(cs, i + 1, ScanMode::Normal, depth + 1, start);
                } else if c == '}' {
                    if !(depth - 1 < start) {
                        lemma_resync_stops_after_brace(cs, i + 1, ScanMode::Normal, depth - 1, start);
                    }
                } else {
                    lemma_resync_stops_after_brace(cs, i + 1, ScanMode::Normal, depth, start);
                }
            },
        }
    }
}

/// A point where `find_resync_point` resumes is just past a `}` of the text:
/// the text up to it ends with that brace.
pub proof fn law_resync_point_follows_brace(text: Seq<char>, start_depth: int)
    ensures
        resync_scan(text, 0, ScanMode::Normal, start_depth, start_depth) matches Some(k) ==> 0 < k <= text.len()
            && text[k - 1] == '}',
{
    lemma_resync_stops_after_brace(text, 0, ScanMode::Normal, start_depth, start_depth);
}

/// After an error the parser resumes strictly after the error position,
/// past a brace or a line feed.
pub proof fn law_recovery_moves_past_brace_or_line_end(cs: Seq<char>, s: int)
    requires
        0 <= s < cs.len(),
    ensures
        recovery_at(cs, s) matches Some(p) ==> s < p <= cs.len() && (cs[p - 1] == '}' || cs[p - 1] == '\n'),
{
    lemma_resync_stops_after_brace(cs, s, ScanMode::Normal, 0, 0);
    crate::text::lemma_newline_from(cs, s);
}

} // verus!
