//! Character and string utilities shared by the parsers and checks.
use vstd::prelude::*;

verus! {

/// The Unicode `Alphabetic || Numeric` property of a character, as std computes it.
pub uninterp spec fn unicode_alphanumeric(c: char) -> bool;

/// The Unicode `White_Space` property: U+0009 to U+000D, U+0020, U+0085,
/// U+00A0, U+1680, U+2000 to U+200A, U+2028, U+2029, U+202F, U+205F and
/// U+3000.
pub open spec fn unicode_whitespace(c: char) -> bool {
    ||| '\u{9}' <= c && c <= '\u{d}'
    ||| c == ' ' || c == '\u{85}' || c == '\u{a0}' || c == '\u{1680}'
    ||| '\u{2000}' <= c && c <= '\u{200a}'
    ||| c == '\u{2028}' || c == '\u{2029}' || c == '\u{202f}' || c == '\u{205f}' || c == '\u{3000}'
}

/// ASCII letters and digits.
pub open spec fn is_ascii_alnum(c: char) -> bool {
    ('0' <= c && c <= '9') || ('a' <= c && c <= 'z') || ('A' <= c && c <= 'Z')
}

/// ASCII digits.
pub open spec fn is_digit(c: char) -> bool {
    '0' <= c && c <= '9'
}

/// The ASCII characters with the Unicode `White_Space` property.
pub open spec fn is_ascii_white(c: char) -> bool {
    c == ' ' || c == '\t' || c == '\n' || c == '\r' || c == '\x0b' || c == '\x0c'
}

/// `char::is_alphanumeric` from std.  The result is a fixed Unicode property of
/// the character; for ASCII it holds exactly of letters and digits.
#[verifier::external_body]
pub(crate) fn char_is_alphanumeric(c: char) -> (r: bool)
    ensures
        r == unicode_alphanumeric(c),
        (c as u32) < 128 ==> (r == is_ascii_alnum(c)),
{
    c.is_alphanumeric()
}

/// Whether `c` has the Unicode `White_Space` property (what std's
/// `char::is_whitespace` tests); for ASCII it holds of space, tab, LF, VT,
/// FF and CR.
pub(crate) fn char_is_whitespace(c: char) -> (r: bool)
    ensures
        r == unicode_whitespace(c),
        (c as u32) < 128 ==> (r == is_ascii_white(c)),
{
    ('\u{9}' <= c && c <= '\u{d}') || c == ' ' || c == '\u{85}' || c == '\u{a0}' || c == '\u{1680}'
        || ('\u{2000}' <= c && c <= '\u{200a}') || c == '\u{2028}' || c == '\u{2029}' || c == '\u{202f}'
        || c == '\u{205f}' || c == '\u{3000}'
}

/// `String::push` from std: appends one character.
#[verifier::external_body]
pub(crate) fn push_char(s: &mut String, c: char)
    ensures
        final(s)@ == old(s)@.push(c),
{
    s.push(c);
}

/// An owned copy of a string.
pub fn literal(s: &str) -> (r: String)
    ensures
        r@ == s@,
{
    s.to_owned()
}

/// The characters of a string, in order.
pub fn chars_of(s: &str) -> (v: Vec<char>)
    ensures
        v@ == s@,
{
    let mut v: Vec<char> = Vec::new();
    for c in it: s.chars()
        invariant
            v@ == it.seq().take(it.index() as int),
            it.seq() == s@,
    {
        v.push(c);
    }
    v
}

} // verus!

verus! {

/// Byte offset of character index `i` in the UTF-8 encoding of `text`.
pub open spec fn utf8_offset(text: Seq<char>, i: int) -> int {
    vstd::utf8::encode_utf8(text.take(i)).len() as int
}

} // verus!

verus! {

/// A character boundary of `bytes` at or after the boundary `start` is also a
/// character boundary of the suffix of `bytes` that begins at `start`.
pub proof fn lemma_char_boundary_suffix(bytes: Seq<u8>, start: int, end: int)
    requires
        vstd::utf8::valid_utf8(bytes),
        vstd::utf8::is_char_boundary(bytes, start),
        vstd::utf8::is_char_boundary(bytes, end),
        0 <= start <= end,
    ensures
        vstd::utf8::valid_utf8(bytes.subrange(start, bytes.len() as int)),
        vstd::utf8::is_char_boundary(bytes.subrange(start, bytes.len() as int), end - start),
    decreases bytes.len(),
{
    reveal_with_fuel(vstd::utf8::is_char_boundary, 2);
    if start == 0 {
        assert(bytes.subrange(0, bytes.len() as int) =~= bytes);
    } else {
        let l = vstd::utf8::length_of_first_scalar(bytes);
        let tail = vstd::utf8::pop_first_scalar(bytes);
        lemma_char_boundary_suffix(tail, start - l, end - l);
        assert(tail.subrange(start - l, tail.len() as int) =~= bytes.subrange(start, bytes.len() as int));
    }
}

} // verus!

verus! {

/// Number of bytes in the UTF-8 encoding of `c`.
pub open spec fn utf8_width(c: char) -> int {
    vstd::utf8::encode_scalar(c as u32).len() as int
}

pub proof fn lemma_encode_utf8_append(a: Seq<char>, b: Seq<char>)
    ensures
        vstd::utf8::encode_utf8(a + b) == vstd::utf8::encode_utf8(a) + vstd::utf8::encode_utf8(b),
    decreases a.len(),
{
    if a.len() == 0 {
        assert(a + b =~= b);
        assert(vstd::utf8::encode_utf8(a) =~= Seq::<u8>::empty());
        assert(Seq::<u8>::empty() + vstd::utf8::encode_utf8(b) =~= vstd::utf8::encode_utf8(b));
    } else {
        assert((a + b).drop_first() =~= a.drop_first() + b);
        assert((a + b)[0] == a[0]);
        lemma_encode_utf8_append(a.drop_first(), b);
        let x = vstd::utf8::encode_scalar(a[0] as u32);
        assert(x + (vstd::utf8::encode_utf8(a.drop_first()) + vstd::utf8::encode_utf8(b))
            =~= (x + vstd::utf8::encode_utf8(a.drop_first())) + vstd::utf8::encode_utf8(b));
    }
}

pub proof fn lemma_encode_single(c: char)
    ensures
        vstd::utf8::encode_utf8(seq![c]) == vstd::utf8::encode_scalar(c as u32),
{
    assert(seq![c].drop_first() =~= Seq::<char>::empty());
    assert(vstd::utf8::encode_utf8(Seq::<char>::empty()) =~= Seq::<u8>::empty());
    assert(vstd::utf8::encode_scalar(c as u32) + Seq::<u8>::empty() =~= vstd::utf8::encode_scalar(
        c as u32,
    ));
}

/// Advancing one character advances the byte offset by that character's width.
pub proof fn lemma_utf8_offset_step(s: Seq<char>, i: int)
    requires
        0 <= i < s.len(),
    ensures
        utf8_offset(s, i + 1) == utf8_offset(s, i) + utf8_width(s[i]),
{
    assert(s.take(i + 1) =~= s.take(i) + seq![s[i]]);
    lemma_encode_utf8_append(s.take(i), seq![s[i]]);
    lemma_encode_single(s[i]);
}

pub proof fn lemma_utf8_offset_mono(s: Seq<char>, i: int, j: int)
    requires
        0 <= i <= j <= s.len(),
    ensures
        utf8_offset(s, i) <= utf8_offset(s, j),
    decreases j - i,
{
    if i < j {
        lemma_utf8_offset_step(s, j - 1);
        lemma_utf8_offset_mono(s, i, j - 1);
    }
}

/// The whole text's offset is its encoded length.
pub proof fn lemma_utf8_offset_full(s: Seq<char>)
    ensures
        utf8_offset(s, s.len() as int) == vstd::utf8::encode_utf8(s).len(),
{
    assert(s.take(s.len() as int) =~= s);
}

/// `char::len_utf8`: the number of bytes in the UTF-8 encoding of `c`.
pub fn utf8_len(c: char) -> (n: usize)
    ensures
        n == utf8_width(c),
        1 <= n <= 4,
{
    proof {
        vstd::utf8::char_is_scalar(c);
    }
    let v = c as u32;
    if v < 0x80 {
        1
    } else if v < 0x800 {
        2
    } else if v < 0x10000 {
        3
    } else {
        4
    }
}

} // verus!

verus! {

/// The bytes of the characters `a..b` are the bytes of the whole text between
/// the corresponding offsets.
pub proof fn lemma_encode_slice(s: Seq<char>, a: int, b: int)
    requires
        0 <= a <= b <= s.len(),
    ensures
        vstd::utf8::encode_utf8(s.subrange(a, b)) == vstd::utf8::encode_utf8(s).subrange(
            utf8_offset(s, a),
            utf8_offset(s, b),
        ),
        utf8_offset(s, b) <= vstd::utf8::encode_utf8(s).len(),
{
    let e = |x: Seq<char>| vstd::utf8::encode_utf8(x);
    assert(s.take(b) =~= s.take(a) + s.subrange(a, b));
    assert(s =~= s.take(b) + s.skip(b));
    lemma_encode_utf8_append(s.take(a), s.subrange(a, b));
    lemma_encode_utf8_append(s.take(b), s.skip(b));
    assert(vstd::utf8::encode_utf8(s).subrange(utf8_offset(s, a), utf8_offset(s, b))
        =~= vstd::utf8::encode_utf8(s.subrange(a, b)));
}

/// Character offsets land on character boundaries of the encoding.
pub proof fn lemma_offset_is_boundary(s: Seq<char>, i: int)
    requires
        0 <= i <= s.len(),
    ensures
        vstd::utf8::valid_utf8(vstd::utf8::encode_utf8(s)),
        vstd::utf8::is_char_boundary(vstd::utf8::encode_utf8(s), utf8_offset(s, i)),
    decreases s.len(),
{
    let bytes = vstd::utf8::encode_utf8(s);
    vstd::utf8::encode_utf8_valid_utf8(s);
    if i == 0 {
        assert(s.take(0) =~= Seq::<char>::empty());
        assert(vstd::utf8::encode_utf8(Seq::<char>::empty()) =~= Seq::<u8>::empty());
    } else {
        let t = s.drop_first();
        vstd::utf8::encode_utf8_first_scalar(s);
        let w = vstd::utf8::length_of_first_scalar(bytes);
        assert(bytes == vstd::utf8::encode_scalar(s[0] as u32) + vstd::utf8::encode_utf8(t));
        assert(vstd::utf8::pop_first_scalar(bytes) =~= vstd::utf8::encode_utf8(t));
        lemma_offset_is_boundary(t, i - 1);
        assert(s.take(i) =~= seq![s[0]] + t.take(i - 1));
        lemma_encode_utf8_append(seq![s[0]], t.take(i - 1));
        lemma_encode_single(s[0]);
        assert(utf8_offset(s, i) == w + utf8_offset(t, i - 1));
        lemma_utf8_offset_mono(t, 0, i - 1);
        assert(utf8_offset(s, i) > 0) by {
            assert(t.take(0) =~= Seq::<char>::empty());
            assert(vstd::utf8::encode_utf8(Seq::<char>::empty()) =~= Seq::<u8>::empty());
        }
        reveal_with_fuel(vstd::utf8::is_char_boundary, 2);
    }
}

} // verus!

verus! {

/// Whether two character vectors hold the same characters.
pub fn chars_equal(a: &Vec<char>, b: &Vec<char>) -> (r: bool)
    ensures
        r == (a@ == b@),
{
    if a.len() != b.len() {
        return false;
    }
    let mut k: usize = 0;
    while k < a.len()
        invariant
            a.len() == b.len(),
            k <= a.len(),
            forall|j: int| 0 <= j < k ==> a@[j] == b@[j],
        decreases a.len() - k,
    {
        if a[k] != b[k] {
            return false;
        }
        k += 1;
    }
    assert(a@ =~= b@);
    true
}

/// Whether the string `s` equals `lit`.
pub fn str_is(s: &str, lit: &str) -> (r: bool)
    ensures
        r == (s@ == lit@),
{
    let a = chars_of(s);
    let b = chars_of(lit);
    chars_equal(&a, &b)
}

/// Decimal digits of `n`.
pub open spec fn decimal(n: nat) -> Seq<char>
    decreases n,
{
    if n < 10 {
        seq![(('0' as u32) + n) as char]
    } else {
        decimal(n / 10) + seq![(('0' as u32) + (n % 10)) as char]
    }
}

/// The decimal representation of `n`.
pub fn u32_to_decimal(n: u32) -> (s: String)
    ensures
        s@ == decimal(n as nat),
    decreases n,
{
    if n < 10 {
        let mut s = String::new();
        push_char(&mut s, (('0' as u32 + n) as u8) as char);
        assert(s@ =~= decimal(n as nat));
        s
    } else {
        let mut s = u32_to_decimal(n / 10);
        push_char(&mut s, (('0' as u32 + n % 10) as u8) as char);
        assert(s@ =~= decimal(n as nat));
        s
    }
}

/// Appends `t` to `s`.
pub fn append_str(s: &mut String, t: &str)
    ensures
        final(s)@ == old(s)@ + t@,
{
    let v = chars_of(t);
    let mut k: usize = 0;
    while k < v.len()
        invariant
            k <= v.len(),
            v@ == t@,
            s@ == old(s)@ + v@.take(k as int),
        decreases v.len() - k,
    {
        push_char(s, v[k]);
        assert(v@.take(k + 1) =~= v@.take(k as int).push(v@[k as int]));
        k += 1;
    }
    assert(v@.take(v.len() as int) =~= v@);
}

} // verus!

verus! {

/// A text of `n` characters takes at least `n` bytes.
pub proof fn lemma_utf8_offset_chars(s: Seq<char>, i: int, j: int)
    requires
        0 <= i <= j <= s.len(),
    ensures
        utf8_offset(s, j) - utf8_offset(s, i) >= j - i,
    decreases j - i,
{
    if i < j {
        lemma_utf8_offset_step(s, j - 1);
        lemma_utf8_offset_chars(s, i, j - 1);
        vstd::utf8::char_is_scalar(s[j - 1]);
    }
}

/// The characters `a..b` of `s` cover a byte span inside `encode_utf8(s)` on
/// character boundaries.
pub proof fn lemma_chars_span_fits(s: Seq<char>, a: int, b: int)
    requires
        0 <= a <= b <= s.len(),
    ensures
        crate::ast::span_fits(utf8_offset(s, a), utf8_offset(s, b), vstd::utf8::encode_utf8(s)),
{
    lemma_offset_is_boundary(s, a);
    lemma_offset_is_boundary(s, b);
    lemma_utf8_offset_mono(s, a, b);
    lemma_encode_slice(s, a, b);
}

} // verus!

verus! {

/// Index of the first line feed at or after `i`.
pub open spec fn newline_from(cs: Seq<char>, i: int) -> Option<int>
    decreases cs.len() - i,
{
    if 0 <= i < cs.len() {
        if cs[i] == '\n' {
            Some(i)
        } else {
            newline_from(cs, i + 1)
        }
    } else {
        None
    }
}

pub open spec fn trim_start(t: Seq<char>) -> Seq<char>
    decreases t.len(),
{
    if t.len() > 0 && unicode_whitespace(t[0]) {
        trim_start(t.drop_first())
    } else {
        t
    }
}

pub open spec fn trim_end(t: Seq<char>) -> Seq<char>
    decreases t.len(),
{
    if t.len() > 0 && unicode_whitespace(t.last()) {
        trim_end(t.drop_last())
    } else {
        t
    }
}

/// `t` without leading and trailing whitespace.
pub open spec fn trim(t: Seq<char>) -> Seq<char> {
    trim_end(trim_start(t))
}

} // verus!

verus! {

pub proof fn lemma_newline_from(cs: Seq<char>, i: int)
    requires
        0 <= i <= cs.len(),
    ensures
        newline_from(cs, i) matches Some(k) ==> i <= k < cs.len() && cs[k] == '\n' && forall|j: int|
            i <= j < k ==> #[trigger] cs[j] != '\n',
        newline_from(cs, i) is None ==> forall|j: int| i <= j < cs.len() ==> #[trigger] cs[j] != '\n',
    decreases cs.len() - i,
{
    if i < cs.len() && cs[i] != '\n' {
        lemma_newline_from(cs, i + 1);
    }
}

/// `l` without one trailing carriage return.
pub open spec fn strip_cr(l: Seq<char>) -> Seq<char> {
    if l.len() > 0 && l.last() == '\r' {
        l.drop_last()
    } else {
        l
    }
}

/// The lines of `cs` from index `i` on, split as `str::lines` splits them:
/// at each line feed, dropping one carriage return before it; a last line
/// without a line feed is kept whole, and there is no empty line after a
/// final line feed.
pub open spec fn lines_from(cs: Seq<char>, i: int) -> Seq<Seq<char>>
    decreases cs.len() - i,
{
    if 0 <= i < cs.len() {
        proof {
            lemma_newline_from(cs, i);
        }
        match newline_from(cs, i) {
            Some(k) => seq![strip_cr(cs.subrange(i, k))] + lines_from(cs, k + 1),
            None => seq![cs.subrange(i, cs.len() as int)],
        }
    } else {
        Seq::empty()
    }
}

pub open spec fn lines_of(cs: Seq<char>) -> Seq<Seq<char>> {
    lines_from(cs, 0)
}

/// The texts that a list of bounds picks out of `cs`.
pub open spec fn bounds_text(cs: Seq<char>, b: Seq<(usize, usize)>) -> Seq<Seq<char>> {
    b.map_values(|x: (usize, usize)| cs.subrange(x.0 as int, x.1 as int))
}

/// Start and end of each line of `cs`, as `str::lines` splits them.
pub fn line_bounds(cs: &Vec<char>) -> (v: Vec<(usize, usize)>)
    ensures
        bounds_text(cs@, v@) == lines_of(cs@),
        forall|j: int| 0 <= j < v@.len() ==> #[trigger] v@[j].0 <= v@[j].1 <= cs@.len(),
{
    let mut v: Vec<(usize, usize)> = Vec::new();
    let mut p: usize = 0;
    while p < cs.len()
        invariant
            p <= cs@.len(),
            lines_of(cs@) == bounds_text(cs@, v@) + lines_from(cs@, p as int),
            forall|j: int| 0 <= j < v@.len() ==> #[trigger] v@[j].0 <= v@[j].1 <= cs@.len(),
        decreases cs.len() - p,
    {
        proof {
            lemma_newline_from(cs@, p as int);
        }
        let mut k = p;
        while k < cs.len() && cs[k] != '\n'
            invariant
                p <= k <= cs@.len(),
                newline_from(cs@, k as int) == newline_from(cs@, p as int),
                forall|j: int| p <= j < k ==> #[trigger] cs@[j] != '\n',
            decreases cs.len() - k,
        {
            k += 1;
        }
        let ghost old_v = v@;
        let ghost rest = lines_from(cs@, p as int);
        if k < cs.len() {
            let end = if k > p && cs[k - 1] == '\r' { k - 1 } else { k };
            assert(cs@.subrange(p as int, end as int) == strip_cr(cs@.subrange(p as int, k as int))) by {
                if k > p && cs@[k - 1] == '\r' {
                    assert(cs@.subrange(p as int, k as int).drop_last() =~= cs@.subrange(p as int, end as int));
                }
            }
            v.push((p, end));
            assert(bounds_text(cs@, v@) =~= bounds_text(cs@, old_v).push(cs@.subrange(p as int, end as int)));
            assert(rest == seq![cs@.subrange(p as int, end as int)] + lines_from(cs@, k + 1));
            assert(bounds_text(cs@, old_v) + rest =~= bounds_text(cs@, v@) + lines_from(cs@, k + 1));
            p = k + 1;
        } else {
            v.push((p, cs.len()));
            assert(bounds_text(cs@, v@) =~= bounds_text(cs@, old_v).push(cs@.subrange(p as int, cs@.len() as int)));
            assert(lines_from(cs@, cs@.len() as int) =~= Seq::<Seq<char>>::empty());
            assert(bounds_text(cs@, old_v) + rest =~= bounds_text(cs@, v@) + lines_from(cs@, cs@.len() as int));
            p = cs.len();
        }
    }
    assert(lines_from(cs@, p as int) =~= Seq::<Seq<char>>::empty());
    assert(bounds_text(cs@, v@) + Seq::<Seq<char>>::empty() =~= bounds_text(cs@, v@));
    v
}

/// Bounds of `cs[a..b]` without its leading and trailing whitespace.
pub fn trim_bounds(cs: &Vec<char>, a: usize, b: usize) -> (r: (usize, usize))
    requires
        a <= b <= cs@.len(),
    ensures
        a <= r.0 <= r.1 <= b,
        cs@.subrange(r.0 as int, r.1 as int) == trim(cs@.subrange(a as int, b as int)),
        trim_start(cs@.subrange(a as int, b as int)) == cs@.subrange(r.0 as int, b as int),
{
    let mut lo = a;
    while lo < b && char_is_whitespace(cs[lo])
        invariant
            a <= lo <= b <= cs@.len(),
            trim_start(cs@.subrange(a as int, b as int)) == trim_start(cs@.subrange(lo as int, b as int)),
        decreases b - lo,
    {
        assert(cs@.subrange(lo as int, b as int).drop_first() =~= cs@.subrange(lo + 1, b as int));
        lo += 1;
    }
    let mut hi = b;
    while hi > lo && char_is_whitespace(cs[hi - 1])
        invariant
            a <= lo <= hi <= b <= cs@.len(),
            trim_end(cs@.subrange(lo as int, b as int)) == trim_end(cs@.subrange(lo as int, hi as int)),
        decreases hi - lo,
    {
        assert(cs@.subrange(lo as int, hi as int).drop_last() =~= cs@.subrange(lo as int, hi - 1));
        hi -= 1;
    }
    (lo, hi)
}

/// Number of bytes in the UTF-8 encoding of `cs[a..b]`.
pub fn utf8_count(cs: &Vec<char>, a: usize, b: usize) -> (n: usize)
    requires
        a <= b <= cs@.len(),
        utf8_offset(cs@, cs@.len() as int) <= usize::MAX,
    ensures
        n == vstd::utf8::encode_utf8(cs@.subrange(a as int, b as int)).len(),
        n == utf8_offset(cs@, b as int) - utf8_offset(cs@, a as int),
{
    let mut n: usize = 0;
    let mut k = a;
    proof {
        lemma_encode_slice(cs@, a as int, a as int);
    }
    while k < b
        invariant
            a <= k <= b <= cs@.len(),
            utf8_offset(cs@, cs@.len() as int) <= usize::MAX,
            n == utf8_offset(cs@, k as int) - utf8_offset(cs@, a as int),
        decreases b - k,
    {
        proof {
            lemma_utf8_offset_step(cs@, k as int);
            lemma_utf8_offset_mono(cs@, a as int, k as int);
            lemma_utf8_offset_mono(cs@, k + 1, cs@.len() as int);
        }
        n = n + utf8_len(cs[k]);
        k += 1;
    }
    proof {
        lemma_encode_slice(cs@, a as int, b as int);
    }
    n
}

} // verus!

verus! {

/// Each line takes at least one character.
pub proof fn lemma_lines_count(cs: Seq<char>, i: int)
    requires
        0 <= i <= cs.len(),
    ensures
        lines_from(cs, i).len() <= cs.len() - i,
    decreases cs.len() - i,
{
    if i < cs.len() {
        lemma_newline_from(cs, i);
        if let Some(k) = newline_from(cs, i) {
            lemma_lines_count(cs, k + 1);
        }
    }
}

} // verus!

verus! {

/// Appends the characters `a..b` of `cs` to `s`.
pub fn push_range(s: &mut String, cs: &Vec<char>, a: usize, b: usize)
    requires
        a <= b <= cs@.len(),
    ensures
        final(s)@ == old(s)@ + cs@.subrange(a as int, b as int),
{
    let mut k = a;
    while k < b
        invariant
            a <= k <= b <= cs@.len(),
            s@ == old(s)@ + cs@.subrange(a as int, k as int),
        decreases b - k,
    {
        push_char(s, cs[k]);
        assert(cs@.subrange(a as int, k + 1) =~= cs@.subrange(a as int, k as int).push(cs@[k as int]));
        k += 1;
    }
}

} // verus!

verus! {

/// The characters `a..b` of `cs`.
pub fn slice_chars(cs: &Vec<char>, a: usize, b: usize) -> (v: Vec<char>)
    requires
        a <= b <= cs@.len(),
    ensures
        v@ == cs@.subrange(a as int, b as int),
{
    let mut v: Vec<char> = Vec::new();
    let mut k = a;
    while k < b
        invariant
            a <= k <= b <= cs@.len(),
            v@ == cs@.subrange(a as int, k as int),
        decreases b - k,
    {
        v.push(cs[k]);
        assert(cs@.subrange(a as int, k + 1) =~= v@);
        k += 1;
    }
    v
}

/// Appends the characters of `v` to `s`.
pub(crate) fn push_chars(s: &mut String, v: &Vec<char>)
    ensures
        final(s)@ == old(s)@ + v@,
{
    push_range(s, v, 0, v.len());
    assert(v@.subrange(0, v@.len() as int) =~= v@);
}

} // verus!
