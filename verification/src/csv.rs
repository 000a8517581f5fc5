//! Column alignment of separator-delimited data files.
use vstd::prelude::*;
use vstd::string::*;
use vstd::utf8::encode_utf8;
use crate::loc::{find_char, lemma_find_char, find_char_in};
use crate::text::{
    trim, lines_of, bounds_text, line_bounds, trim_bounds, utf8_count, push_char, push_range, chars_of,
    utf8_offset, lemma_utf8_offset_full,
};

verus! {

/// `t` split at every `sep`, as `str::split` does (empty pieces included).
pub open spec fn split_on(t: Seq<char>, sep: char) -> Seq<Seq<char>>
    decreases t.len(),
{
    proof {
        lemma_find_char(t, sep, 0);
    }
    match find_char(t, sep, 0) {
        Some(p) => seq![t.subrange(0, p)] + split_on(t.subrange(p + 1, t.len() as int), sep),
        None => seq![t],
    }
}

/// A line that holds data: neither blank nor a comment.
pub open spec fn csv_data_line(l: Seq<char>) -> bool {
    let t = trim(l);
    t.len() > 0 && t[0] != '#'
}

/// The byte width of each trimmed field.
pub open spec fn field_widths(parts: Seq<Seq<char>>) -> Seq<int> {
    parts.map_values(|p: Seq<char>| encode_utf8(trim(p)).len() as int)
}

/// Column-wise maximum of two width lists (the longer list's tail kept).
pub open spec fn merge_widths(w: Seq<int>, x: Seq<int>) -> Seq<int> {
    Seq::new(
        if w.len() >= x.len() { w.len() } else { x.len() },
        |i: int|
            if i < w.len() && i < x.len() {
                if x[i] > w[i] { x[i] } else { w[i] }
            } else if i < w.len() {
                w[i]
            } else {
                x[i]
            },
    )
}

/// The widest field of each column over the data lines.
pub open spec fn column_widths(ls: Seq<Seq<char>>, sep: char) -> Seq<int>
    decreases ls.len(),
{
    if ls.len() == 0 {
        Seq::empty()
    } else {
        let w = column_widths(ls.drop_last(), sep);
        if csv_data_line(ls.last()) {
            merge_widths(w, field_widths(split_on(trim(ls.last()), sep)))
        } else {
            w
        }
    }
}

/// `p` padded with spaces to `w` characters.
pub open spec fn pad_to(p: Seq<char>, w: int) -> Seq<char> {
    if w > p.len() {
        p + Seq::new((w - p.len()) as nat, |i: int| ' ')
    } else {
        p
    }
}

/// The pieces joined with `sep` between them.
pub open spec fn join_with(xs: Seq<Seq<char>>, sep: Seq<char>) -> Seq<char>
    decreases xs.len(),
{
    if xs.len() == 0 {
        Seq::empty()
    } else if xs.len() == 1 {
        xs[0]
    } else {
        join_with(xs.drop_last(), sep) + sep + xs.last()
    }
}

/// A formatted line: blank lines become empty, comments are trimmed, data
/// fields are trimmed and padded to their column's width.
pub open spec fn csv_line(l: Seq<char>, widths: Seq<int>, sep: char) -> Seq<char> {
    let t = trim(l);
    if t.len() == 0 {
        Seq::empty()
    } else if t[0] == '#' {
        t
    } else {
        let parts = split_on(t, sep);
        join_with(
            Seq::new(
                parts.len(),
                |i: int| if i < widths.len() { pad_to(trim(parts[i]), widths[i]) } else { trim(parts[i]) },
            ),
            seq![sep],
        )
    }
}

pub open spec fn ends_with_newline(s: Seq<char>) -> bool {
    s.len() > 0 && s.last() == '\n'
}

/// The formatted file: the formatted lines joined with line feeds, with a
/// final line feed when the content ends with one (and the result is not
/// empty).
pub open spec fn formatted_csv(content: Seq<char>, sep: char) -> Seq<char> {
    let ls = lines_of(content);
    let w = column_widths(ls, sep);
    let out = join_with(ls.map_values(|l: Seq<char>| csv_line(l, w, sep)), seq!['\n']);
    if ends_with_newline(content) && out.len() > 0 {
        out.push('\n')
    } else {
        out
    }
}

} // verus!

verus! {

/// Bounds of the pieces of `cs[a..b]` split at `sep`.
pub(crate) fn split_bounds(cs: &Vec<char>, a: usize, b: usize, sep: char) -> (v: Vec<(usize, usize)>)
    requires
        a <= b <= cs@.len(),
    ensures
        bounds_text(cs@, v@) == split_on(cs@.subrange(a as int, b as int), sep),
        forall|j: int| #![trigger v@[j]] 0 <= j < v@.len() ==> a <= v@[j].0 <= v@[j].1 <= b,
{
    let mut v: Vec<(usize, usize)> = Vec::new();
    let mut p = a;
    loop
        invariant
            a <= p <= b <= cs@.len(),
            split_on(cs@.subrange(a as int, b as int), sep) == bounds_text(cs@, v@) + split_on(
                cs@.subrange(p as int, b as int),
                sep,
            ),
            forall|j: int| #![trigger v@[j]] 0 <= j < v@.len() ==> a <= v@[j].0 <= v@[j].1 <= b,
        decreases b - p,
    {
        let ghost t = cs@.subrange(p as int, b as int);
        let ghost old_v = v@;
        proof {
            lemma_find_char(t, sep, 0);
        }
        match find_char_in(cs, sep, p, b) {
            Some(q) => {
                assert(t.subrange(0, q - p) =~= cs@.subrange(p as int, q as int));
                assert(t.subrange(q - p + 1, t.len() as int) =~= cs@.subrange(q + 1, b as int));
                v.push((p, q));
                assert(bounds_text(cs@, v@) =~= bounds_text(cs@, old_v).push(cs@.subrange(p as int, q as int)));
                assert(bounds_text(cs@, old_v) + split_on(t, sep) =~= bounds_text(cs@, v@) + split_on(
                    cs@.subrange(q + 1, b as int),
                    sep,
                ));
                p = q + 1;
            },
            None => {
                v.push((p, b));
                assert(bounds_text(cs@, v@) =~= bounds_text(cs@, old_v).push(t));
                assert(bounds_text(cs@, old_v) + split_on(t, sep) =~= bounds_text(cs@, v@));
                return v;
            },
        }
    }
}

/// Merges the widths of the fields `cs[parts]` into `w`.
fn merge_field_widths(w: &mut Vec<usize>, cs: &Vec<char>, parts: &Vec<(usize, usize)>)
    requires
        forall|j: int| #![trigger parts@[j]] 0 <= j < parts@.len() ==> parts@[j].0 <= parts@[j].1 <= cs@.len(),
        utf8_offset(cs@, cs@.len() as int) <= usize::MAX,
    ensures
        final(w)@.map_values(|x: usize| x as int) == merge_widths(
            old(w)@.map_values(|x: usize| x as int),
            field_widths(bounds_text(cs@, parts@)),
        ),
{
    let ghost w0 = old(w)@.map_values(|x: usize| x as int);
    let ghost x = field_widths(bounds_text(cs@, parts@));
    let mut i: usize = 0;
    while i < parts.len()
        invariant
            i <= parts@.len(),
            x == field_widths(bounds_text(cs@, parts@)),
            w0 == old(w)@.map_values(|x: usize| x as int),
            forall|j: int| #![trigger parts@[j]] 0 <= j < parts@.len() ==> parts@[j].0 <= parts@[j].1 <= cs@.len(),
            utf8_offset(cs@, cs@.len() as int) <= usize::MAX,
            w@.len() == if old(w)@.len() >= i { old(w)@.len() } else { i as nat },
            forall|j: int|
                0 <= j < w@.len() ==> #[trigger] w@[j] as int == if j < w0.len() && j < i {
                    if x[j] > w0[j] { x[j] } else { w0[j] }
                } else if j < w0.len() {
                    w0[j]
                } else {
                    x[j]
                },
        decreases parts.len() - i,
    {
        let (pa, pb) = parts[i];
        let (ta, tb) = trim_bounds(cs, pa, pb);
        let width = utf8_count(cs, ta, tb);
        assert(x[i as int] == width);
        if i >= w.len() {
            w.push(width);
        } else if width > w[i] {
            w.set(i, width);
        }
        i += 1;
    }
    assert(w@.map_values(|x: usize| x as int) =~= merge_widths(w0, x));
}

/// Aligns the columns of separator-delimited data: every field is trimmed
/// and padded with spaces to the widest field of its column (widths counted
/// over the data lines, blank and `#` comment lines aside); comment lines
/// are trimmed and blank lines emptied.
pub fn format_csv(content: &str, separator: char) -> (r: String)
    requires
        content.spec_bytes().len() <= usize::MAX,
    ensures
        r@ == formatted_csv(content@, separator),
{
    let cs = chars_of(content);
    proof {
        lemma_utf8_offset_full(cs@);
    }
    let lines = line_bounds(&cs);
    let ghost ls = lines_of(cs@);
    // Column widths.
    let mut widths: Vec<usize> = Vec::new();
    let mut j: usize = 0;
    assert(widths@.map_values(|x: usize| x as int) =~= column_widths(ls.take(0), separator));
    while j < lines.len()
        invariant
            j <= lines@.len(),
            bounds_text(cs@, lines@) == ls,
            ls == lines_of(cs@),
            utf8_offset(cs@, cs@.len() as int) <= usize::MAX,
            forall|i: int| 0 <= i < lines@.len() ==> #[trigger] lines@[i].0 <= lines@[i].1 <= cs@.len(),
            widths@.map_values(|x: usize| x as int) == column_widths(ls.take(j as int), separator),
        decreases lines.len() - j,
    {
        let (a, b) = lines[j];
        assert(ls[j as int] == cs@.subrange(a as int, b as int));
        assert(ls.take(j + 1).drop_last() =~= ls.take(j as int));
        let (lo, hi) = trim_bounds(&cs, a, b);
        if lo < hi && cs[lo] != '#' {
            let parts = split_bounds(&cs, lo, hi, separator);
            merge_field_widths(&mut widths, &cs, &parts);
        }
        j += 1;
    }
    assert(ls.take(lines@.len() as int) =~= ls);
    let ghost w = column_widths(ls, separator);
    let ghost formatted = ls.map_values(|l: Seq<char>| csv_line(l, w, separator));
    // The lines.
    let mut out = String::new();
    let mut j: usize = 0;
    assert(out@ =~= join_with(formatted.take(0), seq!['\n']));
    while j < lines.len()
        invariant
            j <= lines@.len(),
            bounds_text(cs@, lines@) == ls,
            ls == lines_of(cs@),
            widths@.map_values(|x: usize| x as int) == w,
            formatted == ls.map_values(|l: Seq<char>| csv_line(l, w, separator)),
            forall|i: int| 0 <= i < lines@.len() ==> #[trigger] lines@[i].0 <= lines@[i].1 <= cs@.len(),
            out@ == join_with(formatted.take(j as int), seq!['\n']),
        decreases lines.len() - j,
    {
        let (a, b) = lines[j];
        let ghost before = out@;
        assert(ls[j as int] == cs@.subrange(a as int, b as int));
        if j > 0 {
            push_char(&mut out, '\n');
        }
        let ghost mid = out@;
        push_csv_line(&mut out, &cs, a, b, &widths, separator);
        assert(formatted.take(j + 1).drop_last() =~= formatted.take(j as int));
        assert(out@ == mid + formatted[j as int]);
        if j == 0 {
            assert(out@ =~= join_with(formatted.take(j + 1), seq!['\n']));
        } else {
            assert(out@ =~= join_with(formatted.take(j + 1), seq!['\n']));
        }
        j += 1;
    }
    assert(formatted.take(lines@.len() as int) =~= formatted);
    if cs.len() > 0 && cs[cs.len() - 1] == '\n' && out.as_str().unicode_len() > 0 {
        push_char(&mut out, '\n');
    }
    out
}

/// Appends the formatted line `cs[a..b]`.
fn push_csv_line(out: &mut String, cs: &Vec<char>, a: usize, b: usize, widths: &Vec<usize>, sep: char)
    requires
        a <= b <= cs@.len(),
    ensures
        final(out)@ == old(out)@ + csv_line(cs@.subrange(a as int, b as int), widths@.map_values(|x: usize| x as int), sep),
{
    let ghost w = widths@.map_values(|x: usize| x as int);
    let (lo, hi) = trim_bounds(cs, a, b);
    if lo == hi {
        assert(old(out)@ + Seq::<char>::empty() =~= old(out)@);
        return;
    }
    if cs[lo] == '#' {
        push_range(out, cs, lo, hi);
        return;
    }
    let parts = split_bounds(cs, lo, hi, sep);
    let ghost ps = bounds_text(cs@, parts@);
    let ghost fields = Seq::new(
        ps.len(),
        |i: int| if i < w.len() { pad_to(trim(ps[i]), w[i]) } else { trim(ps[i]) },
    );
    let ghost start = out@;
    let mut i: usize = 0;
    while i < parts.len()
        invariant
            i <= parts@.len(),
            ps == bounds_text(cs@, parts@),
            w == widths@.map_values(|x: usize| x as int),
            fields == Seq::new(
                ps.len(),
                |i: int| if i < w.len() { pad_to(trim(ps[i]), w[i]) } else { trim(ps[i]) },
            ),
            forall|j: int| #![trigger parts@[j]] 0 <= j < parts@.len() ==> lo <= parts@[j].0 <= parts@[j].1 <= hi,
            hi <= cs@.len(),
            out@ == start + join_with(fields.take(i as int), seq![sep]),
        decreases parts.len() - i,
    {
        let (pa, pb) = parts[i];
        if i > 0 {
            push_char(out, sep);
        }
        let ghost mid = out@;
        let (ta, tb) = trim_bounds(cs, pa, pb);
        push_range(out, cs, ta, tb);
        if i < widths.len() && widths[i] > tb - ta {
            let mut k = tb - ta;
            let ghost base = out@;
            while k < widths[i]
                invariant
                    tb - ta <= k <= widths@[i as int],
                    i < widths@.len(),
                    out@ == base + Seq::new((k - (tb - ta)) as nat, |x: int| ' '),
                decreases widths@[i as int] - k,
            {
                push_char(out, ' ');
                assert(out@ =~= base + Seq::new((k + 1 - (tb - ta)) as nat, |x: int| ' '));
                k += 1;
            }
        }
        assert(fields.take(i + 1).drop_last() =~= fields.take(i as int));
        assert(out@ =~= mid + fields[i as int]);
        assert(out@ =~= start + join_with(fields.take(i + 1), seq![sep]));
        i += 1;
    }
    assert(fields.take(parts@.len() as int) =~= fields);
}

} // verus!

verus! {

/// The widths of the data lines cover every field of every data line.
pub proof fn lemma_column_widths_cover(ls: Seq<Seq<char>>, sep: char, j: int)
    requires
        0 <= j < ls.len(),
        csv_data_line(ls[j]),
    ensures
        ({
            let w = column_widths(ls, sep);
            let x = field_widths(split_on(trim(ls[j]), sep));
            w.len() >= x.len() && forall|i: int| 0 <= i < x.len() ==> #[trigger] w[i] >= x[i]
        }),
    decreases ls.len(),
{
    if j < ls.len() - 1 {
        assert(ls.drop_last()[j] == ls[j]);
        lemma_column_widths_cover(ls.drop_last(), sep, j);
    }
}

/// A text takes at least as many bytes as it has characters.
pub proof fn lemma_bytes_at_least_chars(t: Seq<char>)
    ensures
        encode_utf8(t).len() >= t.len(),
{
    crate::text::lemma_utf8_offset_chars(t, 0, t.len() as int);
    lemma_utf8_offset_full(t);
    assert(t.take(0) =~= Seq::<char>::empty());
    assert(encode_utf8(Seq::<char>::empty()) =~= Seq::<u8>::empty());
}

/// Formatting aligns the columns: in every data line, the `i`-th field is
/// padded to exactly the width of column `i` (the widest field of that
/// column, in bytes, which is never less than its number of characters).
pub proof fn law_csv_fields_have_column_width(ls: Seq<Seq<char>>, sep: char, j: int, i: int)
    requires
        0 <= j < ls.len(),
        csv_data_line(ls[j]),
        0 <= i < split_on(trim(ls[j]), sep).len(),
    ensures
        i < column_widths(ls, sep).len(),
        pad_to(trim(split_on(trim(ls[j]), sep)[i]), column_widths(ls, sep)[i]).len() == column_widths(ls, sep)[i],
{
    let parts = split_on(trim(ls[j]), sep);
    lemma_column_widths_cover(ls, sep, j);
    lemma_bytes_at_least_chars(trim(parts[i]));
    assert(field_widths(parts)[i] == encode_utf8(trim(parts[i])).len());
}

} // verus!

verus! {

/// `s` holds no line feed.
pub open spec fn no_lf(s: Seq<char>) -> bool {
    forall|j: int| 0 <= j < s.len() ==> #[trigger] s[j] != '\n'
}

/// `s` holds no line feed and does not end with a carriage return: it reads
/// back as one line.
pub open spec fn one_line(s: Seq<char>) -> bool {
    no_lf(s) && !(s.len() > 0 && s.last() == '\r')
}

proof fn lemma_newline_shift(a: Seq<char>, b: Seq<char>, j: int)
    requires
        0 <= j,
    ensures
        crate::text::newline_from(a + b, a.len() + j) == match crate::text::newline_from(b, j) {
            Some(k) => Some(k + a.len()),
            None => None::<int>,
        },
    decreases b.len() - j,
{
    if j < b.len() {
        assert((a + b)[a.len() + j] == b[j]);
        lemma_newline_shift(a, b, j + 1);
    }
}

proof fn lemma_lines_shift(a: Seq<char>, b: Seq<char>, j: int)
    requires
        0 <= j,
    ensures
        crate::text::lines_from(a + b, a.len() + j) == crate::text::lines_from(b, j),
    decreases b.len() - j,
{
    if j < b.len() {
        lemma_newline_shift(a, b, j);
        crate::text::lemma_newline_from(b, j);
        match crate::text::newline_from(b, j) {
            Some(k) => {
                assert((a + b).subrange(a.len() + j, a.len() + k) =~= b.subrange(j, k));
                lemma_lines_shift(a, b, k + 1);
            },
            None => {
                assert((a + b).subrange(a.len() + j, (a + b).len() as int) =~= b.subrange(j, b.len() as int));
            },
        }
    }
}

proof fn lemma_join_front(xs: Seq<Seq<char>>, sep: Seq<char>)
    requires
        xs.len() >= 2,
    ensures
        join_with(xs, sep) == xs[0] + sep + join_with(xs.drop_first(), sep),
    decreases xs.len(),
{
    if xs.len() > 2 {
        lemma_join_front(xs.drop_last(), sep);
        assert(xs.drop_last().drop_first() =~= xs.drop_first().drop_last());
        assert(xs.drop_first().last() == xs.last());
        assert(xs.drop_last()[0] == xs[0]);
        let a = join_with(xs.drop_last().drop_first(), sep);
        assert(join_with(xs.drop_first(), sep) == join_with(xs.drop_first().drop_last(), sep) + sep + xs.drop_first().last());
        assert(join_with(xs.drop_first(), sep) == a + sep + xs.last());
        assert(join_with(xs, sep) == join_with(xs.drop_last(), sep) + sep + xs.last());
        assert((xs[0] + sep + a) + sep + xs.last() =~= xs[0] + sep + (a + sep + xs.last()));
    } else {
        assert(xs.drop_last().len() == 1);
        assert(xs.drop_first().len() == 1);
        assert(xs.drop_first()[0] == xs.last());
        assert(xs.drop_last()[0] == xs[0]);
        assert(join_with(xs.drop_last(), sep) == xs[0]);
        assert(join_with(xs.drop_first(), sep) == xs.last());
        assert(join_with(xs, sep) == join_with(xs.drop_last(), sep) + sep + xs.last());
    }
}

/// Pieces that each read back as one line, joined with line feeds (and
/// one more at the end when `tail`), read back as those pieces; without
/// the final line feed the last piece must not be empty.
proof fn lemma_lines_of_join(xs: Seq<Seq<char>>, tail: bool)
    requires
        xs.len() > 0,
        forall|i: int| 0 <= i < xs.len() ==> one_line(#[trigger] xs[i]),
        tail || xs.last().len() > 0,
    ensures
        crate::text::lines_of(join_with(xs, seq!['\n']) + if tail { seq!['\n'] } else { Seq::empty() }) == xs,
    decreases xs.len(),
{
    let nl = seq!['\n'];
    let end: Seq<char> = if tail { nl } else { Seq::empty() };
    let x = xs[0];
    assert(one_line(x));
    if xs.len() == 1 {
        assert(join_with(xs, nl) == x);
        let cs = x + end;
        crate::text::lemma_newline_from(cs, 0);
        if tail {
            assert(cs[x.len() as int] == '\n');
            assert(forall|j: int| 0 <= j < x.len() ==> cs[j] == x[j]);
            assert(crate::text::newline_from(cs, 0) == Some(x.len() as int)) by {
                if crate::text::newline_from(cs, 0) != Some(x.len() as int) {
                    match crate::text::newline_from(cs, 0) {
                        Some(k) => {
                            assert(k < x.len() ==> cs[k] == x[k]);
                        },
                        None => {},
                    }
                }
            }
            assert(cs.subrange(0, x.len() as int) =~= x);
            assert(crate::text::lines_from(cs, (x.len() + 1) as int) == Seq::<Seq<char>>::empty());
            assert(seq![crate::text::strip_cr(x)] + Seq::<Seq<char>>::empty() =~= xs);
        } else {
            assert(cs =~= x);
            assert(crate::text::newline_from(cs, 0) is None) by {
                match crate::text::newline_from(cs, 0) {
                    Some(k) => {
                        assert(cs[k] == x[k]);
                    },
                    None => {},
                }
            }
            assert(cs.subrange(0, cs.len() as int) =~= x);
            assert(seq![x] =~= xs);
        }
    } else {
        let rest = xs.drop_first();
        lemma_join_front(xs, nl);
        assert forall|i: int| 0 <= i < rest.len() implies one_line(#[trigger] rest[i]) by {
            assert(rest[i] == xs[i + 1]);
        }
        assert(rest.last() == xs.last());
        lemma_lines_of_join(rest, tail);
        let a = x + nl;
        let b = join_with(rest, nl) + end;
        let cs = join_with(xs, nl) + end;
        assert(cs =~= a + b);
        crate::text::lemma_newline_from(cs, 0);
        assert(crate::text::newline_from(cs, 0) == Some(x.len() as int)) by {
            assert(cs[x.len() as int] == '\n');
            match crate::text::newline_from(cs, 0) {
                Some(k) => {
                    if k < x.len() {
                        assert(cs[k] == x[k]);
                    }
                },
                None => {},
            }
        }
        assert(cs.subrange(0, x.len() as int) =~= x);
        lemma_lines_shift(a, b, 0);
        assert(crate::text::lines_of(b) == rest);
        assert(seq![x] + rest =~= xs);
    }
}

proof fn lemma_lines_no_lf(cs: Seq<char>, i: int)
    requires
        0 <= i,
    ensures
        forall|k: int| 0 <= k < crate::text::lines_from(cs, i).len() ==> no_lf(#[trigger] crate::text::lines_from(cs, i)[k]),
    decreases cs.len() - i,
{
    if i < cs.len() {
        crate::text::lemma_newline_from(cs, i);
        let ls = crate::text::lines_from(cs, i);
        match crate::text::newline_from(cs, i) {
            Some(k) => {
                lemma_lines_no_lf(cs, k + 1);
                let l = crate::text::strip_cr(cs.subrange(i, k));
                assert(no_lf(l));
                assert forall|m: int| 0 <= m < ls.len() implies no_lf(#[trigger] ls[m]) by {
                    if m > 0 {
                        assert(ls[m] == crate::text::lines_from(cs, k + 1)[m - 1]);
                    }
                }
            },
            None => {
                assert(no_lf(cs.subrange(i, cs.len() as int)));
            },
        }
    }
}

proof fn lemma_trim_start_no_lf(t: Seq<char>)
    requires
        no_lf(t),
    ensures
        no_lf(crate::text::trim_start(t)),
    decreases t.len(),
{
    if t.len() > 0 && crate::text::unicode_whitespace(t[0]) {
        assert(no_lf(t.drop_first()));
        lemma_trim_start_no_lf(t.drop_first());
    }
}

proof fn lemma_trim_end_props(t: Seq<char>)
    ensures
        no_lf(t) ==> no_lf(crate::text::trim_end(t)),
        crate::text::trim_end(t).len() > 0 ==> !crate::text::unicode_whitespace(crate::text::trim_end(t).last()),
        (t.len() > 0 && !crate::text::unicode_whitespace(t[0])) ==> crate::text::trim_end(t).len() > 0
            && crate::text::trim_end(t)[0] == t[0],
        crate::text::trim_end(t).len() <= t.len(),
    decreases t.len(),
{
    if t.len() > 0 && crate::text::unicode_whitespace(t.last()) {
        if no_lf(t) {
            assert(no_lf(t.drop_last()));
        }
        lemma_trim_end_props(t.drop_last());
        if t.len() > 0 && !crate::text::unicode_whitespace(t[0]) {
            assert(t.len() > 1);
            assert(t.drop_last()[0] == t[0]);
        }
    }
}

proof fn lemma_trim_start_first(t: Seq<char>)
    ensures
        crate::text::trim_start(t).len() > 0 ==> !crate::text::unicode_whitespace(crate::text::trim_start(t)[0]),
    decreases t.len(),
{
    if t.len() > 0 && crate::text::unicode_whitespace(t[0]) {
        lemma_trim_start_first(t.drop_first());
    }
}

/// What trimming gives: no line feed where there was none, and a nonempty
/// result that starts and ends with non-whitespace, which trimming again
/// keeps.
pub(crate) proof fn lemma_trim(t: Seq<char>)
    ensures
        no_lf(t) ==> no_lf(trim(t)),
        trim(t).len() > 0 ==> !crate::text::unicode_whitespace(trim(t).last()),
        trim(t).len() > 0 ==> !crate::text::unicode_whitespace(trim(t)[0]),
        trim(t).len() > 0 ==> trim(trim(t)) == trim(t),
{
    let s = crate::text::trim_start(t);
    if no_lf(t) {
        lemma_trim_start_no_lf(t);
    }
    lemma_trim_end_props(s);
    lemma_trim_start_first(t);
    let r = trim(t);
    if r.len() > 0 {
        assert(s.len() > 0);
        assert(!crate::text::unicode_whitespace(s[0]));
        assert(r[0] == s[0]);
        assert(crate::text::trim_start(r) == r);
        assert(crate::text::trim_end(r) == r);
    }
}

proof fn lemma_split_no_lf(t: Seq<char>, sep: char)
    requires
        no_lf(t),
    ensures
        forall|i: int| 0 <= i < split_on(t, sep).len() ==> no_lf(#[trigger] split_on(t, sep)[i]),
        split_on(t, sep).len() >= 1,
        split_on(t, sep).len() == 1 ==> split_on(t, sep)[0] == t,
    decreases t.len(),
{
    lemma_find_char(t, sep, 0);
    match find_char(t, sep, 0) {
        Some(p) => {
            let rest = t.subrange(p + 1, t.len() as int);
            assert(no_lf(rest));
            assert(no_lf(t.subrange(0, p)));
            lemma_split_no_lf(rest, sep);
            let ps = split_on(t, sep);
            assert forall|i: int| 0 <= i < ps.len() implies no_lf(#[trigger] ps[i]) by {
                if i > 0 {
                    assert(ps[i] == split_on(rest, sep)[i - 1]);
                }
            }
        },
        None => {},
    }
}

proof fn lemma_join_one_line(xs: Seq<Seq<char>>, sep: char)
    requires
        sep != '\n',
        sep != '\r',
        xs.len() > 0,
        forall|i: int| 0 <= i < xs.len() ==> no_lf(#[trigger] xs[i]),
        !(xs.last().len() > 0 && xs.last().last() == '\r'),
    ensures
        one_line(join_with(xs, seq![sep])),
        xs.len() >= 2 || xs[0].len() > 0 ==> join_with(xs, seq![sep]).len() > 0,
    decreases xs.len(),
{
    if xs.len() >= 2 {
        let init = xs.drop_last();
        assert forall|i: int| 0 <= i < init.len() implies no_lf(#[trigger] init[i]) by {
            assert(init[i] == xs[i]);
        }
        lemma_join_no_lf(init, sep);
        let j = join_with(init, seq![sep]) + seq![sep] + xs.last();
        assert(join_with(xs, seq![sep]) == j);
        assert(no_lf(xs.last()));
        assert forall|k: int| 0 <= k < j.len() implies #[trigger] j[k] != '\n' by {
            let a = join_with(init, seq![sep]);
            if k < a.len() {
                assert(j[k] == a[k]);
            } else if k == a.len() {
                assert(j[k] == sep);
            } else {
                assert(j[k] == xs.last()[k - a.len() - 1]);
            }
        }
        if xs.last().len() == 0 {
            assert(j.last() == sep);
        } else {
            assert(j.last() == xs.last().last());
        }
    }
}

proof fn lemma_join_no_lf(xs: Seq<Seq<char>>, sep: char)
    requires
        sep != '\n',
        forall|i: int| 0 <= i < xs.len() ==> no_lf(#[trigger] xs[i]),
    ensures
        no_lf(join_with(xs, seq![sep])),
    decreases xs.len(),
{
    if xs.len() >= 2 {
        let init = xs.drop_last();
        assert forall|i: int| 0 <= i < init.len() implies no_lf(#[trigger] init[i]) by {
            assert(init[i] == xs[i]);
        }
        lemma_join_no_lf(init, sep);
        let a = join_with(init, seq![sep]);
        let j = a + seq![sep] + xs.last();
        assert(no_lf(xs.last()));
        assert forall|k: int| 0 <= k < j.len() implies #[trigger] j[k] != '\n' by {
            if k < a.len() {
                assert(j[k] == a[k]);
            } else if k == a.len() {
                assert(j[k] == sep);
            } else {
                assert(j[k] == xs.last()[k - a.len() - 1]);
            }
        }
    } else if xs.len() == 1 {
        assert(no_lf(xs[0]));
    }
}

proof fn lemma_pad(p: Seq<char>, w: int)
    requires
        no_lf(p),
        !(p.len() > 0 && crate::text::unicode_whitespace(p.last())),
    ensures
        no_lf(pad_to(p, w)),
        !(pad_to(p, w).len() > 0 && pad_to(p, w).last() == '\r'),
        pad_to(p, w).len() >= p.len(),
{
    if w > p.len() {
        let r = pad_to(p, w);
        assert forall|k: int| 0 <= k < r.len() implies #[trigger] r[k] != '\n' by {
            if k >= p.len() {
                assert(r[k] == ' ');
            }
        }
        assert(r.last() == ' ');
    }
}

/// A formatted line of a line without line feeds reads back as one line,
/// and it is empty only when the line is blank.
proof fn lemma_csv_line(l: Seq<char>, w: Seq<int>, sep: char)
    requires
        no_lf(l),
        sep != '\n',
        sep != '\r',
    ensures
        one_line(csv_line(l, w, sep)),
        csv_line(l, w, sep).len() == 0 <==> trim(l).len() == 0,
{
    let t = trim(l);
    lemma_trim(l);
    if t.len() > 0 {
        assert('\r' != ' ');
        assert(crate::text::unicode_whitespace('\r'));
        if t[0] != '#' {
            let parts = split_on(t, sep);
            lemma_split_no_lf(t, sep);
            let xs = Seq::new(parts.len(), |i: int| if i < w.len() { pad_to(trim(parts[i]), w[i]) } else { trim(parts[i]) });
            assert forall|i: int| 0 <= i < xs.len() implies no_lf(#[trigger] xs[i]) by {
                assert(no_lf(parts[i]));
                lemma_trim(parts[i]);
                if i < w.len() {
                    lemma_pad(trim(parts[i]), w[i]);
                }
            }
            let last = parts.len() - 1;
            lemma_trim(parts[last]);
            if last < w.len() {
                lemma_pad(trim(parts[last]), w[last]);
            }
            assert(xs.last() == xs[last]);
            if parts.len() == 1 {
                assert(parts[0] == t);
                assert(trim(parts[0]) == t);
                if 0 < w.len() {
                    lemma_pad(t, w[0]);
                }
            }
            lemma_join_one_line(xs, sep);
        }
    }
}

/// The lines of a formatted file: one formatted line for each line of the
/// content, in order, so blank lines stay (empty), comment lines are
/// trimmed, and data lines are their trimmed fields, padded to the
/// column widths, joined by the separator; and the file ends with a line
/// feed exactly when the content does.  This holds when some line is not
/// blank and the content either ends with a line feed or its last line is
/// not blank (else the formatter drops a trailing blank line).
pub proof fn law_csv_keeps_lines(content: Seq<char>, sep: char)
    requires
        sep != '\n',
        sep != '\r',
        exists|i: int| 0 <= i < lines_of(content).len() && trim(#[trigger] lines_of(content)[i]).len() > 0,
        ends_with_newline(content) || trim(lines_of(content).last()).len() > 0,
    ensures
        ({
            let ls = lines_of(content);
            let w = column_widths(ls, sep);
            let out = lines_of(formatted_csv(content, sep));
            &&& out == ls.map_values(|l: Seq<char>| csv_line(l, w, sep))
            &&& out.len() == ls.len()
            &&& forall|i: int| 0 <= i < ls.len() && trim(ls[i]).len() == 0 ==> #[trigger] out[i] == Seq::<char>::empty()
            &&& forall|i: int| 0 <= i < ls.len() && trim(ls[i]).len() > 0 && trim(ls[i])[0] == '#' ==> #[trigger] out[i] == trim(ls[i])
            &&& ends_with_newline(formatted_csv(content, sep)) == ends_with_newline(content)
        }),
{
    let ls = lines_of(content);
    let w = column_widths(ls, sep);
    let xs = ls.map_values(|l: Seq<char>| csv_line(l, w, sep));
    lemma_lines_no_lf(content, 0);
    assert forall|i: int| 0 <= i < xs.len() implies one_line(#[trigger] xs[i]) by {
        assert(no_lf(ls[i]));
        lemma_csv_line(ls[i], w, sep);
    }
    let i0 = choose|i: int| 0 <= i < ls.len() && trim(#[trigger] ls[i]).len() > 0;
    assert(no_lf(ls[i0]));
    lemma_csv_line(ls[i0], w, sep);
    assert(xs[i0].len() > 0);
    let last = ls.len() - 1;
    assert(no_lf(ls[last]));
    lemma_csv_line(ls[last], w, sep);
    assert(xs.last() == xs[last]);
    let j = join_with(xs, seq!['\n']);
    assert(j.len() > 0) by {
        if xs.len() == 1 {
            assert(j == xs[0]);
        } else {
            lemma_join_front(xs, seq!['\n']);
        }
    }
    let f = formatted_csv(content, sep);
    if ends_with_newline(content) {
        assert(f == j + seq!['\n']);
        lemma_lines_of_join(xs, true);
    } else {
        assert(f == j);
        lemma_lines_of_join(xs, false);
        assert(j + Seq::<char>::empty() =~= j);
        assert(xs.len() == 1 ==> j == xs[0]);
        if xs.len() >= 2 {
            assert(j == join_with(xs.drop_last(), seq!['\n']) + seq!['\n'] + xs.last());
            assert(j.last() == xs.last().last());
            assert(xs.last().last() != '\n');
        } else {
            assert(no_lf(xs[0]));
            assert(j.last() == xs[0][xs[0].len() - 1]);
        }
    }
}

} // verus!

verus! {

/// `n` spaces.
pub open spec fn spaces(n: nat) -> Seq<char> {
    Seq::new(n, |i: int| ' ')
}

/// `x` is empty or starts and ends with non-whitespace.
pub open spec fn clean(x: Seq<char>) -> bool {
    x.len() == 0 || (!crate::text::unicode_whitespace(x[0]) && !crate::text::unicode_whitespace(x.last()))
}

pub open spec fn no_char(s: Seq<char>, c: char) -> bool {
    forall|j: int| 0 <= j < s.len() ==> #[trigger] s[j] != c
}

proof fn lemma_trim_start_concat(a: Seq<char>, s: char, b: Seq<char>)
    requires
        !crate::text::unicode_whitespace(s),
    ensures
        crate::text::trim_start(a + seq![s] + b) == crate::text::trim_start(a) + seq![s] + b,
    decreases a.len(),
{
    if a.len() == 0 {
        assert(a + seq![s] + b =~= seq![s] + b);
        assert((seq![s] + b)[0] == s);
        assert(Seq::<char>::empty() + seq![s] + b =~= seq![s] + b);
    } else {
        assert((a + seq![s] + b)[0] == a[0]);
        if crate::text::unicode_whitespace(a[0]) {
            assert((a + seq![s] + b).drop_first() =~= a.drop_first() + seq![s] + b);
            lemma_trim_start_concat(a.drop_first(), s, b);
        }
    }
}

proof fn lemma_trim_end_concat(a: Seq<char>, s: char, b: Seq<char>)
    requires
        !crate::text::unicode_whitespace(s),
    ensures
        crate::text::trim_end(a + seq![s] + b) == a + seq![s] + crate::text::trim_end(b),
    decreases b.len(),
{
    if b.len() == 0 {
        assert(a + seq![s] + b =~= a + seq![s]);
        assert((a + seq![s]).last() == s);
        assert(a + seq![s] + Seq::<char>::empty() =~= a + seq![s]);
    } else {
        assert((a + seq![s] + b).last() == b.last());
        if crate::text::unicode_whitespace(b.last()) {
            assert((a + seq![s] + b).drop_last() =~= a + seq![s] + b.drop_last());
            lemma_trim_end_concat(a, s, b.drop_last());
        }
    }
}

proof fn lemma_trim_start_spaces(n: nat)
    ensures
        crate::text::trim_start(spaces(n)) == Seq::<char>::empty(),
    decreases n,
{
    if n > 0 {
        assert(crate::text::unicode_whitespace(' '));
        assert(spaces(n).drop_first() =~= spaces((n - 1) as nat));
        lemma_trim_start_spaces((n - 1) as nat);
    }
}

proof fn lemma_trim_end_spaces(x: Seq<char>, n: nat)
    requires
        clean(x),
    ensures
        crate::text::trim_end(x + spaces(n)) == x,
    decreases n,
{
    assert(crate::text::unicode_whitespace(' '));
    if n > 0 {
        assert((x + spaces(n)).last() == ' ');
        assert((x + spaces(n)).drop_last() =~= x + spaces((n - 1) as nat));
        lemma_trim_end_spaces(x, (n - 1) as nat);
    } else {
        assert(x + spaces(0) =~= x);
        if x.len() > 0 {
            assert(!crate::text::unicode_whitespace(x.last()));
        }
    }
}

/// A clean text followed by spaces: trimming, trimming its start and then
/// all, or trimming its end and then all, each give back the text.
proof fn lemma_padded_trims(x: Seq<char>, n: nat)
    requires
        clean(x),
    ensures
        trim(x + spaces(n)) == x,
        trim(crate::text::trim_start(x + spaces(n))) == x,
        trim(crate::text::trim_end(x + spaces(n))) == x,
        crate::text::trim_end(x + spaces(n)) == x,
        x.len() > 0 ==> crate::text::trim_start(x + spaces(n)) == x + spaces(n),
        x.len() == 0 ==> crate::text::trim_start(x + spaces(n)) == Seq::<char>::empty(),
{
    let q = x + spaces(n);
    lemma_trim_end_spaces(x, n);
    if x.len() > 0 {
        assert(q[0] == x[0]);
        assert(crate::text::trim_start(q) == q);
        assert(crate::text::trim_start(x) == x);
        assert(crate::text::trim_end(x) == x) by {
            assert(!crate::text::unicode_whitespace(x.last()));
        }
    } else {
        assert(q =~= spaces(n));
        lemma_trim_start_spaces(n);
    }
}

proof fn lemma_pad_is_spaces(p: Seq<char>, w: int)
    ensures
        exists|n: nat| pad_to(p, w) == p + spaces(n),
{
    if w > p.len() {
        assert(pad_to(p, w) == p + spaces((w - p.len()) as nat));
    } else {
        assert(pad_to(p, w) =~= p + spaces(0));
    }
}

proof fn lemma_clean_trim(t: Seq<char>)
    ensures
        clean(trim(t)),
{
    lemma_trim(t);
}

} // verus!

verus! {

proof fn lemma_trim_start_no_char(t: Seq<char>, c: char)
    requires
        no_char(t, c),
    ensures
        no_char(crate::text::trim_start(t), c),
    decreases t.len(),
{
    if t.len() > 0 && crate::text::unicode_whitespace(t[0]) {
        assert(no_char(t.drop_first(), c));
        lemma_trim_start_no_char(t.drop_first(), c);
    }
}

proof fn lemma_trim_end_no_char(t: Seq<char>, c: char)
    requires
        no_char(t, c),
    ensures
        no_char(crate::text::trim_end(t), c),
    decreases t.len(),
{
    if t.len() > 0 && crate::text::unicode_whitespace(t.last()) {
        assert(no_char(t.drop_last(), c));
        lemma_trim_end_no_char(t.drop_last(), c);
    }
}

proof fn lemma_split_pieces(t: Seq<char>, sep: char)
    ensures
        forall|i: int| 0 <= i < split_on(t, sep).len() ==> no_char(#[trigger] split_on(t, sep)[i], sep),
        split_on(t, sep).len() >= 1,
        split_on(t, sep).len() == 1 ==> split_on(t, sep)[0] == t,
        split_on(t, sep).len() >= 2 ==> match find_char(t, sep, 0) {
            Some(p) => split_on(t, sep)[0] == t.subrange(0, p),
            None => false,
        },
    decreases t.len(),
{
    lemma_find_char(t, sep, 0);
    match find_char(t, sep, 0) {
        Some(p) => {
            let rest = t.subrange(p + 1, t.len() as int);
            lemma_split_pieces(rest, sep);
            let ps = split_on(t, sep);
            assert(no_char(t.subrange(0, p), sep));
            assert forall|i: int| 0 <= i < ps.len() implies no_char(#[trigger] ps[i], sep) by {
                if i > 0 {
                    assert(ps[i] == split_on(rest, sep)[i - 1]);
                }
            }
        },
        None => {
            assert(no_char(t, sep));
        },
    }
}

proof fn lemma_split_join(q: Seq<Seq<char>>, sep: char)
    requires
        q.len() >= 1,
        forall|i: int| 0 <= i < q.len() ==> no_char(#[trigger] q[i], sep),
    ensures
        split_on(join_with(q, seq![sep]), sep) == q,
    decreases q.len(),
{
    let j = join_with(q, seq![sep]);
    lemma_find_char(j, sep, 0);
    if q.len() == 1 {
        assert(j == q[0]);
        assert(no_char(q[0], sep));
        assert(find_char(j, sep, 0) is None) by {
            match find_char(j, sep, 0) {
                Some(p) => {
                    assert(j[p] == sep);
                },
                None => {},
            }
        }
        assert(seq![j] =~= q);
    } else {
        let rest = q.drop_first();
        lemma_join_front(q, seq![sep]);
        assert forall|i: int| 0 <= i < rest.len() implies no_char(#[trigger] rest[i], sep) by {
            assert(rest[i] == q[i + 1]);
        }
        lemma_split_join(rest, sep);
        let q0 = q[0];
        assert(no_char(q0, sep));
        let r = join_with(rest, seq![sep]);
        assert(j == q0 + seq![sep] + r);
        assert(j[q0.len() as int] == sep);
        assert(find_char(j, sep, 0) == Some(q0.len() as int)) by {
            match find_char(j, sep, 0) {
                Some(p) => {
                    if p < q0.len() {
                        assert(j[p] == q0[p]);
                    }
                },
                None => {},
            }
        }
        assert(j.subrange(0, q0.len() as int) =~= q0);
        assert(j.subrange((q0.len() + 1) as int, j.len() as int) =~= r);
        assert(seq![q0] + rest =~= q);
    }
}

/// The pieces with the first one's start and the last one's end trimmed.
pub open spec fn ends_trimmed(q: Seq<Seq<char>>) -> Seq<Seq<char>> {
    if q.len() == 1 {
        seq![trim(q[0])]
    } else {
        q.update(0, crate::text::trim_start(q[0])).update(q.len() - 1, crate::text::trim_end(q.last()))
    }
}

proof fn lemma_trim_start_join(x: Seq<Seq<char>>, sep: char)
    requires
        x.len() >= 1,
        !crate::text::unicode_whitespace(sep),
    ensures
        crate::text::trim_start(join_with(x, seq![sep])) == join_with(x.update(0, crate::text::trim_start(x[0])), seq![sep]),
{
    let y = x.update(0, crate::text::trim_start(x[0]));
    if x.len() == 1 {
        assert(join_with(x, seq![sep]) == x[0]);
        assert(join_with(y, seq![sep]) == y[0]);
    } else {
        lemma_join_front(x, seq![sep]);
        lemma_join_front(y, seq![sep]);
        assert(y.drop_first() =~= x.drop_first());
        lemma_trim_start_concat(x[0], sep, join_with(x.drop_first(), seq![sep]));
        assert(x[0] + seq![sep] + join_with(x.drop_first(), seq![sep]) == (x[0] + seq![sep]) + join_with(x.drop_first(), seq![sep]));
    }
}

proof fn lemma_trim_join(q: Seq<Seq<char>>, sep: char)
    requires
        q.len() >= 1,
        !crate::text::unicode_whitespace(sep),
    ensures
        trim(join_with(q, seq![sep])) == join_with(ends_trimmed(q), seq![sep]),
{
    let q2 = ends_trimmed(q);
    if q.len() == 1 {
        assert(join_with(q, seq![sep]) == q[0]);
        assert(join_with(q2, seq![sep]) == q2[0]);
    } else {
        let x = q.drop_last();
        let a = join_with(x, seq![sep]);
        assert(join_with(q, seq![sep]) == a + seq![sep] + q.last());
        lemma_trim_start_concat(a, sep, q.last());
        lemma_trim_end_concat(crate::text::trim_start(a), sep, q.last());
        lemma_trim_start_join(x, sep);
        assert(q2.drop_last() =~= x.update(0, crate::text::trim_start(x[0])));
        assert(q2.last() == crate::text::trim_end(q.last()));
        assert(join_with(q2, seq![sep]) == join_with(q2.drop_last(), seq![sep]) + seq![sep] + q2.last());
    }
}

} // verus!

verus! {

pub open spec fn csv_pieces(t: Seq<char>, w: Seq<int>, sep: char) -> Seq<Seq<char>> {
    let parts = split_on(t, sep);
    Seq::new(parts.len(), |i: int| if i < w.len() { pad_to(trim(parts[i]), w[i]) } else { trim(parts[i]) })
}

proof fn lemma_piece(t: Seq<char>, w: Seq<int>, sep: char, i: int)
    requires
        !crate::text::unicode_whitespace(sep),
        0 <= i < split_on(t, sep).len(),
    ensures
        ({
            let x = trim(split_on(t, sep)[i]);
            let q = csv_pieces(t, w, sep)[i];
            &&& clean(x)
            &&& no_char(x, sep)
            &&& no_char(q, sep)
            &&& exists|n: nat| q == x + spaces(n)
        }),
{
    let p = split_on(t, sep)[i];
    let x = trim(p);
    lemma_split_pieces(t, sep);
    assert(no_char(p, sep));
    lemma_trim(p);
    lemma_trim_start_no_char(p, sep);
    lemma_trim_end_no_char(crate::text::trim_start(p), sep);
    let q = csv_pieces(t, w, sep)[i];
    if i < w.len() {
        lemma_pad_is_spaces(x, w[i]);
    } else {
        assert(q =~= x + spaces(0));
    }
    let n = choose|n: nat| q == x + spaces(n);
    assert(crate::text::unicode_whitespace(' '));
    assert forall|k: int| 0 <= k < q.len() implies #[trigger] q[k] != sep by {
        if k >= x.len() {
            assert(q[k] == ' ');
        } else {
            assert(q[k] == x[k]);
        }
    }
}

/// A formatted data line formats to itself, as a data line with the same
/// trimmed fields.
proof fn lemma_data_line_stable(l: Seq<char>, w: Seq<int>, sep: char)
    requires
        !crate::text::unicode_whitespace(sep),
        trim(l).len() > 0,
        trim(l)[0] != '#',
    ensures
        ({
            let t = trim(l);
            let j = csv_line(l, w, sep);
            &&& trim(j).len() > 0 && trim(j)[0] == t[0]
            &&& split_on(trim(j), sep).len() == split_on(t, sep).len()
            &&& forall|i: int| 0 <= i < split_on(t, sep).len() ==> trim(#[trigger] split_on(trim(j), sep)[i]) == trim(split_on(t, sep)[i])
            &&& field_widths(split_on(trim(j), sep)) == field_widths(split_on(t, sep))
            &&& csv_line(j, w, sep) == j
        }),
{
    let t = trim(l);
    let ps = split_on(t, sep);
    let q = csv_pieces(t, w, sep);
    let j = join_with(q, seq![sep]);
    assert(csv_line(l, w, sep) == j);
    lemma_split_pieces(t, sep);
    lemma_trim(l);
    assert(clean(t));
    let n = ps.len();
    assert forall|i: int| 0 <= i < n implies no_char(#[trigger] q[i], sep) by {
        lemma_piece(t, w, sep, i);
    }
    let q2 = ends_trimmed(q);
    assert forall|i: int| 0 <= i < q2.len() implies no_char(#[trigger] q2[i], sep) && trim(q2[i]) == trim(ps[i]) by {
        lemma_piece(t, w, sep, i);
        let x = trim(ps[i]);
        let k = choose|k: nat| q[i] == x + spaces(k);
        lemma_padded_trims(x, k);
        lemma_trim_start_no_char(q[i], sep);
        lemma_trim_end_no_char(q[i], sep);
        lemma_trim_end_no_char(crate::text::trim_start(q[i]), sep);
        if n == 1 {
            assert(q2[i] == trim(q[0]));
            lemma_padded_trims(x, 0);
            assert(x + spaces(0) =~= x);
        } else if i == 0 {
            assert(q2[i] == crate::text::trim_start(q[0]));
        } else if i == n - 1 {
            assert(q2[i] == crate::text::trim_end(q[i]));
            lemma_padded_trims(x, 0);
            assert(x + spaces(0) =~= x);
        } else {
            assert(q2[i] == q[i]);
        }
    }
    lemma_trim_join(q, sep);
    lemma_split_join(q2, sep);
    assert(trim(j) == join_with(q2, seq![sep]));
    assert(split_on(trim(j), sep) == q2);
    // the first character is kept
    lemma_find_char(t, sep, 0);
    let x0 = trim(ps[0]);
    lemma_piece(t, w, sep, 0);
    let k0 = choose|k: nat| q[0] == x0 + spaces(k);
    lemma_padded_trims(x0, k0);
    if n == 1 {
        assert(ps[0] == t);
        lemma_padded_trims(t, 0);
        assert(t + spaces(0) =~= t);
        assert(x0 == t);
        assert(q2[0] == t);
        assert(join_with(q2, seq![sep]) == t);
    } else {
        lemma_join_front(q2, seq![sep]);
        let p = find_char(t, sep, 0)->0;
        assert(ps[0] == t.subrange(0, p));
        let p0 = ps[0];
        if p > 0 {
            assert(p0[0] == t[0]);
            assert(!crate::text::unicode_whitespace(p0[0]));
            assert(crate::text::trim_start(p0) == p0);
            lemma_trim_end_props(p0);
            assert(x0.len() > 0 && x0[0] == t[0]);
            assert(q2[0] == q[0]);
            assert(q[0][0] == x0[0]);
            assert(join_with(q2, seq![sep])[0] == q2[0][0]);
        } else {
            assert(t[0] == sep);
            assert(p0 =~= Seq::<char>::empty());
            assert(x0.len() == 0);
            assert(q2[0] == Seq::<char>::empty());
            assert(join_with(q2, seq![sep])[0] == sep);
        }
    }
    assert(field_widths(q2) =~= field_widths(ps));
    // formatting again gives the same pieces
    let tj = trim(j);
    assert(tj.len() > 0 && tj[0] != '#');
    assert(csv_pieces(tj, w, sep) =~= q) by {
        assert forall|i: int| 0 <= i < n implies csv_pieces(tj, w, sep)[i] == q[i] by {
            assert(trim(split_on(tj, sep)[i]) == trim(ps[i]));
        }
    }
    assert(csv_line(j, w, sep) == join_with(csv_pieces(tj, w, sep), seq![sep]));
}

proof fn lemma_line_stable(l: Seq<char>, w: Seq<int>, sep: char)
    requires
        !crate::text::unicode_whitespace(sep),
    ensures
        csv_line(csv_line(l, w, sep), w, sep) == csv_line(l, w, sep),
        csv_data_line(csv_line(l, w, sep)) == csv_data_line(l),
        csv_data_line(l) ==> field_widths(split_on(trim(csv_line(l, w, sep)), sep)) == field_widths(split_on(trim(l), sep)),
{
    let t = trim(l);
    lemma_trim(l);
    if t.len() == 0 {
        assert(csv_line(l, w, sep) == Seq::<char>::empty());
        assert(trim(Seq::<char>::empty()) == Seq::<char>::empty());
    } else if t[0] == '#' {
        assert(csv_line(l, w, sep) == t);
    } else {
        lemma_data_line_stable(l, w, sep);
    }
}

proof fn lemma_widths_stable(ls: Seq<Seq<char>>, w: Seq<int>, sep: char)
    requires
        !crate::text::unicode_whitespace(sep),
    ensures
        column_widths(ls.map_values(|l: Seq<char>| csv_line(l, w, sep)), sep) == column_widths(ls, sep),
    decreases ls.len(),
{
    if ls.len() > 0 {
        let m = ls.map_values(|l: Seq<char>| csv_line(l, w, sep));
        assert(m.drop_last() =~= ls.drop_last().map_values(|l: Seq<char>| csv_line(l, w, sep)));
        lemma_widths_stable(ls.drop_last(), w, sep);
        assert(m.last() == csv_line(ls.last(), w, sep));
        lemma_line_stable(ls.last(), w, sep);
    }
}

/// Formatting a formatted file changes nothing, for a separator that is not
/// whitespace and a content whose lines all survive formatting (as in
/// `law_csv_keeps_lines`).
pub proof fn law_csv_format_is_idempotent(content: Seq<char>, sep: char)
    requires
        !crate::text::unicode_whitespace(sep),
        exists|i: int| 0 <= i < lines_of(content).len() && trim(#[trigger] lines_of(content)[i]).len() > 0,
        ends_with_newline(content) || trim(lines_of(content).last()).len() > 0,
    ensures
        formatted_csv(formatted_csv(content, sep), sep) == formatted_csv(content, sep),
{
    assert(crate::text::unicode_whitespace('\n') && crate::text::unicode_whitespace('\r'));
    law_csv_keeps_lines(content, sep);
    let ls = lines_of(content);
    let w = column_widths(ls, sep);
    let xs = ls.map_values(|l: Seq<char>| csv_line(l, w, sep));
    let f = formatted_csv(content, sep);
    assert(lines_of(f) == xs);
    lemma_widths_stable(ls, w, sep);
    assert(column_widths(xs, sep) == w);
    assert(xs.map_values(|l: Seq<char>| csv_line(l, w, sep)) =~= xs) by {
        assert forall|i: int| 0 <= i < xs.len() implies csv_line(xs[i], w, sep) == xs[i] by {
            lemma_line_stable(ls[i], w, sep);
        }
    }
}

} // verus!
