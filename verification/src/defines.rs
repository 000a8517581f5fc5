//! Numeric defines of `common/defines/*.lua`: `NAME = number` lines.
use vstd::prelude::*;
use vstd::string::*;
use crate::loc::{find_char, lemma_find_char, find_char_in};
use crate::numtext::{float_syntax, is_float_text};
use crate::text::{trim, lines_of, bounds_text, line_bounds, trim_bounds, push_range, chars_of};

verus! {

/// Index of the first `--` in `t` at or after `k`.
pub open spec fn find_comment(t: Seq<char>, k: int) -> Option<int>
    decreases t.len() - k,
{
    if 0 <= k && k + 1 < t.len() {
        if t[k] == '-' && t[k + 1] == '-' {
            Some(k)
        } else {
            find_comment(t, k + 1)
        }
    } else {
        None
    }
}

pub proof fn lemma_find_comment(t: Seq<char>, k: int)
    requires
        0 <= k,
    ensures
        find_comment(t, k) matches Some(c) ==> k <= c && c + 1 < t.len(),
    decreases t.len() - k,
{
    if k + 1 < t.len() && !(t[k] == '-' && t[k + 1] == '-') {
        lemma_find_comment(t, k + 1);
    }
}

/// `t` without trailing commas.
pub open spec fn trim_end_commas(t: Seq<char>) -> Seq<char>
    decreases t.len(),
{
    if t.len() > 0 && t.last() == ',' {
        trim_end_commas(t.drop_last())
    } else {
        t
    }
}

/// A define assignment: the trimmed name before the first `=` and the
/// number after it (before any `--` comment, trimmed, trailing commas
/// dropped) when `f64` parsing accepts it; none for a table (`= {`).
pub open spec fn define_assignment(line: Seq<char>) -> Option<(Seq<char>, Seq<char>)> {
    match find_char(line, '=', 0) {
        Some(eq) => {
            let key = trim(line.subrange(0, eq));
            let vp = line.subrange(eq + 1, line.len() as int);
            if trim(vp).len() > 0 && trim(vp)[0] == '{' {
                None
            } else {
                let before = match find_comment(vp, 0) {
                    Some(k) => vp.subrange(0, k),
                    None => vp,
                };
                let v = trim(trim_end_commas(trim(before)));
                if float_syntax(v) {
                    Some((key, v))
                } else {
                    None
                }
            }
        },
        None => None,
    }
}

/// Index of the first `--` in `cs[a..b]`, or `b`.
fn comment_start(cs: &Vec<char>, a: usize, b: usize) -> (r: usize)
    requires
        a <= b <= cs@.len(),
    ensures
        match find_comment(cs@.subrange(a as int, b as int), 0) {
            Some(c) => r == a + c,
            None => r == b,
        },
{
    let ghost t = cs@.subrange(a as int, b as int);
    let mut k = a;
    while k < b
        invariant
            a <= k <= b <= cs@.len(),
            t == cs@.subrange(a as int, b as int),
            find_comment(t, k - a) == find_comment(t, 0),
        decreases b - k,
    {
        if b - k > 1 && cs[k] == '-' && cs[k + 1] == '-' {
            return k;
        }
        k += 1;
    }
    b
}

/// Parses a define assignment such as `SOME_VALUE = 123.45, -- comment`:
/// returns the name and the text of the number (which `f64` parsing
/// accepts).
pub fn parse_define_assignment(line: &str) -> (r: Option<(String, String)>)
    ensures
        match define_assignment(line@) {
            Some((k, v)) => r matches Some((k2, v2)) && k2@ == k && v2@ == v,
            None => r is None,
        },
{
    let cs = chars_of(line);
    let n = cs.len();
    proof {
        lemma_find_char(cs@, '=', 0);
    }
    let eq = match find_char_in(&cs, '=', 0, n) {
        Some(e) => e,
        None => {
            assert(cs@.subrange(0, n as int) =~= cs@);
            return None;
        },
    };
    assert(cs@.subrange(0, n as int) =~= cs@);
    let (ka, kb) = trim_bounds(&cs, 0, eq);
    let ghost vp = cs@.subrange(eq + 1, n as int);
    let (ta, tb) = trim_bounds(&cs, eq + 1, n);
    if ta < tb && cs[ta] == '{' {
        return None;
    }
    // The value ends at the first `--`.
    let end = comment_start(&cs, eq + 1, n);
    proof {
        lemma_find_comment(vp, 0);
    }
    let ghost before = match find_comment(vp, 0) {
        Some(c) => vp.subrange(0, c),
        None => vp,
    };
    assert(before =~= cs@.subrange(eq + 1, end as int));
    let (ba, bb0) = trim_bounds(&cs, eq + 1, end);
    let mut bb = bb0;
    while bb > ba && cs[bb - 1] == ','
        invariant
            ba <= bb <= bb0 <= cs@.len(),
            trim_end_commas(cs@.subrange(ba as int, bb0 as int)) == trim_end_commas(cs@.subrange(ba as int, bb as int)),
        decreases bb - ba,
    {
        assert(cs@.subrange(ba as int, bb as int).drop_last() =~= cs@.subrange(ba as int, bb - 1));
        bb -= 1;
    }
    let (va, vb) = trim_bounds(&cs, ba, bb);
    if is_float_text(&cs, va, vb) {
        let mut key = String::new();
        push_range(&mut key, &cs, ka, kb);
        let mut value = String::new();
        push_range(&mut value, &cs, va, vb);
        Some((key, value))
    } else {
        None
    }
}

} // verus!

verus! {

/// A line that holds an assignment: neither blank nor a `--` comment.
pub open spec fn define_line(l: Seq<char>) -> Option<(Seq<char>, Seq<char>)> {
    let t = trim(l);
    if t.len() == 0 || (t.len() >= 2 && t[0] == '-' && t[1] == '-') {
        None
    } else {
        define_assignment(t)
    }
}

/// Index of the pair with key `k` in `m`, from `i` on.
pub open spec fn define_index(m: Seq<(Seq<char>, Seq<char>)>, k: Seq<char>, i: int) -> Option<int>
    decreases m.len() - i,
{
    if 0 <= i < m.len() {
        if m[i].0 == k {
            Some(i)
        } else {
            define_index(m, k, i + 1)
        }
    } else {
        None
    }
}

/// The defines of lines `0..j`, each replacing an earlier one with its name.
pub open spec fn defines_upto(ls: Seq<Seq<char>>, j: int) -> Seq<(Seq<char>, Seq<char>)>
    decreases j,
{
    if j <= 0 {
        Seq::empty()
    } else {
        let m = defines_upto(ls, j - 1);
        match define_line(ls[j - 1]) {
            Some(kv) => match define_index(m, kv.0, 0) {
                Some(i) => m.update(i, kv),
                None => m.push(kv),
            },
            None => m,
        }
    }
}

pub open spec fn pairs_view(v: Seq<(String, String)>) -> Seq<(Seq<char>, Seq<char>)> {
    v.map_values(|p: (String, String)| (p.0@, p.1@))
}

proof fn lemma_define_index(m: Seq<(Seq<char>, Seq<char>)>, k: Seq<char>, i: int)
    requires
        0 <= i <= m.len(),
    ensures
        define_index(m, k, i) matches Some(x) ==> i <= x < m.len() && m[x].0 == k,
    decreases m.len() - i,
{
    if i < m.len() && m[i].0 != k {
        lemma_define_index(m, k, i + 1);
    }
}

/// Reads the numeric defines of a Lua defines file: each line that is
/// neither blank nor a `--` comment and holds a numeric assignment; a later
/// define with the same name replaces the earlier one.  The numbers are
/// returned as their text.
pub fn parse_defines_lua(content: &str) -> (r: Vec<(String, String)>)
    ensures
        pairs_view(r@) == defines_upto(lines_of(content@), lines_of(content@).len() as int),
{
    let cs = chars_of(content);
    let lines = line_bounds(&cs);
    let ghost ls = lines_of(cs@);
    let mut defines: Vec<(String, String)> = Vec::new();
    let mut j: usize = 0;
    assert(pairs_view(defines@) =~= Seq::<(Seq<char>, Seq<char>)>::empty());
    while j < lines.len()
        invariant
            j <= lines@.len(),
            bounds_text(cs@, lines@) == ls,
            ls == lines_of(cs@),
            cs@ == content@,
            forall|i: int| 0 <= i < lines@.len() ==> #[trigger] lines@[i].0 <= lines@[i].1 <= cs@.len(),
            pairs_view(defines@) == defines_upto(ls, j as int),
        decreases lines.len() - j,
    {
        let (a, b) = lines[j];
        assert(ls[j as int] == cs@.subrange(a as int, b as int));
        let (lo, hi) = trim_bounds(&cs, a, b);
        if lo < hi && !(hi - lo >= 2 && cs[lo] == '-' && cs[lo + 1] == '-') {
            let mut line = String::new();
            push_range(&mut line, &cs, lo, hi);
            if let Some((key, value)) = parse_define_assignment(line.as_str()) {
                let ghost m = pairs_view(defines@);
                let ghost kv = (key@, value@);
                proof {
                    lemma_define_index(m, key@, 0);
                }
                let mut i: usize = 0;
                let mut found = false;
                while i < defines.len() && !found
                    invariant
                        i <= defines@.len(),
                        m == pairs_view(defines@),
                        !found ==> define_index(m, key@, 0) == define_index(m, key@, i as int),
                        found ==> define_index(m, key@, 0) == Some((i - 1) as int) && i >= 1,
                    decreases defines.len() - i + if found { 0int } else { 1int },
                {
                    if crate::text::str_is(defines[i].0.as_str(), key.as_str()) {
                        found = true;
                    }
                    i += 1;
                }
                if found {
                    defines.set(i - 1, (key, value));
                    assert(pairs_view(defines@) =~= m.update(i - 1, kv));
                } else {
                    defines.push((key, value));
                    assert(pairs_view(defines@) =~= m.push(kv));
                }
            }
        }
        j += 1;
    }
    defines
}

} // verus!
