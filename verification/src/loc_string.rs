//! Checks inside a localisation value: the bracketed scopes and commands
//! (`[Root.GetName]`, `[?var|%]`, `[idea_name|id]`, `[(A ? B : C)]`), the
//! formatting of nested keys (`$key|Y$`), and the colour codes (`§Y … §!`).
//!
//! The three patterns are read as leftmost, non-overlapping matches, as a
//! regular-expression search reads them: `[` then one or more characters
//! other than `]` then `]`; `$` then one or more characters other than `$`
//! then `$`; `§` then one ASCII letter, digit or `!`.
//!
//! Columns are UTF-16 code units from the start of the line.  A country tag
//! is three ASCII capital letters or digits, the game's tag format.
use vstd::prelude::*;
use crate::ast::{Range, DiagnosticSeverity};
use crate::loc::{LocEntry, LocDiagnostic, DiagModel, diags_model, diag_model, coded, find_char, find_char_in, new_diag};
use crate::numtext::lower_seq;
use crate::portraits::strings_view;
use crate::rules::{lower_chars, spells};
use crate::text::{chars_of, chars_equal, utf8_width, utf8_len, trim, trim_bounds, append_str, push_chars, push_char, literal};

verus! {

// ---------------------------------------------------------------------------
// Lengths and columns
// ---------------------------------------------------------------------------

/// The UTF-8 length of `s`, in bytes.
pub open spec fn blen(s: Seq<char>) -> int
    decreases s.len(),
{
    if s.len() == 0 {
        0
    } else {
        blen(s.drop_last()) + utf8_width(s.last())
    }
}

pub open spec fn u16_width(c: char) -> int {
    if (c as u32) >= 0x10000 {
        2
    } else {
        1
    }
}

/// The UTF-16 length of `s`, in code units.
pub open spec fn u16len(s: Seq<char>) -> int
    decreases s.len(),
{
    if s.len() == 0 {
        0
    } else {
        u16len(s.drop_last()) + u16_width(s.last())
    }
}

/// How many characters of `v`, from the `k`-th on, fit with the `acc`
/// bytes before them into `b` bytes.
pub open spec fn chars_within(v: Seq<char>, k: int, acc: int, b: int) -> int
    decreases v.len() - k,
{
    if 0 <= k < v.len() && acc + utf8_width(v[k]) <= b {
        chars_within(v, k + 1, acc + utf8_width(v[k]), b)
    } else {
        k
    }
}

/// The UTF-16 column of byte offset `b` of `v`: the UTF-16 length of the
/// characters that end at or before it.
pub open spec fn col16(v: Seq<char>, b: int) -> int {
    u16len(v.take(chars_within(v, 0, 0, b)))
}

proof fn lemma_chars_within(v: Seq<char>, k: int, acc: int, b: int)
    requires
        0 <= k <= v.len(),
    ensures
        k <= chars_within(v, k, acc, b) <= v.len(),
    decreases v.len() - k,
{
    if k < v.len() && acc + utf8_width(v[k]) <= b {
        lemma_chars_within(v, k + 1, acc + utf8_width(v[k]), b);
    }
}

proof fn lemma_widths(c: char)
    ensures
        1 <= utf8_width(c) <= 4,
        1 <= u16_width(c) <= utf8_width(c),
{
    crate::text::lemma_encode_single(c);
    vstd::utf8::char_is_scalar(c);
}

proof fn lemma_u16_le_blen(s: Seq<char>)
    ensures
        0 <= u16len(s) <= blen(s),
        s.len() <= blen(s),
    decreases s.len(),
{
    if s.len() > 0 {
        lemma_u16_le_blen(s.drop_last());
        lemma_widths(s.last());
    }
}

proof fn lemma_blen_prefix(s: Seq<char>, k: int)
    requires
        0 <= k <= s.len(),
    ensures
        0 <= blen(s.take(k)) <= blen(s),
        blen(s.take(k)) + blen(s.subrange(k, s.len() as int)) == blen(s),
    decreases s.len() - k,
{
    lemma_u16_le_blen(s.take(k));
    lemma_u16_le_blen(s.subrange(k, s.len() as int));
    if k < s.len() {
        lemma_blen_prefix(s, k + 1);
        assert(s.take(k + 1).drop_last() =~= s.take(k));
        lemma_widths(s[k]);
        lemma_blen_cons(s[k], s.subrange(k + 1, s.len() as int));
        assert(seq![s[k]] + s.subrange(k + 1, s.len() as int) =~= s.subrange(k, s.len() as int));
    } else {
        assert(s.take(k) =~= s);
        assert(s.subrange(k, s.len() as int) =~= Seq::<char>::empty());
    }
}

proof fn lemma_blen_cons(c: char, s: Seq<char>)
    ensures
        blen(seq![c] + s) == utf8_width(c) + blen(s),
    decreases s.len(),
{
    if s.len() == 0 {
        assert((seq![c] + s).drop_last() =~= Seq::<char>::empty());
        assert((seq![c] + s).last() == c);
        assert(blen(Seq::<char>::empty()) == 0);
        assert(blen(seq![c] + s) == blen((seq![c] + s).drop_last()) + utf8_width(c));
    } else {
        lemma_blen_cons(c, s.drop_last());
        assert((seq![c] + s).drop_last() =~= seq![c] + s.drop_last());
        assert((seq![c] + s).last() == s.last());
    }
}

proof fn lemma_blen_sub(s: Seq<char>, a: int, b: int)
    requires
        0 <= a <= b <= s.len(),
    ensures
        0 <= blen(s.subrange(a, b)) <= blen(s),
{
    lemma_blen_prefix(s.take(b), a);
    lemma_blen_prefix(s, b);
    assert(s.take(b).subrange(a, b) =~= s.subrange(a, b));
    lemma_blen_prefix(s.take(b), b);
    assert(s.take(b).take(b) =~= s.take(b));
}

/// The UTF-8 length of `cs[a..b]`.
fn byte_len(cs: &Vec<char>, a: usize, b: usize) -> (n: u64)
    requires
        a <= b <= cs@.len(),
        blen(cs@) <= u32::MAX,
    ensures
        n == blen(cs@.subrange(a as int, b as int)),
{
    let ghost t = cs@.subrange(a as int, b as int);
    proof {
        lemma_blen_sub(cs@, a as int, b as int);
    }
    let mut n: u64 = 0;
    let mut k = a;
    while k < b
        invariant
            a <= k <= b <= cs@.len(),
            t == cs@.subrange(a as int, b as int),
            blen(t) <= u32::MAX,
            n == blen(t.take(k - a)),
        decreases b - k,
    {
        proof {
            assert(t.take(k - a + 1).drop_last() =~= t.take(k - a));
            assert(t.take(k - a + 1).last() == cs@[k as int]);
            lemma_blen_prefix(t, k - a + 1);
        }
        n = n + utf8_len(cs[k]) as u64;
        k += 1;
    }
    assert(t.take(k - a) =~= t);
    n
}

fn u16_len_char(c: char) -> (n: u64)
    ensures
        n == u16_width(c),
{
    if (c as u32) >= 0x10000 {
        2
    } else {
        1
    }
}

/// The UTF-16 column of byte offset `b` of `cs`.
fn byte_to_utf16(cs: &Vec<char>, b: u64) -> (n: u64)
    requires
        blen(cs@) <= u32::MAX,
    ensures
        n == col16(cs@, b as int),
        n <= u32::MAX,
{
    let ghost v = cs@;
    let mut k: usize = 0;
    let mut acc: u64 = 0;
    let mut n: u64 = 0;
    proof {
        lemma_chars_within(v, 0, 0, b as int);
        lemma_u16_le_blen(v);
    }
    while k < cs.len() && acc + (utf8_len(cs[k]) as u64) <= b
        invariant
            k <= v.len(),
            v == cs@,
            blen(v) <= u32::MAX,
            acc == blen(v.take(k as int)),
            acc <= blen(v),
            n == u16len(v.take(k as int)),
            n <= acc,
            chars_within(v, 0, 0, b as int) == chars_within(v, k as int, acc as int, b as int),
        decreases cs.len() - k,
    {
        proof {
            assert(v.take(k + 1).drop_last() =~= v.take(k as int));
            lemma_blen_prefix(v, k + 1);
            lemma_widths(v[k as int]);
        }
        acc = acc + utf8_len(cs[k]) as u64;
        n = n + u16_len_char(cs[k]);
        k += 1;
    }
    proof {
        lemma_blen_prefix(v, k as int);
    }
    n
}

// ---------------------------------------------------------------------------
// Matches
// ---------------------------------------------------------------------------

/// The end of a `open`, non-`close` characters, `close` match at `i`.
pub open spec fn pair_end(v: Seq<char>, i: int, open: char, close: char) -> Option<int> {
    if 0 <= i < v.len() && v[i] == open {
        match find_char(v, close, i + 1) {
            Some(j) => if j > i + 1 {
                Some(j + 1)
            } else {
                None
            },
            None => None,
        }
    } else {
        None
    }
}

/// The leftmost non-overlapping `open … close` matches from `i`, as
/// (start, end) pairs.
pub open spec fn pair_matches(v: Seq<char>, i: int, open: char, close: char) -> Seq<(int, int)>
    decreases v.len() - i,
{
    if 0 <= i < v.len() {
        match pair_end(v, i, open, close) {
            Some(e) => if i < e <= v.len() {
                seq![(i, e)] + pair_matches(v, e, open, close)
            } else {
                Seq::empty()
            },
            None => pair_matches(v, i + 1, open, close),
        }
    } else {
        Seq::empty()
    }
}

proof fn lemma_find_char_bounds(t: Seq<char>, c: char, k: int)
    requires
        0 <= k,
    ensures
        find_char(t, c, k) matches Some(j) ==> k <= j < t.len() && t[j] == c,
        find_char(t, c, k) is None ==> forall|j: int| k <= j < t.len() ==> t[j] != c,
    decreases t.len() - k,
{
    if 0 <= k < t.len() && t[k] != c {
        lemma_find_char_bounds(t, c, k + 1);
    }
}

/// The leftmost non-overlapping matches in `cs`.
fn find_pairs(cs: &Vec<char>, open: char, close: char) -> (r: Vec<(usize, usize)>)
    ensures
        r@.len() == pair_matches(cs@, 0, open, close).len(),
        forall|k: int| 0 <= k < r@.len() ==> (r@[k].0 as int, r@[k].1 as int) == #[trigger] pair_matches(cs@, 0, open, close)[k],
        forall|k: int| 0 <= k < r@.len() ==> r@[k].0 + 2 <= #[trigger] r@[k].1 <= cs@.len(),
{
    let ghost v = cs@;
    let mut r: Vec<(usize, usize)> = Vec::new();
    let ghost acc: Seq<(int, int)> = Seq::empty();
    let mut i: usize = 0;
    assert(acc + pair_matches(v, 0, open, close) =~= pair_matches(v, 0, open, close));
    while i < cs.len()
        invariant
            i <= v.len(),
            v == cs@,
            acc.len() == r@.len(),
            forall|k: int| 0 <= k < r@.len() ==> (r@[k].0 as int, r@[k].1 as int) == #[trigger] acc[k],
            forall|k: int| 0 <= k < r@.len() ==> r@[k].0 + 2 <= #[trigger] r@[k].1 <= v.len(),
            acc + pair_matches(v, i as int, open, close) == pair_matches(v, 0, open, close),
        decreases cs.len() - i,
    {
        let mut next = i + 1;
        if cs[i] == open {
            proof {
                lemma_find_char_bounds(v.subrange(i + 1, v.len() as int), close, 0);
                lemma_find_char_sub(v, close, i + 1);
            }
            match find_char_in(cs, close, i + 1, cs.len()) {
                Some(j) => {
                    if j > i + 1 {
                        proof {
                            assert(pair_matches(v, i as int, open, close) == seq![(i as int, j + 1)] + pair_matches(v, j + 1, open, close));
                            acc = acc.push((i as int, (j + 1) as int));
                            assert(acc + pair_matches(v, j + 1, open, close) =~= (acc.drop_last() + seq![(i as int, j + 1)]) + pair_matches(v, j + 1, open, close));
                        }
                        r.push((i, j + 1));
                        next = j + 1;
                    }
                },
                None => {},
            }
        }
        i = next;
    }
    proof {
        assert(pair_matches(v, i as int, open, close) =~= Seq::<(int, int)>::empty());
        assert(acc + Seq::<(int, int)>::empty() =~= acc);
    }
    r
}

/// `find_char` from `k` in `v` is `find_char` from 0 in `v[k..]`, shifted.
proof fn lemma_find_char_sub(v: Seq<char>, c: char, k: int)
    requires
        0 <= k <= v.len(),
    ensures
        find_char(v, c, k) == match find_char(v.subrange(k, v.len() as int), c, 0) {
            Some(p) => Some(p + k),
            None => None,
        },
{
    lemma_find_char_sub_from(v, c, k, 0);
}

proof fn lemma_find_char_sub_from(v: Seq<char>, c: char, k: int, i: int)
    requires
        0 <= k <= v.len(),
        0 <= i,
    ensures
        find_char(v, c, k + i) == match find_char(v.subrange(k, v.len() as int), c, i) {
            Some(p) => Some(p + k),
            None => None,
        },
    decreases v.len() - (k + i),
{
    let t = v.subrange(k, v.len() as int);
    if k + i < v.len() {
        assert(t[i] == v[k + i]);
        if v[k + i] != c {
            lemma_find_char_sub_from(v, c, k, i + 1);
        }
    }
}

/// A `§` colour code at `i`: the code character.
pub open spec fn color_at(v: Seq<char>, i: int) -> Option<char> {
    if 0 <= i && i + 1 < v.len() && v[i] == '§' && color_char(v[i + 1]) {
        Some(v[i + 1])
    } else {
        None
    }
}

pub open spec fn color_char(c: char) -> bool {
    ('a' <= c && c <= 'z') || ('A' <= c && c <= 'Z') || ('0' <= c && c <= '9') || c == '!'
}

/// The colour codes from `i`, as (position, code) pairs.
pub open spec fn color_matches(v: Seq<char>, i: int) -> Seq<(int, char)>
    decreases v.len() - i,
{
    if 0 <= i < v.len() {
        match color_at(v, i) {
            Some(c) => seq![(i, c)] + color_matches(v, i + 2),
            None => color_matches(v, i + 1),
        }
    } else {
        Seq::empty()
    }
}

fn find_colors(cs: &Vec<char>) -> (r: Vec<(usize, char)>)
    ensures
        r@.len() == color_matches(cs@, 0).len(),
        forall|k: int| 0 <= k < r@.len() ==> (r@[k].0 as int, r@[k].1) == #[trigger] color_matches(cs@, 0)[k],
        forall|k: int| 0 <= k < r@.len() ==> #[trigger] r@[k].0 < cs@.len(),
{
    let ghost v = cs@;
    let mut r: Vec<(usize, char)> = Vec::new();
    let ghost acc: Seq<(int, char)> = Seq::empty();
    let mut i: usize = 0;
    assert(acc + color_matches(v, 0) =~= color_matches(v, 0));
    while i < cs.len()
        invariant
            i <= v.len() + 1,
            v == cs@,
            acc.len() == r@.len(),
            forall|k: int| 0 <= k < r@.len() ==> (r@[k].0 as int, r@[k].1) == #[trigger] acc[k],
            forall|k: int| 0 <= k < r@.len() ==> #[trigger] r@[k].0 < v.len(),
            acc + color_matches(v, i as int) == color_matches(v, 0),
        decreases cs.len() + 1 - i,
    {
        if i + 1 < cs.len() && cs[i] == '§' && (('a' <= cs[i + 1] && cs[i + 1] <= 'z') || ('A' <= cs[i + 1] && cs[i + 1] <= 'Z')
            || ('0' <= cs[i + 1] && cs[i + 1] <= '9') || cs[i + 1] == '!') {
            proof {
                acc = acc.push((i as int, v[i + 1]));
                assert(acc + color_matches(v, i + 2) =~= (acc.drop_last() + seq![(i as int, v[i + 1])]) + color_matches(v, i + 2));
            }
            r.push((i, cs[i + 1]));
            i = i + 2;
        } else {
            i = i + 1;
        }
    }
    proof {
        assert(color_matches(v, i as int) =~= Seq::<(int, char)>::empty());
        assert(acc + Seq::<(int, char)>::empty() =~= acc);
    }
    r
}

} // verus!

verus! {

// ---------------------------------------------------------------------------
// What a value's parts are
// ---------------------------------------------------------------------------

/// `s` in upper case, as std's `str::to_uppercase` computes it (Unicode).
pub uninterp spec fn unicode_upper(s: Seq<char>) -> Seq<char>;

/// std's `str::to_uppercase`: the text in Unicode upper case.  The contract
/// only names the result `unicode_upper(s)` (a fixed function of the text);
/// what the Unicode mapping gives is not stated.
#[verifier::external_body]
pub(crate) fn str_to_uppercase(s: &str) -> (r: String)
    ensures
        r@ == unicode_upper(s@),
{
    s.to_uppercase()
}

/// The localisation commands, compared without regard to ASCII case.
pub open spec fn is_loc_command_lower(l: Seq<char>) -> bool {
    ||| l == "getname"@ || l == "getnamedef"@ || l == "getnamedefcap"@ || l == "getadjective"@
    ||| l == "getadjectivecap"@ || l == "gettag"@ || l == "getrulingideology"@ || l == "getrulingideologynoun"@
    ||| l == "getpartyname"@ || l == "getpartysupport"@ || l == "getleadername"@ || l == "getleadernamedef"@
    ||| l == "getplayername"@ || l == "getcapitalname"@ || l == "getlastelection"@ || l == "getrulingparty"@
    ||| l == "getrulingpartylong"@ || l == "getcommunistparty"@ || l == "getdemocraticparty"@
    ||| l == "getfascistparty"@ || l == "getneutralparty"@ || l == "getcommunistleader"@
    ||| l == "getdemocraticleader"@ || l == "getfascistleader"@ || l == "getneutralleader"@
    ||| l == "getpowerbalancename"@ || l == "getpowerbalancemoddesc"@ || l == "getrightsidename"@
    ||| l == "getleftsidename"@ || l == "getactivesidename"@ || l == "gettrendingsidename"@
    ||| l == "getactiverangename"@ || l == "getactiverangemoddesc"@ || l == "getactiverangeruledesc"@
    ||| l == "getactiverangeactivationeffect"@ || l == "getactiverangedeactivationeffect"@
    ||| l == "getchangeratedesc"@ || l == "getboptrendtexticon"@ || l == "getshehe"@ || l == "getshehecap"@
    ||| l == "getherhim"@ || l == "getherhimcap"@ || l == "getherhis"@ || l == "getherhiscap"@
    ||| l == "gethershis"@ || l == "gethershiscap"@ || l == "getherselfhimself"@ || l == "getherselfhimselfcap"@
    ||| l == "getideology"@ || l == "getideologygroup"@ || l == "getrank"@ || l == "getcodename"@
    ||| l == "getcallsign"@ || l == "getsurname"@ || l == "getfullname"@ || l == "getwing"@
    ||| l == "getwingshort"@ || l == "getacetype"@ || l == "getmissionregion"@ || l == "gettokenkey"@
    ||| l == "gettokenlocalizedkey"@ || l == "getdatestring"@ || l == "getdatestringshortmonth"@
    ||| l == "getdatestringnohour"@ || l == "getdatestringnohourlong"@ || l == "getmanpower"@
    ||| l == "getfactionname"@ || l == "getagency"@ || l == "getnamewithflag"@ || l == "getflag"@
    ||| l == "getdate"@ || l == "gettime"@ || l == "getyear"@ || l == "getmonth"@ || l == "getday"@
    ||| l == "getid"@ || l == "getcapitalvictorypointname"@ || l == "getoldname"@ || l == "getoldnamedef"@
    ||| l == "getoldnamedefcap"@ || l == "getoldadjective"@ || l == "getoldadjectivecap"@
    ||| l == "getnonideologyname"@ || l == "getnonideologynamedef"@ || l == "getnonideologynamedefcap"@
    ||| l == "getnonideologyadjective"@ || l == "getnonideologyadjectivecap"@ || l == "getleader"@
    ||| l == "getdatetext"@
}

fn is_loc_command(l: &Vec<char>) -> (r: bool)
    ensures
        r == is_loc_command_lower(l@),
{
    spells(l, "getname") || spells(l, "getnamedef") || spells(l, "getnamedefcap") || spells(l, "getadjective")
    || spells(l, "getadjectivecap") || spells(l, "gettag") || spells(l, "getrulingideology") || spells(l, "getrulingideologynoun")
    || spells(l, "getpartyname") || spells(l, "getpartysupport") || spells(l, "getleadername") || spells(l, "getleadernamedef")
    || spells(l, "getplayername") || spells(l, "getcapitalname") || spells(l, "getlastelection") || spells(l, "getrulingparty")
    || spells(l, "getrulingpartylong") || spells(l, "getcommunistparty") || spells(l, "getdemocraticparty")
    || spells(l, "getfascistparty") || spells(l, "getneutralparty") || spells(l, "getcommunistleader")
    || spells(l, "getdemocraticleader") || spells(l, "getfascistleader") || spells(l, "getneutralleader")
    || spells(l, "getpowerbalancename") || spells(l, "getpowerbalancemoddesc") || spells(l, "getrightsidename")
    || spells(l, "getleftsidename") || spells(l, "getactivesidename") || spells(l, "gettrendingsidename")
    || spells(l, "getactiverangename") || spells(l, "getactiverangemoddesc") || spells(l, "getactiverangeruledesc")
    || spells(l, "getactiverangeactivationeffect") || spells(l, "getactiverangedeactivationeffect")
    || spells(l, "getchangeratedesc") || spells(l, "getboptrendtexticon") || spells(l, "getshehe") || spells(l, "getshehecap")
    || spells(l, "getherhim") || spells(l, "getherhimcap") || spells(l, "getherhis") || spells(l, "getherhiscap")
    || spells(l, "gethershis") || spells(l, "gethershiscap") || spells(l, "getherselfhimself") || spells(l, "getherselfhimselfcap")
    || spells(l, "getideology") || spells(l, "getideologygroup") || spells(l, "getrank") || spells(l, "getcodename")
    || spells(l, "getcallsign") || spells(l, "getsurname") || spells(l, "getfullname") || spells(l, "getwing")
    || spells(l, "getwingshort") || spells(l, "getacetype") || spells(l, "getmissionregion") || spells(l, "gettokenkey")
    || spells(l, "gettokenlocalizedkey") || spells(l, "getdatestring") || spells(l, "getdatestringshortmonth")
    || spells(l, "getdatestringnohour") || spells(l, "getdatestringnohourlong") || spells(l, "getmanpower")
    || spells(l, "getfactionname") || spells(l, "getagency") || spells(l, "getnamewithflag") || spells(l, "getflag")
    || spells(l, "getdate") || spells(l, "gettime") || spells(l, "getyear") || spells(l, "getmonth") || spells(l, "getday")
    || spells(l, "getid") || spells(l, "getcapitalvictorypointname") || spells(l, "getoldname") || spells(l, "getoldnamedef")
    || spells(l, "getoldnamedefcap") || spells(l, "getoldadjective") || spells(l, "getoldadjectivecap")
    || spells(l, "getnonideologyname") || spells(l, "getnonideologynamedef") || spells(l, "getnonideologynamedefcap")
    || spells(l, "getnonideologyadjective") || spells(l, "getnonideologyadjectivecap") || spells(l, "getleader")
    || spells(l, "getdatetext")
}

/// The scope keywords, compared with the part in upper case (so the
/// mixed-case ones never match).
pub open spec fn is_scope_word(u: Seq<char>) -> bool {
    ||| u == "ROOT"@ || u == "FROM"@ || u == "PREV"@ || u == "THIS"@ || u == "COUNTRY"@ || u == "STATE"@
    ||| u == "UNIT"@ || u == "CHARACTER"@ || u == "GLOBAL"@ || u == "Owner"@ || u == "Controller"@
    ||| u == "Capital"@ || u == "Leader"@ || u == "Ace"@ || u == "Building"@ || u == "IndustrialOrg"@
    ||| u == "Operation"@ || u == "Province"@ || u == "PurchaseContract"@ || u == "SpecialProject"@
    ||| u == "Terrain"@ || u == "UnitLeader"@
}

fn is_scope(u: &Vec<char>) -> (r: bool)
    ensures
        r == is_scope_word(u@),
{
    spells(u, "ROOT") || spells(u, "FROM") || spells(u, "PREV") || spells(u, "THIS") || spells(u, "COUNTRY") || spells(u, "STATE")
    || spells(u, "UNIT") || spells(u, "CHARACTER") || spells(u, "GLOBAL") || spells(u, "Owner") || spells(u, "Controller")
    || spells(u, "Capital") || spells(u, "Leader") || spells(u, "Ace") || spells(u, "Building") || spells(u, "IndustrialOrg")
    || spells(u, "Operation") || spells(u, "Province") || spells(u, "PurchaseContract") || spells(u, "SpecialProject")
    || spells(u, "Terrain") || spells(u, "UnitLeader")
}

/// The localisation formatters.
pub open spec fn is_formatter(f: Seq<char>) -> bool {
    ||| f == "character_name"@ || f == "country_culture"@ || f == "idea_name"@ || f == "advisor_desc"@
    ||| f == "tech_effect"@ || f == "idea_desc"@ || f == "building_state_modifier"@
}

fn formatter_known(f: &Vec<char>) -> (r: bool)
    ensures
        r == is_formatter(f@),
{
    spells(f, "character_name") || spells(f, "country_culture") || spells(f, "idea_name") || spells(f, "advisor_desc")
    || spells(f, "tech_effect") || spells(f, "idea_desc") || spells(f, "building_state_modifier")
}

pub open spec fn tag_char(c: char) -> bool {
    ('A' <= c && c <= 'Z') || ('0' <= c && c <= '9')
}

/// A country tag: three ASCII capital letters or digits.
pub open spec fn tag_shaped(u: Seq<char>) -> bool {
    u.len() == 3 && tag_char(u[0]) && tag_char(u[1]) && tag_char(u[2])
}

pub open spec fn all_ascii_digits(p: Seq<char>) -> bool {
    forall|i: int| 0 <= i < p.len() ==> '0' <= #[trigger] p[i] && p[i] <= '9'
}

/// The names a bracket part may be.
pub struct Known {
    pub event_targets: Seq<Seq<char>>,
    pub scripted_locs: Seq<Seq<char>>,
    pub color_codes: Seq<Seq<char>>,
    pub country_tags: Seq<Seq<char>>,
}

/// A part of `[A.B.C]` is a command, a scope keyword, an event target, a
/// scripted localisation, a number or a country tag.
pub open spec fn part_valid(p: Seq<char>, k: Known) -> bool {
    let u = unicode_upper(p);
    ||| is_loc_command_lower(lower_seq(p))
    ||| is_scope_word(u) || k.event_targets.contains(p) || k.scripted_locs.contains(p) || all_ascii_digits(p)
    ||| tag_shaped(u) && (k.country_tags.len() == 0 || k.country_tags.contains(u))
}

fn contains_seq(v: &Vec<String>, x: &Vec<char>) -> (r: bool)
    ensures
        r == strings_view(v@).contains(x@),
{
    let ghost sv = strings_view(v@);
    let mut k: usize = 0;
    while k < v.len()
        invariant
            k <= v@.len(),
            sv == strings_view(v@),
            forall|j: int| 0 <= j < k ==> sv[j] != x@,
        decreases v.len() - k,
    {
        let c = chars_of(v[k].as_str());
        if chars_equal(&c, x) {
            assert(sv[k as int] == x@);
            return true;
        }
        k += 1;
    }
    assert(!sv.contains(x@));
    false
}

fn string_of(v: &Vec<char>) -> (s: String)
    ensures
        s@ == v@,
{
    let mut s = String::new();
    push_chars(&mut s, v);
    s
}

fn digits_only(p: &Vec<char>) -> (r: bool)
    ensures
        r == all_ascii_digits(p@),
{
    let mut i: usize = 0;
    while i < p.len()
        invariant
            i <= p@.len(),
            forall|j: int| 0 <= j < i ==> '0' <= #[trigger] p@[j] && p@[j] <= '9',
        decreases p.len() - i,
    {
        if !('0' <= p[i] && p[i] <= '9') {
            return false;
        }
        i += 1;
    }
    true
}

fn part_ok(
    p: &Vec<char>,
    event_targets: &Vec<String>,
    scripted_locs: &Vec<String>,
    country_tags: &Vec<String>,
    Ghost(k): Ghost<Known>,
) -> (r: bool)
    requires
        k.event_targets == strings_view(event_targets@),
        k.scripted_locs == strings_view(scripted_locs@),
        k.country_tags == strings_view(country_tags@),
    ensures
        r == part_valid(p@, k),
{
    let up = chars_of(str_to_uppercase(string_of(p).as_str()).as_str());
    let cmd = is_loc_command(&lower_chars(p));
    let scope = is_scope(&up) || contains_seq(event_targets, p) || contains_seq(scripted_locs, p) || digits_only(p);
    let shaped = up.len() == 3 && ('A' <= up[0] && up[0] <= 'Z' || '0' <= up[0] && up[0] <= '9')
        && ('A' <= up[1] && up[1] <= 'Z' || '0' <= up[1] && up[1] <= '9')
        && ('A' <= up[2] && up[2] <= 'Z' || '0' <= up[2] && up[2] <= '9');
    let tag = shaped && (country_tags.len() == 0 || contains_seq(country_tags, &up));
    cmd || scope || tag
}

} // verus!

verus! {

// ---------------------------------------------------------------------------
// Findings
// ---------------------------------------------------------------------------

pub open spec fn at_cols(line: u32, a: int, b: int) -> Range {
    Range { start_line: line, start_col: a as u32, end_line: line, end_col: b as u32 }
}

/// Characters that a variable's formatting may not hold.
pub open spec fn bad_format_char(c: char) -> bool {
    !('0' <= c && c <= '9') && !(c == '*' || c == '^' || c == '=' || c == '%' || c == '+' || c == '-' || c == '.')
        && !(('a' <= c && c <= 'z') || ('A' <= c && c <= 'Z')) && c != '!'
}

/// Each bad character of the formatting `fmt` from index `k`, reported at
/// its first occurrence; `col` is the column of `fmt`'s start.
pub open spec fn format_findings(fmt: Seq<char>, k: int, col: int, line: u32) -> Seq<DiagModel>
    decreases fmt.len() - k,
{
    if 0 <= k < fmt.len() {
        let c = fmt[k];
        (if bad_format_char(c) {
            match find_char(fmt, c, 0) {
                Some(f) => {
                    let c0 = col + blen(fmt.take(f));
                    seq![coded(at_cols(line, c0, c0 + 1), "Invalid variable formatting code: '"@ + seq![c] + "'"@,
                        DiagnosticSeverity::Warning, "invalid_var_format"@)]
                },
                None => Seq::empty(),
            }
        } else {
            Seq::empty()
        }) + format_findings(fmt, k + 1, col, line)
    } else {
        Seq::empty()
    }
}

/// `name|formatting`: the formatting's bad characters; `col` is the column
/// just before `t`.
pub open spec fn pipe_findings(t: Seq<char>, col: int, line: u32) -> Seq<DiagModel> {
    match find_char(t, '|', 0) {
        Some(p) => format_findings(t.subrange(p + 1, t.len() as int), 0, col + blen(t.take(p)) + 1, line),
        None => Seq::empty(),
    }
}

/// `(OBJECT ? TRUE : FALSE)` is read as the part it selects: the object
/// when the true case is missing or starts with `.`, else the true case.
pub open spec fn unwrap_ternary(t: Seq<char>) -> Seq<char> {
    if t.len() > 0 && t[0] == '(' && t.last() == ')' {
        let u = t.subrange(1, t.len() - 1);
        match find_char(u, '?', 0) {
            Some(q) => {
                let obj = trim(u.take(q));
                let rem = trim(u.subrange(q + 1, u.len() as int));
                match find_char(rem, ':', 0) {
                    Some(c) => {
                        let tc = trim(rem.take(c));
                        if tc.len() > 0 && tc[0] == '.' {
                            obj
                        } else {
                            tc
                        }
                    },
                    None => obj,
                }
            },
            None => u,
        }
    } else {
        t
    }
}

pub open spec fn scope_message(p: Seq<char>) -> Seq<char> {
    "Unrecognized '"@ + p
        + "' scope or command in square brackets. If you intended literal text, note that HOI4 does not support backslash-escaping — use a different approach (e.g., concatenation or rewriting)."@
}

/// The parts of `t` split at `.`, each not valid reported; `cur` is the
/// byte offset in `v` that the current part is taken to start at.  Also
/// whether some part was valid.
pub open spec fn parts_findings(t: Seq<char>, cur: int, v: Seq<char>, base: int, line: u32, k: Known) -> (Seq<DiagModel>, bool)
    decreases t.len(),
{
    let (part, rest) = match find_char(t, '.', 0) {
        Some(d) => (t.take(d), Some(t.subrange(d + 1, t.len() as int))),
        None => (t, None),
    };
    let c0 = base + col16(v, cur);
    let here = if part_valid(part, k) {
        Seq::empty()
    } else {
        seq![coded(at_cols(line, c0, c0 + blen(part)), scope_message(part), DiagnosticSeverity::Information, "invalid_loc_scope"@)]
    };
    match rest {
        Some(r) => if r.len() < t.len() {
            let (ds, any) = parts_findings(r, cur + blen(part) + 1, v, base, line, k);
            (here + ds, any || part_valid(part, k))
        } else {
            (here, part_valid(part, k))
        },
        None => (here, part_valid(part, k)),
    }
}

pub open spec fn escaped_message() -> Seq<char> {
    "Backslash-escaped square bracket (\\) is not valid in HOI4. The game will treat \\ as an illegal break character and still attempt to parse [..]. Remove the backslash."@
}

pub open spec fn unrecognized_message() -> Seq<char> {
    "Entirely unrecognized bracket content. Backslash-escaping is not valid in HOI4; remove the brackets or rewrite the text."@
}

/// The findings of the bracket `v[s..e]`.
pub open spec fn bracket_findings(v: Seq<char>, s: int, e: int, base: int, line: u32, k: Known) -> Seq<DiagModel> {
    let bs = blen(v.take(s));
    let p0 = base + col16(v, bs);
    let esc = if s > 0 && v[s - 1] == '\\' {
        seq![coded(at_cols(line, p0, p0 + 1), escaped_message(), DiagnosticSeverity::Warning, "escaped_bracket"@)]
    } else {
        Seq::empty()
    };
    let t = unwrap_ternary(v.subrange(s + 1, e - 1));
    esc + if t.len() > 0 && t[0] == '?' {
        pipe_findings(t.drop_first(), p0 + 1, line)
    } else {
        match find_char(t, '|', 0) {
            Some(p) => if is_formatter(t.take(p)) {
                Seq::empty()
            } else {
                seq![coded(at_cols(line, p0 + 1, p0 + 1 + blen(t.take(p))), "Unknown localization formatter: '"@ + t.take(p) + "'"@,
                    DiagnosticSeverity::Warning, "unknown_loc_formatter"@)]
            },
            None => {
                let (ds, any) = parts_findings(t, bs + 1, v, base, line, k);
                ds + if any {
                    Seq::empty()
                } else {
                    seq![coded(at_cols(line, p0, p0 + 2 + blen(t)), unrecognized_message(), DiagnosticSeverity::Hint, "unescaped_bracket"@)]
                }
            },
        }
    }
}

pub open spec fn brackets_findings(v: Seq<char>, ms: Seq<(int, int)>, base: int, line: u32, k: Known) -> Seq<DiagModel>
    decreases ms.len(),
{
    if ms.len() == 0 {
        Seq::empty()
    } else {
        bracket_findings(v, ms[0].0, ms[0].1, base, line, k) + brackets_findings(v, ms.drop_first(), base, line, k)
    }
}

pub open spec fn nested_findings(v: Seq<char>, ms: Seq<(int, int)>, base: int, line: u32) -> Seq<DiagModel>
    decreases ms.len(),
{
    if ms.len() == 0 {
        Seq::empty()
    } else {
        let (s, e) = ms[0];
        pipe_findings(v.subrange(s + 1, e - 1), base + col16(v, blen(v.take(s))) + 1, line)
            + nested_findings(v, ms.drop_first(), base, line)
    }
}

pub open spec fn color_col(v: Seq<char>, pos: int, base: int) -> int {
    base + col16(v, blen(v.take(pos)))
}

/// Colour codes replace each other and `§!` resets; an unknown code, a
/// reset with nothing to reset, and a code still open at the end are
/// reported.
pub open spec fn color_findings(v: Seq<char>, ms: Seq<(int, char)>, open: Option<(char, int)>, base: int, line: u32, codes: Seq<Seq<char>>) -> Seq<DiagModel>
    decreases ms.len(),
{
    if ms.len() == 0 {
        match open {
            Some((c, pos)) => seq![coded(at_cols(line, color_col(v, pos, base), color_col(v, pos, base) + 2),
                "Unclosed color code '§"@ + seq![c] + "'. Expected a matching '§!' reset."@, DiagnosticSeverity::Information, "unclosed_color_code"@)],
            None => Seq::empty(),
        }
    } else {
        let (pos, c) = ms[0];
        let col = color_col(v, pos, base);
        if c == '!' {
            (if open is None {
                seq![coded(at_cols(line, col, col + 2), "Dangling color reset symbol '§!' without an opening color code."@,
                    DiagnosticSeverity::Information, "dangling_color_reset"@)]
            } else {
                Seq::empty()
            }) + color_findings(v, ms.drop_first(), None, base, line, codes)
        } else {
            (if codes.contains(seq![c]) {
                Seq::empty()
            } else {
                seq![coded(at_cols(line, col, col + 2), "Unknown color code '§"@ + seq![c]
                    + "'. This will cause a 'Could not find coloring for character' error in-game."@, DiagnosticSeverity::Warning, "unknown_color_code"@)]
            }) + color_findings(v, ms.drop_first(), Some((c, pos)), base, line, codes)
        }
    }
}

/// All the findings of a localisation value: its brackets, then the
/// formatting of its nested keys, then its colour codes.
pub open spec fn loc_string_findings(v: Seq<char>, line: u32, base: u32, k: Known) -> Seq<DiagModel> {
    brackets_findings(v, pair_matches(v, 0, '[', ']'), base as int, line, k)
        + nested_findings(v, pair_matches(v, 0, '$', '$'), base as int, line)
        + color_findings(v, color_matches(v, 0), None, base as int, line, k.color_codes)
}

} // verus!

verus! {

/// `find_char_in`, with the bounds of the result.
fn find_in(cs: &Vec<char>, c: char, a: usize, b: usize) -> (r: Option<usize>)
    requires
        a <= b <= cs@.len(),
    ensures
        match find_char(cs@.subrange(a as int, b as int), c, 0) {
            Some(p) => r == Some((a + p) as usize) && a <= a + p < b && cs@[a + p] == c,
            None => r is None,
        },
{
    proof {
        lemma_find_char_bounds(cs@.subrange(a as int, b as int), c, 0);
    }
    find_char_in(cs, c, a, b)
}

fn cols(line: u32, a: u64, b: u64) -> (r: Range)
    ensures
        r == at_cols(line, a as int, b as int),
{
    Range { start_line: line, start_col: a as u32, end_line: line, end_col: b as u32 }
}

/// Appends the findings of the formatting `cs[a..b]`.
fn check_format(cs: &Vec<char>, a: usize, b: usize, col: u64, line: u32, out: &mut Vec<LocDiagnostic>)
    requires
        a <= b <= cs@.len(),
        blen(cs@) <= u32::MAX,
        col <= 0x4_0000_0000u64,
    ensures
        diags_model(final(out)@) == diags_model(old(out)@) + format_findings(cs@.subrange(a as int, b as int), 0, col as int, line),
{
    let ghost fmt = cs@.subrange(a as int, b as int);
    let ghost target = diags_model(out@) + format_findings(fmt, 0, col as int, line);
    let mut k = a;
    while k < b
        invariant
            a <= k <= b <= cs@.len(),
            fmt == cs@.subrange(a as int, b as int),
            blen(cs@) <= u32::MAX,
            col <= 0x4_0000_0000u64,
            diags_model(out@) + format_findings(fmt, k - a, col as int, line) == target,
        decreases b - k,
    {
        let c = cs[k];
        let ghost before = diags_model(out@);
        let ghost here: Seq<DiagModel> = if bad_format_char(c) {
            match find_char(fmt, c, 0) {
                Some(f) => {
                    let c0 = col + blen(fmt.take(f));
                    seq![coded(at_cols(line, c0, c0 + 1), "Invalid variable formatting code: '"@ + seq![c] + "'"@,
                        DiagnosticSeverity::Warning, "invalid_var_format"@)]
                },
                None => Seq::empty(),
            }
        } else {
            Seq::empty()
        };
        assert(fmt[k - a] == c);
        assert(format_findings(fmt, k - a, col as int, line) == here + format_findings(fmt, k - a + 1, col as int, line));
        let bad = !('0' <= c && c <= '9') && !(c == '*' || c == '^' || c == '=' || c == '%' || c == '+' || c == '-' || c == '.')
            && !(('a' <= c && c <= 'z') || ('A' <= c && c <= 'Z')) && c != '!';
        if bad {
            match find_in(cs, c, a, b) {
                Some(fa) => {
                    proof {
                        lemma_blen_sub(cs@, a as int, fa as int);
                        assert(fmt.take(fa - a) =~= cs@.subrange(a as int, fa as int));
                    }
                    let c0 = col + byte_len(cs, a, fa);
                    let mut m = String::new();
                    append_str(&mut m, "Invalid variable formatting code: '");
                    push_char(&mut m, c);
                    append_str(&mut m, "'");
                    let d = new_diag(cols(line, c0, c0 + 1), m, DiagnosticSeverity::Warning, "invalid_var_format");
                    proof {
                        assert(find_char(fmt, c, 0) == Some(fa - a));
                        assert(m@ == "Invalid variable formatting code: '"@ + seq![c] + "'"@);
                        assert(here == seq![diag_model(d)]);
                    }
                    let ghost o = out@;
                    out.push(d);
                    assert(diags_model(out@) =~= diags_model(o).push(diag_model(d)));
                    assert(diags_model(out@) =~= before + here);
                },
                None => {
                    proof {
                        lemma_find_char_bounds(fmt, c, 0);
                        assert(fmt[k - a] == c);
                    }
                    assert(diags_model(out@) =~= before + here);
                },
            }
        } else {
            assert(diags_model(out@) =~= before + here);
        }
        assert(diags_model(out@) + format_findings(fmt, k - a + 1, col as int, line) =~= before + (here + format_findings(fmt, k - a + 1, col as int, line)));
        k += 1;
    }
    assert(format_findings(fmt, k - a, col as int, line) =~= Seq::<DiagModel>::empty());
    assert(diags_model(out@) + Seq::<DiagModel>::empty() =~= diags_model(out@));
}

/// Appends the findings of `name|formatting` in `cs[a..b]`.
fn check_pipe(cs: &Vec<char>, a: usize, b: usize, col: u64, line: u32, out: &mut Vec<LocDiagnostic>)
    requires
        a <= b <= cs@.len(),
        blen(cs@) <= u32::MAX,
        col <= 0x2_0000_0000u64,
    ensures
        diags_model(final(out)@) == diags_model(old(out)@) + pipe_findings(cs@.subrange(a as int, b as int), col as int, line),
{
    let ghost t = cs@.subrange(a as int, b as int);
    match find_in(cs, '|', a, b) {
        Some(pa) => {
            proof {
                lemma_blen_sub(cs@, a as int, pa as int);
                assert(t.take(pa - a) =~= cs@.subrange(a as int, pa as int));
                assert(t.subrange(pa - a + 1, t.len() as int) =~= cs@.subrange(pa + 1, b as int));
            }
            let n = byte_len(cs, a, pa);
            check_format(cs, pa + 1, b, col + n + 1, line, out);
        },
        None => {
            assert(diags_model(out@) =~= diags_model(out@) + Seq::<DiagModel>::empty());
        },
    }
}

/// The bounds of the part of `cs[a..b]` that a ternary selects.
fn unwrap_bounds(cs: &Vec<char>, a: usize, b: usize) -> (r: (usize, usize))
    requires
        a <= b <= cs@.len(),
    ensures
        r.0 <= r.1 <= cs@.len(),
        cs@.subrange(r.0 as int, r.1 as int) == unwrap_ternary(cs@.subrange(a as int, b as int)),
{
    let ghost t = cs@.subrange(a as int, b as int);
    if b > a && cs[a] == '(' && cs[b - 1] == ')' {
        assert(t[0] == '(' && t.last() == ')');
        if b - a < 2 {
            assert(false);
        }
        let ghost u = t.subrange(1, t.len() - 1);
        assert(u =~= cs@.subrange(a + 1, b - 1));
        match find_in(cs, '?', a + 1, b - 1) {
            Some(qa) => {
                let (o0, o1) = trim_bounds(cs, a + 1, qa);
                let (r0, r1) = trim_bounds(cs, qa + 1, b - 1);
                assert(u.take(qa - a - 1) =~= cs@.subrange(a + 1, qa as int));
                assert(u.subrange(qa - a - 1 + 1, u.len() as int) =~= cs@.subrange(qa + 1, b - 1));
                match find_in(cs, ':', r0, r1) {
                    Some(ca) => {
                        let (t0, t1) = trim_bounds(cs, r0, ca);
                        let ghost rem = cs@.subrange(r0 as int, r1 as int);
                        assert(rem.take(ca - r0) =~= cs@.subrange(r0 as int, ca as int));
                        if t1 > t0 && cs[t0] == '.' {
                            assert(cs@.subrange(t0 as int, t1 as int)[0] == '.');
                            (o0, o1)
                        } else {
                            (t0, t1)
                        }
                    },
                    None => (o0, o1),
                }
            },
            None => (a + 1, b - 1),
        }
    } else {
        (a, b)
    }
}

/// Appends the findings of the parts of `cs[a..b]`; whether some part was
/// valid.
#[verifier::spinoff_prover]
#[verifier::rlimit(60)]
fn check_parts(
    cs: &Vec<char>,
    a: usize,
    b: usize,
    cur: u64,
    base: u32,
    line: u32,
    event_targets: &Vec<String>,
    scripted_locs: &Vec<String>,
    country_tags: &Vec<String>,
    Ghost(k): Ghost<Known>,
    out: &mut Vec<LocDiagnostic>,
) -> (any: bool)
    requires
        a <= b <= cs@.len(),
        blen(cs@) <= u32::MAX,
        cur <= 0x3_0000_0000u64 - blen(cs@.subrange(a as int, b as int)) - (b - a),
        k.event_targets == strings_view(event_targets@),
        k.scripted_locs == strings_view(scripted_locs@),
        k.country_tags == strings_view(country_tags@),
    ensures
        diags_model(final(out)@) == diags_model(old(out)@) + parts_findings(cs@.subrange(a as int, b as int), cur as int, cs@, base as int, line, k).0,
        any == parts_findings(cs@.subrange(a as int, b as int), cur as int, cs@, base as int, line, k).1,
    decreases b - a,
{
    let ghost t = cs@.subrange(a as int, b as int);
    let ghost before = diags_model(out@);
    let d = match find_in(cs, '.', a, b) {
        Some(d) => d,
        None => b,
    };
    let part = crate::text::slice_chars(cs, a, d);
    proof {
        lemma_blen_sub(cs@, a as int, d as int);
        lemma_blen_sub(cs@, a as int, b as int);
        assert(t.take(d - a) =~= cs@.subrange(a as int, d as int));
        assert(t =~= cs@.subrange(a as int, d as int) + cs@.subrange(d as int, b as int));
        lemma_blen_prefix(t, d - a);
        assert(t.subrange(d - a, t.len() as int) =~= cs@.subrange(d as int, b as int));
    }
    let valid = part_ok(&part, event_targets, scripted_locs, country_tags, Ghost(k));
    let c0 = base as u64 + byte_to_utf16(cs, cur);
    let plen = byte_len(cs, a, d);
    if !valid {
        let mut m = String::new();
        append_str(&mut m, "Unrecognized '");
        push_chars(&mut m, &part);
        append_str(&mut m, "' scope or command in square brackets. If you intended literal text, note that HOI4 does not support backslash-escaping — use a different approach (e.g., concatenation or rewriting).");
        let x = new_diag(cols(line, c0, c0 + plen), m, DiagnosticSeverity::Information, "invalid_loc_scope");
        out.push(x);
    }
    let ghost mid = diags_model(out@);
    if d < b {
        proof {
            assert(t.subrange(d - a + 1, t.len() as int) =~= cs@.subrange(d + 1, b as int));
            lemma_blen_sub(cs@, d + 1, b as int);
            lemma_blen_prefix(cs@.subrange(d as int, b as int), 1);
            assert(cs@.subrange(d as int, b as int).subrange(1, b - d) =~= cs@.subrange(d + 1, b as int));
            lemma_u16_le_blen(cs@.subrange(d as int, b as int).take(1));
        }
        let more = check_parts(cs, d + 1, b, cur + plen + 1, base, line, event_targets, scripted_locs, country_tags, Ghost(k), out);
        assert(diags_model(out@) =~= before + parts_findings(t, cur as int, cs@, base as int, line, k).0);
        more || valid
    } else {
        assert(t.take(d - a) =~= t);
        assert(diags_model(out@) =~= before + parts_findings(t, cur as int, cs@, base as int, line, k).0);
        valid
    }
}

} // verus!

verus! {

/// Appends the findings of the bracket `cs[s..e]`.
#[verifier::spinoff_prover]
#[verifier::rlimit(60)]
fn check_bracket(
    cs: &Vec<char>,
    s: usize,
    e: usize,
    base: u32,
    line: u32,
    event_targets: &Vec<String>,
    scripted_locs: &Vec<String>,
    country_tags: &Vec<String>,
    Ghost(k): Ghost<Known>,
    out: &mut Vec<LocDiagnostic>,
)
    requires
        s + 2 <= e <= cs@.len(),
        blen(cs@) <= u32::MAX,
        k.event_targets == strings_view(event_targets@),
        k.scripted_locs == strings_view(scripted_locs@),
        k.country_tags == strings_view(country_tags@),
    ensures
        diags_model(final(out)@) == diags_model(old(out)@) + bracket_findings(cs@, s as int, e as int, base as int, line, k),
{
    let ghost v = cs@;
    let ghost before = diags_model(out@);
    proof {
        lemma_blen_sub(v, 0, s as int);
        assert(v.subrange(0, s as int) =~= v.take(s as int));
    }
    let bs = byte_len(cs, 0, s);
    let p0 = base as u64 + byte_to_utf16(cs, bs);
    if s > 0 && cs[s - 1] == '\\' {
        let d = new_diag(cols(line, p0, p0 + 1), literal("Backslash-escaped square bracket (\\) is not valid in HOI4. The game will treat \\ as an illegal break character and still attempt to parse [..]. Remove the backslash."), DiagnosticSeverity::Warning, "escaped_bracket");
        let ghost o = out@;
        out.push(d);
        assert(diags_model(out@) =~= diags_model(o).push(diag_model(d)));
    }
    let ghost after_esc = diags_model(out@);
    let (ta, tb) = unwrap_bounds(cs, s + 1, e - 1);
    let ghost t = v.subrange(ta as int, tb as int);
    proof {
        lemma_blen_sub(v, ta as int, tb as int);
    }
    if tb > ta && cs[ta] == '?' {
        assert(t.drop_first() =~= v.subrange(ta + 1, tb as int));
        check_pipe(cs, ta + 1, tb, p0 + 1, line, out);
    } else {
        match find_in(cs, '|', ta, tb) {
            Some(pa) => {
                let f = crate::text::slice_chars(cs, ta, pa);
                assert(t.take(pa - ta) =~= f@);
                if !formatter_known(&f) {
                    proof {
                        lemma_blen_sub(v, ta as int, pa as int);
                    }
                    let n = byte_len(cs, ta, pa);
                    let mut m = String::new();
                    append_str(&mut m, "Unknown localization formatter: '");
                    push_chars(&mut m, &f);
                    append_str(&mut m, "'");
                    let d = new_diag(cols(line, p0 + 1, p0 + 1 + n), m, DiagnosticSeverity::Warning, "unknown_loc_formatter");
                    let ghost o = out@;
                    out.push(d);
                    assert(diags_model(out@) =~= diags_model(o).push(diag_model(d)));
                }
            },
            None => {
                proof {
                    lemma_u16_le_blen(t);
                }
                let any = check_parts(cs, ta, tb, bs + 1, base, line, event_targets, scripted_locs, country_tags, Ghost(k), out);
                if !any {
                    let n = byte_len(cs, ta, tb);
                    let d = new_diag(cols(line, p0, p0 + 2 + n), literal("Entirely unrecognized bracket content. Backslash-escaping is not valid in HOI4; remove the brackets or rewrite the text."), DiagnosticSeverity::Hint, "unescaped_bracket");
                    let ghost o = out@;
                    out.push(d);
                    assert(diags_model(out@) =~= diags_model(o).push(diag_model(d)));
                }
            },
        }
    }
    assert(diags_model(out@) =~= before + bracket_findings(v, s as int, e as int, base as int, line, k));
}

/// The findings of a localisation entry's value: unknown scopes,
/// commands and formatters in brackets, bad variable formatting, and
/// unknown, stray or unclosed colour codes.  `event_targets`,
/// `scripted_locs`, `color_codes` and `country_tags` list what is defined;
/// with no country tags known, any tag-shaped part is taken for a tag.
pub fn validate_loc_string(
    entry: &LocEntry,
    event_targets: &Vec<String>,
    scripted_locs: &Vec<String>,
    color_codes: &Vec<String>,
    country_tags: &Vec<String>,
) -> (r: Vec<LocDiagnostic>)
    requires
        blen(entry.value@) <= u32::MAX,
    ensures
        diags_model(r@) == loc_string_findings(
            entry.value@,
            entry.range.start_line,
            entry.value_start_col,
            Known {
                event_targets: strings_view(event_targets@),
                scripted_locs: strings_view(scripted_locs@),
                color_codes: strings_view(color_codes@),
                country_tags: strings_view(country_tags@),
            },
        ),
{
    let cs = chars_of(entry.value.as_str());
    let ghost v = cs@;
    let ghost k = Known {
        event_targets: strings_view(event_targets@),
        scripted_locs: strings_view(scripted_locs@),
        color_codes: strings_view(color_codes@),
        country_tags: strings_view(country_tags@),
    };
    let line = entry.range.start_line;
    let base = entry.value_start_col;
    let mut out: Vec<LocDiagnostic> = Vec::new();
    // brackets
    let ms = find_pairs(&cs, '[', ']');
    let ghost mv = pair_matches(v, 0, '[', ']');
    let mut i: usize = 0;
    assert(mv.skip(0) =~= mv);
    assert(diags_model(out@) + brackets_findings(v, mv, base as int, line, k) =~= brackets_findings(v, mv, base as int, line, k));
    while i < ms.len()
        invariant
            i <= ms@.len(),
            ms@.len() == mv.len(),
            v == cs@,
            blen(v) <= u32::MAX,
            forall|j: int| 0 <= j < ms@.len() ==> (ms@[j].0 as int, ms@[j].1 as int) == #[trigger] mv[j],
            forall|j: int| 0 <= j < ms@.len() ==> ms@[j].0 + 2 <= #[trigger] ms@[j].1 <= v.len(),
            diags_model(out@) + brackets_findings(v, mv.skip(i as int), base as int, line, k) == brackets_findings(v, mv, base as int, line, k),
            k.event_targets == strings_view(event_targets@),
            k.scripted_locs == strings_view(scripted_locs@),
            k.country_tags == strings_view(country_tags@),
        decreases ms.len() - i,
    {
        let (s, e) = ms[i];
        let ghost before = diags_model(out@);
        assert(mv.skip(i as int)[0] == mv[i as int]);
        assert(mv.skip(i as int).drop_first() =~= mv.skip(i + 1));
        check_bracket(&cs, s, e, base, line, event_targets, scripted_locs, country_tags, Ghost(k), &mut out);
        assert(diags_model(out@) + brackets_findings(v, mv.skip(i + 1), base as int, line, k) =~= before + brackets_findings(v, mv.skip(i as int), base as int, line, k));
        i += 1;
    }
    assert(mv.skip(i as int) =~= Seq::<(int, int)>::empty());
    let ghost e1 = diags_model(out@);
    assert(e1 == brackets_findings(v, mv, base as int, line, k));
    // nested keys
    let ns = find_pairs(&cs, '$', '$');
    let ghost nv = pair_matches(v, 0, '$', '$');
    let mut i: usize = 0;
    assert(nv.skip(0) =~= nv);
    assert(diags_model(out@) + nested_findings(v, nv, base as int, line) =~= e1 + nested_findings(v, nv, base as int, line));
    while i < ns.len()
        invariant
            i <= ns@.len(),
            ns@.len() == nv.len(),
            v == cs@,
            blen(v) <= u32::MAX,
            forall|j: int| 0 <= j < ns@.len() ==> (ns@[j].0 as int, ns@[j].1 as int) == #[trigger] nv[j],
            forall|j: int| 0 <= j < ns@.len() ==> ns@[j].0 + 2 <= #[trigger] ns@[j].1 <= v.len(),
            diags_model(out@) + nested_findings(v, nv.skip(i as int), base as int, line) == e1 + nested_findings(v, nv, base as int, line),
        decreases ns.len() - i,
    {
        let (s, e) = ns[i];
        let ghost before = diags_model(out@);
        assert(nv.skip(i as int)[0] == nv[i as int]);
        assert(nv.skip(i as int).drop_first() =~= nv.skip(i + 1));
        proof {
            lemma_blen_sub(v, 0, s as int);
            assert(v.subrange(0, s as int) =~= v.take(s as int));
        }
        let bs = byte_len(&cs, 0, s);
        let col = base as u64 + byte_to_utf16(&cs, bs) + 1;
        check_pipe(&cs, s + 1, e - 1, col, line, &mut out);
        assert(diags_model(out@) + nested_findings(v, nv.skip(i + 1), base as int, line) =~= before + nested_findings(v, nv.skip(i as int), base as int, line));
        i += 1;
    }
    assert(nv.skip(i as int) =~= Seq::<(int, int)>::empty());
    let ghost e2 = diags_model(out@);
    // colour codes
    let cm = find_colors(&cs);
    let ghost cv = color_matches(v, 0);
    let mut open: Option<(char, usize)> = None;
    let mut i: usize = 0;
    assert(cv.skip(0) =~= cv);
    assert(diags_model(out@) + color_findings(v, cv, None, base as int, line, k.color_codes) =~= e2 + color_findings(v, cv, None, base as int, line, k.color_codes));
    while i < cm.len()
        invariant
            i <= cm@.len(),
            cm@.len() == cv.len(),
            v == cs@,
            blen(v) <= u32::MAX,
            k.color_codes == strings_view(color_codes@),
            forall|j: int| 0 <= j < cm@.len() ==> (cm@[j].0 as int, cm@[j].1) == #[trigger] cv[j],
            forall|j: int| 0 <= j < cm@.len() ==> #[trigger] cm@[j].0 < v.len(),
            match open {
                Some((c, p)) => p < v.len(),
                None => true,
            },
            diags_model(out@) + color_findings(v, cv.skip(i as int), match open {
                Some((c, p)) => Some((c, p as int)),
                None => None,
            }, base as int, line, k.color_codes) == e2 + color_findings(v, cv, None, base as int, line, k.color_codes),
        decreases cm.len() - i,
    {
        let (pos, c) = cm[i];
        let ghost before = diags_model(out@);
        let ghost open_m: Option<(char, int)> = match open {
            Some((c2, p2)) => Some((c2, p2 as int)),
            None => None,
        };
        assert(cv.skip(i as int)[0] == cv[i as int]);
        assert(cv.skip(i as int).drop_first() =~= cv.skip(i + 1));
        proof {
            lemma_blen_sub(v, 0, pos as int);
            assert(v.subrange(0, pos as int) =~= v.take(pos as int));
        }
        let bs = byte_len(&cs, 0, pos);
        let col = base as u64 + byte_to_utf16(&cs, bs);
        assert(col == color_col(v, pos as int, base as int));
        assert(cv.skip(i as int)[0] == (pos as int, c));
        let ghost rest = cv.skip(i + 1);
        let ghost codes = k.color_codes;
        if c == '!' {
            let ghost here: Seq<DiagModel> = if open_m is None {
                seq![coded(at_cols(line, col as int, col + 2), "Dangling color reset symbol '§!' without an opening color code."@,
                    DiagnosticSeverity::Information, "dangling_color_reset"@)]
            } else {
                Seq::empty()
            };
            assert(color_findings(v, cv.skip(i as int), open_m, base as int, line, codes) == here + color_findings(v, rest, None, base as int, line, codes));
            if open.is_none() {
                let d = new_diag(cols(line, col, col + 2), literal("Dangling color reset symbol '§!' without an opening color code."), DiagnosticSeverity::Information, "dangling_color_reset");
                let ghost o = out@;
                out.push(d);
                assert(diags_model(out@) =~= diags_model(o).push(diag_model(d)));
                assert(diags_model(out@) =~= before + here);
            } else {
                assert(diags_model(out@) =~= before + here);
            }
            open = None;
            assert(diags_model(out@) + color_findings(v, rest, None, base as int, line, codes) =~= before + (here + color_findings(v, rest, None, base as int, line, codes)));
        } else {
            let ghost here: Seq<DiagModel> = if codes.contains(seq![c]) {
                Seq::empty()
            } else {
                seq![coded(at_cols(line, col as int, col + 2), "Unknown color code '§"@ + seq![c]
                    + "'. This will cause a 'Could not find coloring for character' error in-game."@, DiagnosticSeverity::Warning, "unknown_color_code"@)]
            };
            assert(color_findings(v, cv.skip(i as int), open_m, base as int, line, codes) == here + color_findings(v, rest, Some((c, pos as int)), base as int, line, codes));
            let one: Vec<char> = vec![c];
            assert(one@ =~= seq![c]);
            if !contains_seq(color_codes, &one) {
                let mut m = String::new();
                append_str(&mut m, "Unknown color code '§");
                push_char(&mut m, c);
                append_str(&mut m, "'. This will cause a 'Could not find coloring for character' error in-game.");
                assert(m@ =~= "Unknown color code '§"@ + seq![c] + "'. This will cause a 'Could not find coloring for character' error in-game."@);
                let d = new_diag(cols(line, col, col + 2), m, DiagnosticSeverity::Warning, "unknown_color_code");
                let ghost o = out@;
                out.push(d);
                assert(diags_model(out@) =~= diags_model(o).push(diag_model(d)));
                assert(diags_model(out@) =~= before + here);
            } else {
                assert(diags_model(out@) =~= before + here);
            }
            open = Some((c, pos));
            assert(diags_model(out@) + color_findings(v, rest, Some((c, pos as int)), base as int, line, codes) =~= before + (here + color_findings(v, rest, Some((c, pos as int)), base as int, line, codes)));
        }
        i += 1;
    }
    assert(cv.skip(i as int) =~= Seq::<(int, char)>::empty());
    let ghost before = diags_model(out@);
    let ghost open_end: Option<(char, int)> = match open {
        Some((c2, p2)) => Some((c2, p2 as int)),
        None => None,
    };
    assert(before + color_findings(v, Seq::<(int, char)>::empty(), open_end, base as int, line, k.color_codes) == e2 + color_findings(v, cv, None, base as int, line, k.color_codes));
    match open {
        Some((c, pos)) => {
            proof {
                lemma_blen_sub(v, 0, pos as int);
                assert(v.subrange(0, pos as int) =~= v.take(pos as int));
            }
            let bs = byte_len(&cs, 0, pos);
            let col = base as u64 + byte_to_utf16(&cs, bs);
            assert(col == color_col(v, pos as int, base as int));
            let mut m = String::new();
            append_str(&mut m, "Unclosed color code '§");
            push_char(&mut m, c);
            append_str(&mut m, "'. Expected a matching '§!' reset.");
            assert(m@ =~= "Unclosed color code '§"@ + seq![c] + "'. Expected a matching '§!' reset."@);
            let d = new_diag(cols(line, col, col + 2), m, DiagnosticSeverity::Information, "unclosed_color_code");
            let ghost o = out@;
            out.push(d);
            assert(diags_model(out@) =~= diags_model(o).push(diag_model(d)));
            assert(color_findings(v, Seq::<(int, char)>::empty(), open_end, base as int, line, k.color_codes) == seq![diag_model(d)]);
        },
        None => {
            assert(color_findings(v, Seq::<(int, char)>::empty(), open_end, base as int, line, k.color_codes) == Seq::<DiagModel>::empty());
            assert(diags_model(out@) =~= before + Seq::<DiagModel>::empty());
        },
    }
    assert(diags_model(out@) =~= e2 + color_findings(v, cv, None, base as int, line, k.color_codes));
    out
}

} // verus!

verus! {

/// The code still open after the colour codes `ms`, starting from `open`:
/// the last code, unless it is the reset `§!`.
pub open spec fn open_after(ms: Seq<(int, char)>, open: Option<(char, int)>) -> Option<(char, int)> {
    if ms.len() == 0 {
        open
    } else if ms.last().1 == '!' {
        None
    } else {
        Some((ms.last().1, ms.last().0))
    }
}

pub open spec fn unclosed_finding(v: Seq<char>, c: char, pos: int, base: int, line: u32) -> DiagModel {
    coded(at_cols(line, color_col(v, pos, base), color_col(v, pos, base) + 2),
        "Unclosed color code '§"@ + seq![c] + "'. Expected a matching '§!' reset."@, DiagnosticSeverity::Information, "unclosed_color_code"@)
}

proof fn lemma_color_codes_differ()
    ensures
        "dangling_color_reset"@ != "unclosed_color_code"@,
        "unknown_color_code"@ != "unclosed_color_code"@,
{
    reveal_strlit("dangling_color_reset");
    reveal_strlit("unknown_color_code");
    reveal_strlit("unclosed_color_code");
    assert("dangling_color_reset"@[0] != "unclosed_color_code"@[0]);
    assert("unknown_color_code"@[2] != "unclosed_color_code"@[2]);
}

proof fn lemma_unclosed_only_at_end(v: Seq<char>, ms: Seq<(int, char)>, open: Option<(char, int)>, base: int, line: u32, codes: Seq<Seq<char>>)
    ensures
        ({
            let ds = color_findings(v, ms, open, base, line, codes);
            let n = if open_after(ms, open) is Some { ds.len() - 1 } else { ds.len() as int };
            &&& n >= 0
            &&& forall|k: int| 0 <= k < n ==> (#[trigger] ds[k]).code != Some("unclosed_color_code"@)
            &&& match open_after(ms, open) {
                Some((c, pos)) => ds.last() == unclosed_finding(v, c, pos, base, line),
                None => true,
            }
        }),
    decreases ms.len(),
{
    lemma_color_codes_differ();
    if ms.len() > 0 {
        let (pos, c) = ms[0];
        let next = if c == '!' { None } else { Some((c, pos)) };
        lemma_unclosed_only_at_end(v, ms.drop_first(), next, base, line, codes);
        assert(open_after(ms.drop_first(), next) == open_after(ms, open)) by {
            if ms.len() > 1 {
                assert(ms.drop_first().last() == ms.last());
            }
        }
        let ds = color_findings(v, ms, open, base, line, codes);
        let rest = color_findings(v, ms.drop_first(), next, base, line, codes);
        let here = ds.subrange(0, ds.len() - rest.len());
        assert(ds == here + rest);
        assert forall|k: int| 0 <= k < here.len() implies (#[trigger] here[k]).code != Some("unclosed_color_code"@) by {}
        let n = if open_after(ms, open) is Some { ds.len() - 1 } else { ds.len() as int };
        assert forall|k: int| 0 <= k < n implies (#[trigger] ds[k]).code != Some("unclosed_color_code"@) by {
            if k < here.len() {
                assert(ds[k] == here[k]);
            } else {
                assert(ds[k] == rest[k - here.len()]);
            }
        }
    }
}

/// Colour codes do not nest: a later code replaces an open one and `§!`
/// closes it.  So the only code reported as unclosed is the last one, when
/// it is not a reset; it comes last among the colour-code findings, as
/// information, and no other of them is an unclosed-code finding.
pub proof fn law_only_trailing_color_code_is_unclosed(v: Seq<char>, base: int, line: u32, codes: Seq<Seq<char>>)
    ensures
        ({
            let ms = color_matches(v, 0);
            let ds = color_findings(v, ms, None, base, line, codes);
            let trailing = ms.len() > 0 && ms.last().1 != '!';
            let n = if trailing { ds.len() - 1 } else { ds.len() as int };
            &&& n >= 0
            &&& forall|k: int| 0 <= k < n ==> (#[trigger] ds[k]).code != Some("unclosed_color_code"@)
            &&& trailing ==> ds.last() == unclosed_finding(v, ms.last().1, ms.last().0, base, line)
            &&& trailing ==> ds.last().severity == DiagnosticSeverity::Information
        }),
{
    lemma_unclosed_only_at_end(v, color_matches(v, 0), None, base, line, codes);
}

} // verus!

verus! {

/// The scope keywords of localisation brackets, as the original lists
/// them; a part matches one when its upper-case text equals it.
pub open spec fn listed_scope_keyword(u: Seq<char>) -> bool {
    ||| "ROOT"@ == u
    ||| "FROM"@ == u
    ||| "PREV"@ == u
    ||| "THIS"@ == u
    ||| "COUNTRY"@ == u
    ||| "STATE"@ == u
    ||| "UNIT"@ == u
    ||| "CHARACTER"@ == u
    ||| "GLOBAL"@ == u
    ||| "Owner"@ == u
    ||| "Controller"@ == u
    ||| "Capital"@ == u
    ||| "Leader"@ == u
    ||| "Ace"@ == u
    ||| "Building"@ == u
    ||| "IndustrialOrg"@ == u
    ||| "Operation"@ == u
    ||| "Province"@ == u
    ||| "PurchaseContract"@ == u
    ||| "SpecialProject"@ == u
    ||| "Terrain"@ == u
    ||| "UnitLeader"@ == u
}

proof fn lemma_no_pair_matches(v: Seq<char>, i: int, open: char, close: char)
    requires
        0 <= i,
        forall|j: int| i <= j < v.len() ==> #[trigger] v[j] != open,
    ensures
        pair_matches(v, i, open, close) == Seq::<(int, int)>::empty(),
    decreases v.len() - i,
{
    if i < v.len() {
        lemma_no_pair_matches(v, i + 1, open, close);
    }
}

proof fn lemma_no_color_matches(v: Seq<char>, i: int)
    requires
        0 <= i,
        forall|j: int| i <= j < v.len() ==> #[trigger] v[j] != '§',
    ensures
        color_matches(v, i) == Seq::<(int, char)>::empty(),
    decreases v.len() - i,
{
    if i < v.len() {
        lemma_no_color_matches(v, i + 1);
    }
}

/// `find_char` gives the first occurrence.
proof fn lemma_find_first(t: Seq<char>, c: char, k: int, j: int)
    requires
        0 <= k <= j < t.len(),
        t[j] == c,
        forall|m: int| k <= m < j ==> #[trigger] t[m] != c,
    ensures
        find_char(t, c, k) == Some(j),
{
    crate::loc::lemma_find_char(t, c, k);
}

proof fn lemma_find_none(t: Seq<char>, c: char, k: int)
    requires
        0 <= k <= t.len(),
        forall|m: int| k <= m < t.len() ==> #[trigger] t[m] != c,
    ensures
        find_char(t, c, k) is None,
{
    crate::loc::lemma_find_char(t, c, k);
}

/// The commands of localisation brackets, as the original lists them (in
/// lower case; a part matches one when its ASCII lower-case text equals it).
pub open spec fn listed_command(l: Seq<char>) -> bool {
    ||| "getname"@ == l
    ||| "getnamedef"@ == l
    ||| "getnamedefcap"@ == l
    ||| "getadjective"@ == l
    ||| "getadjectivecap"@ == l
    ||| "gettag"@ == l
    ||| "getrulingideology"@ == l
    ||| "getrulingideologynoun"@ == l
    ||| "getpartyname"@ == l
    ||| "getpartysupport"@ == l
    ||| "getleadername"@ == l
    ||| "getleadernamedef"@ == l
    ||| "getplayername"@ == l
    ||| "getcapitalname"@ == l
    ||| "getlastelection"@ == l
    ||| "getrulingparty"@ == l
    ||| "getrulingpartylong"@ == l
    ||| "getcommunistparty"@ == l
    ||| "getdemocraticparty"@ == l
    ||| "getfascistparty"@ == l
    ||| "getneutralparty"@ == l
    ||| "getcommunistleader"@ == l
    ||| "getdemocraticleader"@ == l
    ||| "getfascistleader"@ == l
    ||| "getneutralleader"@ == l
    ||| "getpowerbalancename"@ == l
    ||| "getpowerbalancemoddesc"@ == l
    ||| "getrightsidename"@ == l
    ||| "getleftsidename"@ == l
    ||| "getactivesidename"@ == l
    ||| "gettrendingsidename"@ == l
    ||| "getactiverangename"@ == l
    ||| "getactiverangemoddesc"@ == l
    ||| "getactiverangeruledesc"@ == l
    ||| "getactiverangeactivationeffect"@ == l
    ||| "getactiverangedeactivationeffect"@ == l
    ||| "getchangeratedesc"@ == l
    ||| "getboptrendtexticon"@ == l
    ||| "getshehe"@ == l
    ||| "getshehecap"@ == l
    ||| "getherhim"@ == l
    ||| "getherhimcap"@ == l
    ||| "getherhis"@ == l
    ||| "getherhiscap"@ == l
    ||| "gethershis"@ == l
    ||| "gethershiscap"@ == l
    ||| "getherselfhimself"@ == l
    ||| "getherselfhimselfcap"@ == l
    ||| "getideology"@ == l
    ||| "getideologygroup"@ == l
    ||| "getrank"@ == l
    ||| "getcodename"@ == l
    ||| "getcallsign"@ == l
    ||| "getsurname"@ == l
    ||| "getfullname"@ == l
    ||| "getwing"@ == l
    ||| "getwingshort"@ == l
    ||| "getacetype"@ == l
    ||| "getmissionregion"@ == l
    ||| "gettokenkey"@ == l
    ||| "gettokenlocalizedkey"@ == l
    ||| "getdatestring"@ == l
    ||| "getdatestringshortmonth"@ == l
    ||| "getdatestringnohour"@ == l
    ||| "getdatestringnohourlong"@ == l
    ||| "getmanpower"@ == l
    ||| "getfactionname"@ == l
    ||| "getagency"@ == l
    ||| "getnamewithflag"@ == l
    ||| "getflag"@ == l
    ||| "getdate"@ == l
    ||| "gettime"@ == l
    ||| "getyear"@ == l
    ||| "getmonth"@ == l
    ||| "getday"@ == l
    ||| "getid"@ == l
    ||| "getcapitalvictorypointname"@ == l
    ||| "getoldname"@ == l
    ||| "getoldnamedef"@ == l
    ||| "getoldnamedefcap"@ == l
    ||| "getoldadjective"@ == l
    ||| "getoldadjectivecap"@ == l
    ||| "getnonideologyname"@ == l
    ||| "getnonideologynamedef"@ == l
    ||| "getnonideologynamedefcap"@ == l
    ||| "getnonideologyadjective"@ == l
    ||| "getnonideologyadjectivecap"@ == l
    ||| "getleader"@ == l
    ||| "getdatetext"@ == l
}

/// A value `[P.C]` whose two parts are ASCII letters and valid gives no
/// finding.
proof fn lemma_two_valid_parts(p: Seq<char>, name: Seq<char>, line: u32, base: u32, k: Known)
    requires
        p.len() > 0,
        forall|i: int| 0 <= i < p.len() ==> ('a' <= #[trigger] p[i] && p[i] <= 'z') || ('A' <= p[i] && p[i] <= 'Z'),
        name.len() > 0,
        forall|i: int| 0 <= i < name.len() ==> ('a' <= #[trigger] name[i] && name[i] <= 'z') || ('A' <= name[i] && name[i] <= 'Z'),
        part_valid(p, k),
        part_valid(name, k),
    ensures
        loc_string_findings(seq!['['] + p + seq!['.'] + name + seq![']'], line, base, k) == Seq::<DiagModel>::empty(),
{
    let g = seq!['.'] + name + seq![']'];
    let nl = name.len() as int;
    assert(seq!['['] + p + seq!['.'] + name + seq![']'] =~= seq!['['] + p + g);
    let v = seq!['['] + p + g;
    let n = v.len() as int;
    let pl = p.len() as int;
    assert(n == pl + nl + 3);
    assert(forall|i: int| 0 <= i < pl ==> v[i + 1] == p[i]);
    assert(forall|j: int| 0 <= j < nl + 2 ==> v[pl + 1 + j] == g[j]);
    assert(forall|j: int| 0 <= j < nl ==> g[j + 1] == name[j]);
    assert(v[0] == '[');
    // the one bracket pair spans the value
    assert forall|m: int| 1 <= m < n - 1 implies #[trigger] v[m] != ']' by {
        if m <= pl {
            assert(v[m] == p[m - 1]);
        } else if m > pl + 1 {
            assert(v[m] == g[m - pl - 1]);
            assert(v[m] == name[m - pl - 2]);
        }
    }
    assert(v[n - 1] == ']');
    lemma_find_first(v, ']', 1, n - 1);
    assert(pair_end(v, 0, '[', ']') == Some(n));
    assert(pair_matches(v, n, '[', ']') == Seq::<(int, int)>::empty());
    assert(pair_matches(v, 0, '[', ']') == seq![(0int, n)]);
    // inside: `p.GetName`
    let w = v.subrange(1, n - 1);
    assert(w =~= p + seq!['.'] + name);
    assert(w.len() == pl + nl + 1);
    assert(forall|i: int| 0 <= i < pl ==> w[i] == p[i]);
    assert(w[pl] == '.');
    assert(forall|j: int| 0 <= j < nl ==> w[pl + 1 + j] == name[j]);
    assert(unwrap_ternary(w) == w);
    assert(w[0] != '?');
    assert forall|m: int| 0 <= m < w.len() implies #[trigger] w[m] != '|' by {
        if m < pl {
            assert(w[m] == p[m]);
        } else if m > pl {
            assert(w[m] == name[m - pl - 1]);
        }
    }
    lemma_find_none(w, '|', 0);
    assert forall|m: int| 0 <= m < pl implies #[trigger] w[m] != '.' by {
        assert(w[m] == p[m]);
    }
    lemma_find_first(w, '.', 0, pl);
    assert(w.take(pl) =~= p);
    assert(w.subrange(pl + 1, w.len() as int) =~= name);
    assert forall|m: int| 0 <= m < name.len() implies #[trigger] name[m] != '.' by {}
    lemma_find_none(name, '.', 0);
    let (ds2, any2) = parts_findings(name, 1 + blen(p) + 1, v, base as int, line, k);
    assert(ds2 == Seq::<DiagModel>::empty() && any2);
    let (ds, any) = parts_findings(w, 1, v, base as int, line, k);
    assert(ds =~= Seq::<DiagModel>::empty() && any);
    assert(bracket_findings(v, 0, n, base as int, line, k) =~= Seq::<DiagModel>::empty());
    let ms = seq![(0int, n)];
    assert(ms.drop_first() =~= Seq::<(int, int)>::empty());
    assert(brackets_findings(v, ms.drop_first(), base as int, line, k) == Seq::<DiagModel>::empty());
    assert(ms[0] == (0int, n));
    assert(brackets_findings(v, ms, base as int, line, k) == bracket_findings(v, 0, n, base as int, line, k)
        + brackets_findings(v, ms.drop_first(), base as int, line, k));
    assert(brackets_findings(v, pair_matches(v, 0, '[', ']'), base as int, line, k) =~= Seq::<DiagModel>::empty());
    // no `$` and no `§`
    assert forall|m: int| 0 <= m < n implies #[trigger] v[m] != '$' && v[m] != '§' by {
        if 1 <= m <= pl {
            assert(v[m] == p[m - 1]);
        } else if m > pl + 1 && m < n - 1 {
            assert(v[m] == name[m - pl - 2]);
        } else if m > pl {
            assert(v[m] == g[m - pl - 1]);
        }
    }
    lemma_no_pair_matches(v, 0, '$', '$');
    lemma_no_color_matches(v, 0);
    assert(color_findings(v, Seq::<(int, char)>::empty(), None, base as int, line, k.color_codes) == Seq::<DiagModel>::empty());
}

/// Every scope keyword of the original list is a valid bracket part: a
/// value `[K.GetName]`, whose part `K` is ASCII letters with upper-case
/// text a listed keyword, gives no finding at all, whatever event targets,
/// scripted localisations, colour codes and country tags are known.
pub proof fn law_scope_keywords_are_valid_bracket_parts(p: Seq<char>, line: u32, base: u32, k: Known)
    requires
        p.len() > 0,
        forall|i: int| 0 <= i < p.len() ==> ('a' <= #[trigger] p[i] && p[i] <= 'z') || ('A' <= p[i] && p[i] <= 'Z'),
        listed_scope_keyword(unicode_upper(p)),
    ensures
        loc_string_findings(seq!['['] + p + ".GetName]"@, line, base, k) == Seq::<DiagModel>::empty(),
{
    reveal_strlit(".GetName]");
    reveal_strlit("GetName");
    reveal_strlit("getname");
    let name = "GetName"@;
    assert(lower_seq(name) =~= "getname"@);
    assert(part_valid(name, k));
    assert(part_valid(p, k));
    lemma_two_valid_parts(p, name, line, base, k);
    assert(seq!['['] + p + seq!['.'] + name + seq![']'] =~= seq!['['] + p + ".GetName]"@);
}

/// Every command of the original list, in any ASCII case, is a valid
/// bracket part after a scope keyword: a value `[K.C]` gives no finding.
pub proof fn law_commands_are_valid_bracket_parts(p: Seq<char>, c: Seq<char>, line: u32, base: u32, k: Known)
    requires
        p.len() > 0,
        forall|i: int| 0 <= i < p.len() ==> ('a' <= #[trigger] p[i] && p[i] <= 'z') || ('A' <= p[i] && p[i] <= 'Z'),
        listed_scope_keyword(unicode_upper(p)),
        c.len() > 0,
        forall|i: int| 0 <= i < c.len() ==> ('a' <= #[trigger] c[i] && c[i] <= 'z') || ('A' <= c[i] && c[i] <= 'Z'),
        listed_command(lower_seq(c)),
    ensures
        loc_string_findings(seq!['['] + p + seq!['.'] + c + seq![']'], line, base, k) == Seq::<DiagModel>::empty(),
{
    assert(part_valid(p, k));
    assert(part_valid(c, k));
    lemma_two_valid_parts(p, c, line, base, k);
}

} // verus!
