//! Localisation files: structure and quoting checks, the entry parser and
//! the formatter.
use vstd::prelude::*;
use vstd::string::*;
use vstd::utf8::encode_utf8;
use crate::ast::{Range, DiagnosticSeverity, DiagnosticTag, DiagnosticRelatedInformation};
use crate::text::{
    is_ascii_alnum, newline_from, lemma_newline_from, utf8_offset, utf8_len, literal, chars_of, push_char,
    trim, lines_of, bounds_text, line_bounds, trim_bounds, lemma_utf8_offset_step, lemma_utf8_offset_mono,
    lemma_utf8_offset_full, lemma_utf8_offset_chars, lemma_encode_slice, lemma_lines_count,
};
use crate::script::{
    strip_bom, Src, scan_ws, scan_digits_from, ws_end, digits_end, col_at, flat_range, first_line_end,
    lemma_digits_end,
};
use crate::rules::spells;

verus! {

/// A localisation entry: `key:version "value"`.
#[derive(Debug, Clone)]
pub struct LocEntry {
    pub key: String,
    pub value: String,
    pub range: Range,
    pub path: String,
    pub value_start_col: u32,
    pub version: Option<String>,
    pub version_range: Option<Range>,
}

/// A diagnostic about a localisation file.
#[derive(Debug, Clone)]
pub struct LocDiagnostic {
    pub range: Range,
    pub message: String,
    pub severity: DiagnosticSeverity,
    pub code: Option<String>,
    pub related_information: Vec<DiagnosticRelatedInformation>,
    pub tags: Vec<DiagnosticTag>,
}

/// What a diagnostic says.
pub struct DiagModel {
    pub range: Range,
    pub message: Seq<char>,
    pub severity: DiagnosticSeverity,
    pub code: Option<Seq<char>>,
    pub tags: Seq<DiagnosticTag>,
    pub related: nat,
}

pub open spec fn diag_model(d: LocDiagnostic) -> DiagModel {
    DiagModel {
        range: d.range,
        message: d.message@,
        severity: d.severity,
        code: match d.code {
            Some(c) => Some(c@),
            None => None,
        },
        tags: d.tags@,
        related: d.related_information@.len(),
    }
}

pub open spec fn diags_model(ds: Seq<LocDiagnostic>) -> Seq<DiagModel> {
    ds.map_values(|d: LocDiagnostic| diag_model(d))
}

/// A diagnostic with a code, no related information and no tags.
pub open spec fn coded(range: Range, message: Seq<char>, severity: DiagnosticSeverity, code: Seq<char>) -> DiagModel {
    DiagModel { range, message, severity, code: Some(code), tags: Seq::empty(), related: 0 }
}

pub(crate) fn new_diag(range: Range, message: String, severity: DiagnosticSeverity, code: &str) -> (d: LocDiagnostic)
    ensures
        diag_model(d) == coded(range, message@, severity, code@),
{
    let d = LocDiagnostic {
        range,
        message,
        severity,
        code: Some(literal(code)),
        related_information: Vec::new(),
        tags: Vec::new(),
    };
    assert(d.tags@ =~= Seq::<DiagnosticTag>::empty());
    d
}

fn push_diag(ds: &mut Vec<LocDiagnostic>, d: LocDiagnostic)
    ensures
        diags_model(final(ds)@) == diags_model(old(ds)@).push(diag_model(d)),
{
    ds.push(d);
    assert(diags_model(ds@) =~= diags_model(old(ds)@).push(diag_model(d)));
}

/// The characters of `s` without a leading byte-order mark.
fn chars_without_bom(s: &str) -> (v: Vec<char>)
    ensures
        v@ == strip_bom(s@),
{
    let all = chars_of(s);
    if all.len() > 0 && all[0] == '\u{feff}' {
        let mut v: Vec<char> = Vec::new();
        let mut k: usize = 1;
        while k < all.len()
            invariant
                1 <= k <= all@.len(),
                v@ == all@.subrange(1, k as int),
            decreases all.len() - k,
        {
            v.push(all[k]);
            assert(all@.subrange(1, k + 1) =~= v@);
            k += 1;
        }
        assert(v@ =~= all@.drop_first());
        v
    } else {
        all
    }
}

/// The encoding of the input without its byte-order mark is no longer than
/// the input's.
proof fn lemma_strip_bom_bytes(s: Seq<char>)
    ensures
        encode_utf8(strip_bom(s)).len() <= encode_utf8(s).len(),
{
    if s.len() > 0 && s[0] == '\u{feff}' {
        lemma_encode_slice(s, 1, s.len() as int);
        assert(s.subrange(1, s.len() as int) =~= s.drop_first());
        lemma_utf8_offset_full(s);
        lemma_utf8_offset_mono(s, 0, 1);
    }
}

// ---------------------------------------------------------------------------
// Unescaped quotes
// ---------------------------------------------------------------------------

/// Byte offsets, within the line, of the double quotes before the line's
/// first `#` that do not follow a backslash; `prev` is the character before
/// index `k`.
pub open spec fn quote_offsets(l: Seq<char>, k: int, prev: char) -> Seq<int>
    decreases l.len() - k,
{
    if 0 <= k < l.len() && l[k] != '#' {
        let rest = quote_offsets(l, k + 1, l[k]);
        if l[k] == '"' && prev != '\\' {
            seq![utf8_offset(l, k)] + rest
        } else {
            rest
        }
    } else {
        Seq::empty()
    }
}

pub open spec fn unescaped_quote_message() -> Seq<char> {
    "Internal unescaped double quote. Use \\\" instead to prevent parsing errors."@
}

/// A blank line or a comment line.
pub open spec fn skipped_line(l: Seq<char>) -> bool {
    trim(l).len() == 0 || trim(l)[0] == '#'
}

/// The warnings for line `j`: every unescaped quote but the first and the
/// last, when there are more than two.
pub open spec fn quote_line_diags(j: int, l: Seq<char>) -> Seq<DiagModel> {
    let q = quote_offsets(l, 0, '\0');
    if skipped_line(l) || q.len() <= 2 {
        Seq::empty()
    } else {
        q.subrange(1, q.len() - 1).map_values(|x: int| coded(
            Range { start_line: j as u32, start_col: x as u32, end_line: j as u32, end_col: (x + 1) as u32 },
            unescaped_quote_message(),
            DiagnosticSeverity::Warning,
            "unescaped_quote"@,
        ))
    }
}

pub open spec fn quote_diags_from(ls: Seq<Seq<char>>, j: int) -> Seq<DiagModel>
    decreases ls.len() - j,
{
    if 0 <= j < ls.len() {
        quote_line_diags(j, ls[j]) + quote_diags_from(ls, j + 1)
    } else {
        Seq::empty()
    }
}

/// Unescaped-quote offsets of line `cs[a..b]`.
fn line_quote_offsets(cs: &Vec<char>, a: usize, b: usize) -> (q: Vec<usize>)
    requires
        a <= b <= cs@.len(),
        utf8_offset(cs@, cs@.len() as int) <= u32::MAX,
    ensures
        q@.map_values(|x: usize| x as int) == quote_offsets(cs@.subrange(a as int, b as int), 0, '\0'),
        forall|i: int| 0 <= i < q@.len() ==> #[trigger] q@[i] + 1 <= utf8_offset(cs@, cs@.len() as int),
{
    let ghost l = cs@.subrange(a as int, b as int);
    let mut q: Vec<usize> = Vec::new();
    let mut k = a;
    let mut off: usize = 0;
    let mut prev = '\0';
    proof {
        assert(l.take(0) =~= Seq::<char>::empty());
        assert(encode_utf8(Seq::<char>::empty()) =~= Seq::<u8>::empty());
        lemma_encode_slice(cs@, a as int, b as int);
        lemma_utf8_offset_full(l);
        lemma_utf8_offset_mono(cs@, 0, a as int);
        lemma_utf8_offset_mono(cs@, a as int, b as int);
        lemma_utf8_offset_mono(cs@, b as int, cs@.len() as int);
        assert(encode_utf8(l).len() == utf8_offset(cs@, b as int) - utf8_offset(cs@, a as int));
    }
    while k < b && cs[k] != '#'
        invariant
            a <= k <= b <= cs@.len(),
            l == cs@.subrange(a as int, b as int),
            utf8_offset(cs@, cs@.len() as int) <= u32::MAX,
            utf8_offset(l, l.len() as int) <= utf8_offset(cs@, cs@.len() as int),
            off == utf8_offset(l, k - a),
            quote_offsets(l, 0, '\0') == q@.map_values(|x: usize| x as int) + quote_offsets(l, k - a, prev),
            forall|i: int| 0 <= i < q@.len() ==> #[trigger] q@[i] + 1 <= utf8_offset(cs@, cs@.len() as int),
        decreases b - k,
    {
        proof {
            lemma_utf8_offset_step(l, k - a);
            lemma_utf8_offset_mono(l, k - a + 1, l.len() as int);
            vstd::utf8::char_is_scalar(l[k - a]);
        }
        let c = cs[k];
        let ghost old_q = q@;
        if c == '"' && prev != '\\' {
            q.push(off);
            assert(q@.map_values(|x: usize| x as int) =~= old_q.map_values(|x: usize| x as int).push(off as int));
            assert(old_q.map_values(|x: usize| x as int) + (seq![off as int] + quote_offsets(l, k - a + 1, c))
                =~= q@.map_values(|x: usize| x as int) + quote_offsets(l, k - a + 1, c));
        }
        off = off + utf8_len(c);
        prev = c;
        k += 1;
    }
    assert(quote_offsets(l, k - a, prev) =~= Seq::<int>::empty());
    assert(q@.map_values(|x: usize| x as int) + Seq::<int>::empty() =~= q@.map_values(|x: usize| x as int));
    q
}

/// Warns about double quotes inside localisation values that are not
/// escaped: on each line that is neither blank nor a comment, every
/// unescaped quote (before the line's first `#`) except the first and the
/// last, when there are more than two.  Positions are line indices and byte
/// columns.
pub fn validate_unescaped_quotes_in_file(input: &str) -> (r: Vec<LocDiagnostic>)
    requires
        input.spec_bytes().len() <= u32::MAX,
    ensures
        diags_model(r@) == quote_diags_from(lines_of(strip_bom(input@)), 0),
{
    let cs = chars_without_bom(input);
    let lines = line_bounds(&cs);
    let ghost ls = lines_of(cs@);
    proof {
        lemma_strip_bom_bytes(input@);
        lemma_utf8_offset_full(cs@);
        lemma_utf8_offset_chars(cs@, 0, cs@.len() as int);
        assert(cs@.take(0) =~= Seq::<char>::empty());
        assert(encode_utf8(Seq::<char>::empty()) =~= Seq::<u8>::empty());
        lemma_lines_count(cs@, 0);
    }
    let mut ds: Vec<LocDiagnostic> = Vec::new();
    let mut j: usize = 0;
    assert(diags_model(ds@) =~= Seq::<DiagModel>::empty());
    while j < lines.len()
        invariant
            j <= lines@.len(),
            bounds_text(cs@, lines@) == ls,
            ls == lines_of(cs@),
            lines@.len() <= cs@.len(),
            utf8_offset(cs@, cs@.len() as int) <= u32::MAX,
            cs@.len() <= u32::MAX,
            forall|i: int| 0 <= i < lines@.len() ==> #[trigger] lines@[i].0 <= lines@[i].1 <= cs@.len(),
            quote_diags_from(ls, 0) == diags_model(ds@) + quote_diags_from(ls, j as int),
        decreases lines.len() - j,
    {
        let (a, b) = lines[j];
        let ghost l = cs@.subrange(a as int, b as int);
        assert(l == ls[j as int]);
        let ghost before = diags_model(ds@);
        let (lo, hi) = trim_bounds(&cs, a, b);
        if lo < hi && cs[lo] != '#' {
            let q = line_quote_offsets(&cs, a, b);
            let ghost qm = q@.map_values(|x: usize| x as int);
            if q.len() > 2 {
                let mut t: usize = 1;
                while t < q.len() - 1
                    invariant
                        1 <= t <= q@.len() - 1,
                        q@.len() > 2,
                        j <= u32::MAX,
                        qm == q@.map_values(|x: usize| x as int),
                        forall|i: int| 0 <= i < q@.len() ==> #[trigger] q@[i] + 1 <= u32::MAX,
                        diags_model(ds@) == before + qm.subrange(1, t as int).map_values(|x: int| coded(
                            Range { start_line: j as u32, start_col: x as u32, end_line: j as u32, end_col: (x + 1) as u32 },
                            unescaped_quote_message(),
                            DiagnosticSeverity::Warning,
                            "unescaped_quote"@,
                        )),
                    decreases q.len() - 1 - t,
                {
                    let x = q[t];
                    let range = Range { start_line: j as u32, start_col: x as u32, end_line: j as u32, end_col: (x + 1) as u32 };
                    let d = new_diag(range, literal("Internal unescaped double quote. Use \\\" instead to prevent parsing errors."), DiagnosticSeverity::Warning, "unescaped_quote");
                    push_diag(&mut ds, d);
                    assert(qm.subrange(1, t + 1) =~= qm.subrange(1, t as int).push(x as int));
                    t += 1;
                }
            } else {
                assert(diags_model(ds@) + Seq::<DiagModel>::empty() =~= diags_model(ds@));
            }
        }
        assert(quote_diags_from(ls, j as int) == quote_line_diags(j as int, l) + quote_diags_from(ls, j + 1));
        assert(before + (quote_line_diags(j as int, l) + quote_diags_from(ls, j + 1))
            =~= diags_model(ds@) + quote_diags_from(ls, j + 1));
        j += 1;
    }
    assert(quote_diags_from(ls, j as int) =~= Seq::<DiagModel>::empty());
    assert(diags_model(ds@) + Seq::<DiagModel>::empty() =~= diags_model(ds@));
    ds
}

} // verus!

verus! {

// ---------------------------------------------------------------------------
// Version numbers
// ---------------------------------------------------------------------------

pub open spec fn unnecessary_version_message(version: Seq<char>) -> Seq<char> {
    "Version number '"@ + version
        + "' is unnecessary. Modders generally don't need version numbers as they are only used for Paradox's internal translation tracking and are ignored by the game engine."@
}

/// A hint on an entry that carries a version number (and its range): such
/// numbers only serve the publisher's translation tracking.
pub fn check_unnecessary_version(entry: &LocEntry) -> (r: Option<LocDiagnostic>)
    ensures
        match (entry.version, entry.version_range) {
            (Some(v), Some(vr)) => r matches Some(d) && diag_model(d) == (DiagModel {
                range: vr,
                message: unnecessary_version_message(v@),
                severity: DiagnosticSeverity::Hint,
                code: Some("unnecessary_version"@),
                tags: seq![DiagnosticTag::Unnecessary],
                related: 0,
            }),
            _ => r is None,
        },
{
    match (&entry.version, &entry.version_range) {
        (Some(version), Some(version_range)) => {
            let mut message = literal("Version number '");
            crate::text::append_str(&mut message, version.as_str());
            crate::text::append_str(&mut message, "' is unnecessary. Modders generally don't need version numbers as they are only used for Paradox's internal translation tracking and are ignored by the game engine.");
            let mut tags: Vec<DiagnosticTag> = Vec::new();
            tags.push(DiagnosticTag::Unnecessary);
            let d = LocDiagnostic {
                range: *version_range,
                message,
                severity: DiagnosticSeverity::Hint,
                code: Some(literal("unnecessary_version")),
                related_information: Vec::new(),
                tags,
            };
            assert(d.tags@ =~= seq![DiagnosticTag::Unnecessary]);
            Some(d)
        },
        _ => None,
    }
}

// ---------------------------------------------------------------------------
// File structure
// ---------------------------------------------------------------------------

/// Index of the first `c` in `t` at or after `k`.
pub open spec fn find_char(t: Seq<char>, c: char, k: int) -> Option<int>
    decreases t.len() - k,
{
    if 0 <= k < t.len() {
        if t[k] == c {
            Some(k)
        } else {
            find_char(t, c, k + 1)
        }
    } else {
        None
    }
}

pub proof fn lemma_find_char(t: Seq<char>, c: char, k: int)
    requires
        0 <= k <= t.len(),
    ensures
        find_char(t, c, k) matches Some(p) ==> k <= p < t.len() && t[p] == c && forall|j: int|
            k <= j < p ==> #[trigger] t[j] != c,
        find_char(t, c, k) is None ==> forall|j: int| k <= j < t.len() ==> #[trigger] t[j] != c,
    decreases t.len() - k,
{
    if k < t.len() && t[k] != c {
        lemma_find_char(t, c, k + 1);
    }
}

/// Index of the first `c` in `cs[a..b]`, as an index of `cs`.
pub fn find_char_in(cs: &Vec<char>, c: char, a: usize, b: usize) -> (r: Option<usize>)
    requires
        a <= b <= cs@.len(),
    ensures
        match find_char(cs@.subrange(a as int, b as int), c, 0) {
            Some(p) => r == Some((a + p) as usize),
            None => r is None,
        },
{
    let ghost t = cs@.subrange(a as int, b as int);
    let mut k = a;
    while k < b
        invariant
            a <= k <= b <= cs@.len(),
            t == cs@.subrange(a as int, b as int),
            find_char(t, c, k - a) == find_char(t, c, 0),
        decreases b - k,
    {
        if cs[k] == c {
            return Some(k);
        }
        k += 1;
    }
    None
}

/// The language headers the game reads.
pub open spec fn valid_language(l: Seq<char>) -> bool {
    ||| l == "l_english"@ || l == "l_braz_por"@ || l == "l_french"@ || l == "l_german"@
    ||| l == "l_polish"@ || l == "l_russian"@ || l == "l_spanish"@ || l == "l_japanese"@
    ||| l == "l_simp_chinese"@ || l == "l_korean"@
}

fn is_valid_language(l: &Vec<char>) -> (r: bool)
    ensures
        r == valid_language(l@),
{
    spells(l, "l_english") || spells(l, "l_braz_por") || spells(l, "l_french") || spells(l, "l_german")
        || spells(l, "l_polish") || spells(l, "l_russian") || spells(l, "l_spanish")
        || spells(l, "l_japanese") || spells(l, "l_simp_chinese") || spells(l, "l_korean")
}

pub open spec fn unknown_language_message(lang: Seq<char>) -> Seq<char> {
    "Unknown Paradox language header: '"@ + lang
        + "'. Valid languages are: l_english, l_braz_por, l_french, l_german, l_polish, l_russian, l_spanish, l_japanese, l_simp_chinese, l_korean"@
}

pub open spec fn missing_header_message() -> Seq<char> {
    "Missing language header (e.g., 'l_english:'). Localization files must start with a supported language tag."@
}

/// The text before the first colon of the trimmed line, trimmed.
pub open spec fn header_language(l: Seq<char>) -> Seq<char> {
    let t = trim(l);
    match find_char(t, ':', 0) {
        Some(p) => trim(t.subrange(0, p)),
        None => Seq::empty(),
    }
}

/// The first line that is neither blank nor a comment and holds a colon,
/// from line `j` on; and whether a line with content came before it.
pub open spec fn first_header_line(ls: Seq<Seq<char>>, j: int) -> Option<int>
    decreases ls.len() - j,
{
    if 0 <= j < ls.len() {
        if !skipped_line(ls[j]) && find_char(trim(ls[j]), ':', 0) is Some {
            Some(j)
        } else {
            first_header_line(ls, j + 1)
        }
    } else {
        None
    }
}

/// Some line from `j` on is neither blank nor a comment.
pub open spec fn has_content_from(ls: Seq<Seq<char>>, j: int) -> bool {
    exists|i: int| j <= i < ls.len() && !skipped_line(#[trigger] ls[i])
}

/// The structure diagnostics of a file with lines `ls`: on the first
/// content line with a colon, an unknown `l_` language; and an error when no
/// such line names a language while the file has content.
pub open spec fn structure_diags(ls: Seq<Seq<char>>) -> Seq<DiagModel> {
    match first_header_line(ls, 0) {
        Some(j) => {
            let l = ls[j];
            let lang = header_language(l);
            if valid_language(lang) {
                Seq::empty()
            } else if lang.len() >= 2 && lang[0] == 'l' && lang[1] == '_' {
                let start = encode_utf8(l).len() - encode_utf8(trim_start_of(l)).len();
                seq![coded(
                    Range {
                        start_line: j as u32,
                        start_col: start as u32,
                        end_line: j as u32,
                        end_col: (start + encode_utf8(lang).len()) as u32,
                    },
                    unknown_language_message(lang),
                    DiagnosticSeverity::Warning,
                    "unknown_language"@,
                )]
            } else {
                seq![missing_header_diag()]
            }
        },
        None => if has_content_from(ls, 0) {
            seq![missing_header_diag()]
        } else {
            Seq::empty()
        },
    }
}

pub open spec fn trim_start_of(l: Seq<char>) -> Seq<char> {
    crate::text::trim_start(l)
}

pub open spec fn missing_header_diag() -> DiagModel {
    coded(
        Range { start_line: 0, start_col: 0, end_line: 0, end_col: 10 },
        missing_header_message(),
        DiagnosticSeverity::Error,
        "missing_language_header"@,
    )
}

} // verus!

verus! {

fn missing_header() -> (d: LocDiagnostic)
    ensures
        diag_model(d) == missing_header_diag(),
{
    new_diag(
        Range { start_line: 0, start_col: 0, end_line: 0, end_col: 10 },
        literal("Missing language header (e.g., 'l_english:'). Localization files must start with a supported language tag."),
        DiagnosticSeverity::Error,
        "missing_language_header",
    )
}

/// Checks the language header of a localisation file: the first line that
/// is neither blank nor a comment and holds a colon must name a known
/// language before the colon (an unknown `l_...` name gets a warning), and a
/// file with content but no such header gets an error.
pub fn validate_loc_file_structure(input: &str) -> (r: Vec<LocDiagnostic>)
    requires
        input.spec_bytes().len() <= u32::MAX,
    ensures
        diags_model(r@) == structure_diags(lines_of(strip_bom(input@))),
{
    let cs = chars_without_bom(input);
    let lines = line_bounds(&cs);
    let ghost ls = lines_of(cs@);
    proof {
        lemma_strip_bom_bytes(input@);
        lemma_utf8_offset_full(cs@);
        lemma_utf8_offset_chars(cs@, 0, cs@.len() as int);
        lemma_lines_count(cs@, 0);
    }
    let mut has_content = false;
    let mut j: usize = 0;
    while j < lines.len()
        invariant
            j <= lines@.len(),
            bounds_text(cs@, lines@) == ls,
            ls == lines_of(cs@),
            lines@.len() <= cs@.len() <= u32::MAX,
            utf8_offset(cs@, cs@.len() as int) <= u32::MAX,
            forall|i: int| 0 <= i < lines@.len() ==> #[trigger] lines@[i].0 <= lines@[i].1 <= cs@.len(),
            first_header_line(ls, 0) == first_header_line(ls, j as int),
            cs@ == strip_bom(input@),
            has_content <==> exists|i: int| 0 <= i < j && !skipped_line(#[trigger] ls[i]),
        decreases lines.len() - j,
    {
        let (a, b) = lines[j];
        let ghost l = cs@.subrange(a as int, b as int);
        assert(l == ls[j as int]);
        let (lo, hi) = trim_bounds(&cs, a, b);
        if lo < hi && cs[lo] != '#' {
            has_content = true;
            let ghost t = cs@.subrange(lo as int, hi as int);
            match find_char_in(&cs, ':', lo, hi) {
                Some(p) => {
                    proof {
                        lemma_find_char(t, ':', 0);
                        assert(t.subrange(0, p - lo) =~= cs@.subrange(lo as int, p as int));
                    }
                    let (la, lb) = trim_bounds(&cs, lo, p);
                    let ghost lang = cs@.subrange(la as int, lb as int);
                    assert(lang == header_language(l));
                    assert(!skipped_line(l));
                    assert(first_header_line(ls, j as int) == Some(j as int));
                    let mut lv: Vec<char> = Vec::new();
                    let mut k = la;
                    while k < lb
                        invariant
                            la <= k <= lb <= cs@.len(),
                            lv@ == cs@.subrange(la as int, k as int),
                        decreases lb - k,
                    {
                        lv.push(cs[k]);
                        assert(cs@.subrange(la as int, k + 1) =~= lv@);
                        k += 1;
                    }
                    let mut ds: Vec<LocDiagnostic> = Vec::new();
                    if is_valid_language(&lv) {
                        assert(diags_model(ds@) =~= Seq::<DiagModel>::empty());
                        return ds;
                    }
                    if lb - la >= 2 && cs[la] == 'l' && cs[la + 1] == '_' {
                        let start = crate::text::utf8_count(&cs, a, lo);
                        let width = crate::text::utf8_count(&cs, la, lb);
                        proof {
                            lemma_encode_slice(cs@, lo as int, b as int);
                            lemma_utf8_offset_mono(cs@, a as int, lo as int);
                            lemma_utf8_offset_mono(cs@, lo as int, b as int);
                            lemma_utf8_offset_mono(cs@, a as int, la as int);
                            lemma_utf8_offset_mono(cs@, lo as int, la as int);
                            lemma_utf8_offset_mono(cs@, la as int, lb as int);
                            lemma_utf8_offset_mono(cs@, lb as int, cs@.len() as int);
                            lemma_utf8_offset_mono(cs@, 0, a as int);
                            lemma_encode_slice(cs@, a as int, b as int);
                        }
                        let mut message = literal("Unknown Paradox language header: '");
                        crate::text::push_range(&mut message, &cs, la, lb);
                        crate::text::append_str(&mut message, "'. Valid languages are: l_english, l_braz_por, l_french, l_german, l_polish, l_russian, l_spanish, l_japanese, l_simp_chinese, l_korean");
                        let range = Range {
                            start_line: j as u32,
                            start_col: start as u32,
                            end_line: j as u32,
                            end_col: (start + width) as u32,
                        };
                        let d = new_diag(range, message, DiagnosticSeverity::Warning, "unknown_language");
                        push_diag(&mut ds, d);
                        assert(diags_model(ds@) =~= structure_diags(ls));
                        return ds;
                    }
                    push_diag(&mut ds, missing_header());
                    assert(diags_model(ds@) =~= structure_diags(ls));
                    return ds;
                },
                None => {},
            }
        }
        j += 1;
    }
    let mut ds: Vec<LocDiagnostic> = Vec::new();
    if has_content {
        push_diag(&mut ds, missing_header());
    }
    assert(diags_model(ds@) =~= structure_diags(ls));
    ds
}

} // verus!

verus! {

// ---------------------------------------------------------------------------
// Formatting
// ---------------------------------------------------------------------------

/// A trimmed line that starts a localisation file: `l_...:`.
pub open spec fn is_header_line(t: Seq<char>) -> bool {
    t.len() >= 2 && t[0] == 'l' && t[1] == '_' && find_char(t, ':', 0) is Some
}

/// Lines up to and including the header: blank and comment lines are kept
/// as they are, the header is trimmed, other lines are dropped.  Returns the
/// text and the index of the line after the header.
pub open spec fn header_scan(ls: Seq<Seq<char>>, j: int) -> Option<(Seq<char>, int)>
    decreases ls.len() - j,
{
    if 0 <= j < ls.len() {
        let t = trim(ls[j]);
        if t.len() == 0 || t[0] == '#' {
            match header_scan(ls, j + 1) {
                Some((out, k)) => Some((ls[j] + seq!['\n'] + out, k)),
                None => None,
            }
        } else if is_header_line(t) {
            Some((t + seq!['\n'], j + 1))
        } else {
            header_scan(ls, j + 1)
        }
    } else {
        None
    }
}

/// `key` is `last` followed by the suffix `var`.
pub open spec fn variant_of(key: Seq<char>, last: Seq<char>, var: Seq<char>) -> bool {
    &&& key.len() >= var.len()
    &&& key.subrange(key.len() - var.len(), key.len() as int) == var
    &&& key.subrange(0, key.len() - var.len()) == last
}

/// `key` names a variant (definite form, adjective, description, party
/// names) of the entry with key `last`.
pub open spec fn is_variant(key: Seq<char>, last: Seq<char>) -> bool {
    ||| variant_of(key, last, "_DEF"@)
    ||| variant_of(key, last, "_ADJ"@)
    ||| variant_of(key, last, "_desc"@)
    ||| variant_of(key, last, "_party"@)
    ||| variant_of(key, last, "_party_long"@)
    ||| variant_of(key, last, "_ADJ_DEF"@)
}

pub open spec fn version_or_zero(v: Seq<char>) -> Seq<char> {
    if v.len() == 0 {
        "0"@
    } else {
        v
    }
}

/// The version number after the colon and the rest of the entry: the
/// version ends at the first space, else at the first quote.
pub open spec fn version_split(rem: Seq<char>) -> (Seq<char>, Seq<char>) {
    match find_char(rem, ' ', 0) {
        Some(sp) => (version_or_zero(trim(rem.subrange(0, sp))), rem.subrange(sp, rem.len() as int)),
        None => match find_char(rem, '"', 0) {
            Some(q) => (version_or_zero(trim(rem.subrange(0, q))), rem.subrange(q, rem.len() as int)),
            None => ("0"@, rem),
        },
    }
}

/// One formatted line after the header, and the key that later variants
/// refer to: an entry becomes `\tkey:version: value` (a variant of the
/// previous entry indented once more when `cosmetic`), comments and other
/// lines are indented and trimmed, blank lines kept.
pub open spec fn format_line(l: Seq<char>, last: Seq<char>, cosmetic: bool) -> (Seq<char>, Seq<char>) {
    let t = trim(l);
    if t.len() == 0 {
        (l + seq!['\n'], last)
    } else if t[0] == '#' {
        (seq!['\t'] + t + seq!['\n'], last)
    } else {
        match find_char(t, ':', 0) {
            Some(p) => {
                let key = trim(t.subrange(0, p));
                let variant = cosmetic && is_variant(key, last);
                let indent = if variant { seq!['\t', '\t'] } else { seq!['\t'] };
                let new_last = if cosmetic && !variant { key } else { last };
                let (version, rest) = version_split(t.subrange(p + 1, t.len() as int));
                (indent + key + seq![':'] + version + seq![':', ' '] + trim(rest) + seq!['\n'], new_last)
            },
            None => (seq!['\t'] + t + seq!['\n'], last),
        }
    }
}

/// The formatted lines from line `j` on.
pub open spec fn format_body(ls: Seq<Seq<char>>, j: int, last: Seq<char>, cosmetic: bool) -> Seq<char>
    decreases ls.len() - j,
{
    if 0 <= j < ls.len() {
        let (o, next) = format_line(ls[j], last, cosmetic);
        o + format_body(ls, j + 1, next, cosmetic)
    } else {
        Seq::empty()
    }
}

/// The formatted localisation file: a byte-order mark first, the lines up
/// to the header, then the formatted entries; the input unchanged when it
/// has no header.
pub open spec fn formatted_loc(input: Seq<char>, cosmetic: bool) -> Seq<char> {
    let ls = lines_of(input);
    let bom = if input.len() > 0 && input[0] == '\u{feff}' { Seq::empty() } else { seq!['\u{feff}'] };
    match header_scan(ls, 0) {
        Some((head, k)) => bom + head + format_body(ls, k, Seq::empty(), cosmetic),
        None => input,
    }
}

/// Whether `cs[ka..kb]` is `last` followed by `var`.
fn is_variant_of(cs: &Vec<char>, ka: usize, kb: usize, last: &Vec<char>, var: &str) -> (r: bool)
    requires
        ka <= kb <= cs@.len(),
    ensures
        r == variant_of(cs@.subrange(ka as int, kb as int), last@, var@),
{
    let v = chars_of(var);
    let ghost key = cs@.subrange(ka as int, kb as int);
    if kb - ka < v.len() {
        return false;
    }
    let split = kb - v.len();
    let suffix = crate::text::slice_chars(cs, split, kb);
    let base = crate::text::slice_chars(cs, ka, split);
    assert(key.subrange(key.len() - v@.len(), key.len() as int) =~= suffix@);
    assert(key.subrange(0, key.len() - v@.len()) =~= base@);
    crate::text::chars_equal(&suffix, &v) && crate::text::chars_equal(&base, last)
}

fn is_variant_key(cs: &Vec<char>, ka: usize, kb: usize, last: &Vec<char>) -> (r: bool)
    requires
        ka <= kb <= cs@.len(),
    ensures
        r == is_variant(cs@.subrange(ka as int, kb as int), last@),
{
    is_variant_of(cs, ka, kb, last, "_DEF") || is_variant_of(cs, ka, kb, last, "_ADJ")
        || is_variant_of(cs, ka, kb, last, "_desc") || is_variant_of(cs, ka, kb, last, "_party")
        || is_variant_of(cs, ka, kb, last, "_party_long") || is_variant_of(cs, ka, kb, last, "_ADJ_DEF")
}

/// Appends the version and value of an entry whose text after the colon is
/// `cs[a..b]`.
fn push_version_and_value(out: &mut String, cs: &Vec<char>, a: usize, b: usize)
    requires
        a <= b <= cs@.len(),
    ensures
        ({
            let (version, rest) = version_split(cs@.subrange(a as int, b as int));
            final(out)@ == old(out)@ + version + seq![':', ' '] + trim(rest)
        }),
{
    let ghost rem = cs@.subrange(a as int, b as int);
    proof {
        lemma_find_char(rem, ' ', 0);
        lemma_find_char(rem, '"', 0);
    }
    let cut = match find_char_in(cs, ' ', a, b) {
        Some(sp) => Some(sp),
        None => find_char_in(cs, '"', a, b),
    };
    let rest_start = match cut {
        Some(c) => {
            assert(rem.subrange(0, c - a) =~= cs@.subrange(a as int, c as int));
            assert(rem.subrange(c - a, rem.len() as int) =~= cs@.subrange(c as int, b as int));
            let (va, vb) = trim_bounds(cs, a, c);
            if va == vb {
                push_char(out, '0');
                assert(seq!['0'] == "0"@) by {
                    reveal_strlit("0");
                }
            } else {
                crate::text::push_range(out, cs, va, vb);
            }
            c
        },
        None => {
            push_char(out, '0');
            assert(seq!['0'] == "0"@) by {
                reveal_strlit("0");
            }
            a
        },
    };
    assert(rem.subrange(rest_start - a, rem.len() as int) =~= cs@.subrange(rest_start as int, b as int));
    assert(rest_start == a ==> rem =~= cs@.subrange(rest_start as int, b as int));
    push_char(out, ':');
    push_char(out, ' ');
    let (ra, rb) = trim_bounds(cs, rest_start, b);
    crate::text::push_range(out, cs, ra, rb);
}

/// Formats the line `cs[a..b]` after the header onto `out`.
fn format_one_line(out: &mut String, last: &mut Vec<char>, cs: &Vec<char>, a: usize, b: usize, cosmetic: bool)
    requires
        a <= b <= cs@.len(),
    ensures
        final(out)@ == old(out)@ + format_line(cs@.subrange(a as int, b as int), old(last)@, cosmetic).0,
        final(last)@ == format_line(cs@.subrange(a as int, b as int), old(last)@, cosmetic).1,
{
    let (lo, hi) = trim_bounds(cs, a, b);
    let ghost t = cs@.subrange(lo as int, hi as int);
    if lo == hi {
        crate::text::push_range(out, cs, a, b);
        push_char(out, '\n');
    } else if cs[lo] == '#' {
        push_char(out, '\t');
        crate::text::push_range(out, cs, lo, hi);
        push_char(out, '\n');
    } else {
        proof {
            lemma_find_char(t, ':', 0);
        }
        match find_char_in(cs, ':', lo, hi) {
            Some(p) => {
                assert(t.subrange(0, p - lo) =~= cs@.subrange(lo as int, p as int));
                assert(t.subrange(p - lo + 1, t.len() as int) =~= cs@.subrange(p + 1, hi as int));
                let (ka, kb) = trim_bounds(cs, lo, p);
                let variant = cosmetic && is_variant_key(cs, ka, kb, last);
                push_char(out, '\t');
                if variant {
                    push_char(out, '\t');
                } else if cosmetic {
                    *last = crate::text::slice_chars(cs, ka, kb);
                }
                crate::text::push_range(out, cs, ka, kb);
                push_char(out, ':');
                push_version_and_value(out, cs, p + 1, hi);
                push_char(out, '\n');
            },
            None => {
                push_char(out, '\t');
                crate::text::push_range(out, cs, lo, hi);
                push_char(out, '\n');
            },
        }
    }
}

/// Formats a localisation file: ensures a UTF-8 byte-order mark, keeps the
/// lines up to the language header (trimming the header), and writes each
/// entry after it as `\tkey:version: value` with version `0` where none is
/// given; with `cosmetic_indent`, variants of the previous entry (`_DEF`,
/// `_ADJ`, `_desc`, ...) are indented once more.  A file without a header is
/// returned unchanged.
pub fn format_loc_file(input: &str, cosmetic_indent: bool) -> (r: String)
    ensures
        r@ == formatted_loc(input@, cosmetic_indent),
{
    let cs = chars_of(input);
    let lines = line_bounds(&cs);
    let ghost ls = lines_of(cs@);
    let mut out = String::new();
    if !(cs.len() > 0 && cs[0] == '\u{feff}') {
        push_char(&mut out, '\u{feff}');
    }
    let ghost bom = out@;
    // Lines up to the header.
    let mut j: usize = 0;
    let mut found = false;
    while j < lines.len() && !found
        invariant
            j <= lines@.len(),
            cs@ == input@,
            bounds_text(cs@, lines@) == ls,
            ls == lines_of(cs@),
            forall|i: int| 0 <= i < lines@.len() ==> #[trigger] lines@[i].0 <= lines@[i].1 <= cs@.len(),
            !found ==> (header_scan(ls, 0) == match header_scan(ls, j as int) {
                Some((o, k)) => Some(((out@.subrange(bom.len() as int, out@.len() as int) + o), k)),
                None => None,
            }),
            found ==> header_scan(ls, 0) == Some((out@.subrange(bom.len() as int, out@.len() as int), j as int)),
            out@.subrange(0, bom.len() as int) == bom,
            bom.len() <= out@.len(),
        decreases lines.len() - j,
    {
        let (a, b) = lines[j];
        let ghost l = cs@.subrange(a as int, b as int);
        assert(l == ls[j as int]);
        let (lo, hi) = trim_bounds(&cs, a, b);
        let ghost before = out@;
        if lo == hi || cs[lo] == '#' {
            crate::text::push_range(&mut out, &cs, a, b);
            push_char(&mut out, '\n');
            assert(out@.subrange(bom.len() as int, out@.len() as int) =~= before.subrange(bom.len() as int, before.len() as int) + l + seq!['\n']);
            assert(out@.subrange(0, bom.len() as int) =~= before.subrange(0, bom.len() as int));
            j += 1;
        } else if hi - lo >= 2 && cs[lo] == 'l' && cs[lo + 1] == '_' && find_char_in(&cs, ':', lo, hi).is_some() {
            crate::text::push_range(&mut out, &cs, lo, hi);
            push_char(&mut out, '\n');
            assert(out@.subrange(bom.len() as int, out@.len() as int) =~= before.subrange(bom.len() as int, before.len() as int) + cs@.subrange(lo as int, hi as int) + seq!['\n']);
            assert(out@.subrange(0, bom.len() as int) =~= before.subrange(0, bom.len() as int));
            j += 1;
            found = true;
        } else {
            j += 1;
        }
    }
    if !found {
        assert(header_scan(ls, j as int) is None);
        return literal(input);
    }
    // The entries.
    let mut last: Vec<char> = Vec::new();
    let ghost head = out@.subrange(bom.len() as int, out@.len() as int);
    assert(out@ =~= bom + head);
    while j < lines.len()
        invariant
            j <= lines@.len(),
            cs@ == input@,
            bounds_text(cs@, lines@) == ls,
            ls == lines_of(cs@),
            forall|i: int| 0 <= i < lines@.len() ==> #[trigger] lines@[i].0 <= lines@[i].1 <= cs@.len(),
            header_scan(ls, 0) matches Some((h, k)) && h == head && k <= j,
            formatted_loc(input@, cosmetic_indent) == out@ + format_body(ls, j as int, last@, cosmetic_indent),
        decreases lines.len() - j,
    {
        let (a, b) = lines[j];
        let ghost l = cs@.subrange(a as int, b as int);
        assert(l == ls[j as int]);
        let ghost before = out@;
        let ghost last_before = last@;
        format_one_line(&mut out, &mut last, &cs, a, b, cosmetic_indent);
        assert(before + format_body(ls, j as int, last_before, cosmetic_indent) =~= out@ + format_body(ls, j + 1, last@, cosmetic_indent));
        j += 1;
    }
    assert(format_body(ls, j as int, last@, cosmetic_indent) =~= Seq::<char>::empty());
    assert(out@ + Seq::<char>::empty() =~= out@);
    out
}

} // verus!

verus! {

// ---------------------------------------------------------------------------
// Entries
// ---------------------------------------------------------------------------

/// What a localisation entry holds.
pub struct LocEntryModel {
    pub key: Seq<char>,
    pub value: Seq<char>,
    pub range: Range,
    pub path: Seq<char>,
    pub value_start_col: u32,
    pub version: Option<Seq<char>>,
    pub version_range: Option<Range>,
}

pub open spec fn loc_entry_model(e: LocEntry) -> LocEntryModel {
    LocEntryModel {
        key: e.key@,
        value: e.value@,
        range: e.range,
        path: e.path@,
        value_start_col: e.value_start_col,
        version: match e.version {
            Some(v) => Some(v@),
            None => None,
        },
        version_range: e.version_range,
    }
}

pub open spec fn loc_entries_model(es: Seq<LocEntry>) -> Seq<LocEntryModel> {
    es.map_values(|e: LocEntry| loc_entry_model(e))
}

/// Characters of a localisation key.
pub open spec fn is_loc_key_char(c: char) -> bool {
    is_ascii_alnum(c) || c == '_' || c == '.' || c == '-'
}

pub open spec fn loc_key_end(cs: Seq<char>, i: int) -> int
    decreases cs.len() - i,
{
    if 0 <= i < cs.len() && is_loc_key_char(cs[i]) {
        loc_key_end(cs, i + 1)
    } else {
        i
    }
}

/// End of the run of spaces and tabs at `i`.
pub open spec fn blank_end(cs: Seq<char>, i: int) -> int
    decreases cs.len() - i,
{
    if 0 <= i < cs.len() && (cs[i] == ' ' || cs[i] == '\t') {
        blank_end(cs, i + 1)
    } else {
        i
    }
}

/// The value of an entry from index `j` (after its opening quote), with
/// the text `acc` already read: a quote that follows a backslash is part of
/// the value (the backslash stays); the first other quote closes it.
/// Returns the index of the closing quote and the value.
pub open spec fn loc_value_from(cs: Seq<char>, j: int, acc: Seq<char>) -> Option<(int, Seq<char>)>
    decreases cs.len() - j,
{
    if 0 <= j <= cs.len() {
        proof {
            lemma_find_char(cs, '"', j);
        }
        match find_char(cs, '"', j) {
            Some(q) => {
                let acc2 = acc + cs.subrange(j, q);
                if acc2.len() > 0 && acc2.last() == '\\' {
                    loc_value_from(cs, q + 1, acc2.push('"'))
                } else {
                    Some((q, acc2))
                }
            },
            None => None,
        }
    } else {
        None
    }
}

/// An entry at `p`: whitespace, `key:`, an optional version number, spaces,
/// and a quoted value.  Returns the index after the closing quote.
pub open spec fn loc_entry_at(cs: Seq<char>, p: int, path: Seq<char>) -> Option<(int, LocEntryModel)> {
    let s = ws_end(cs, p);
    let ke = loc_key_end(cs, s);
    if ke > s && ke < cs.len() && cs[ke] == ':' {
        let ve = digits_end(cs, ke + 1);
        let sp = blank_end(cs, ve);
        if sp < cs.len() && cs[sp] == '"' {
            match loc_value_from(cs, sp + 1, Seq::empty()) {
                Some((q, v)) => Some((q + 1, LocEntryModel {
                    key: cs.subrange(s, ke),
                    value: v,
                    range: flat_range(cs, s, ke),
                    path,
                    value_start_col: col_at(cs, sp + 1) as u32,
                    version: if ve > ke + 1 { Some(cs.subrange(ke + 1, ve)) } else { None },
                    version_range: if ve > ke + 1 { Some(flat_range(cs, ke + 1, ve)) } else { None },
                })),
                None => None,
            }
        } else {
            None
        }
    } else {
        None
    }
}

/// Index of the first CR or LF at or after `i`.
pub open spec fn line_break_from(cs: Seq<char>, i: int) -> Option<int>
    decreases cs.len() - i,
{
    if 0 <= i < cs.len() {
        if cs[i] == '\r' || cs[i] == '\n' {
            Some(i)
        } else {
            line_break_from(cs, i + 1)
        }
    } else {
        None
    }
}

/// Past the end of the line at `p` and its line ending (LF or CR LF); none
/// at the end of the input or at a lone CR.
pub open spec fn line_skip(cs: Seq<char>, p: int) -> Option<int> {
    match line_break_from(cs, p) {
        Some(k) => if cs[k] == '\n' {
            Some(k + 1)
        } else if k + 1 < cs.len() && cs[k + 1] == '\n' {
            Some(k + 2)
        } else {
            None
        },
        None => None,
    }
}

/// The entries from `p` on: where an entry does not parse, its line is
/// skipped.
pub open spec fn loc_entries_from(cs: Seq<char>, p: int, path: Seq<char>) -> Seq<LocEntryModel>
    decreases cs.len() - p,
{
    if 0 <= p < cs.len() {
        match loc_entry_at(cs, p, path) {
            Some((e, m)) => if p < e <= cs.len() {
                seq![m] + loc_entries_from(cs, e, path)
            } else {
                Seq::empty()
            },
            None => match line_skip(cs, p) {
                Some(q) => if p < q <= cs.len() {
                    loc_entries_from(cs, q, path)
                } else {
                    Seq::empty()
                },
                None => Seq::empty(),
            },
        }
    } else {
        Seq::empty()
    }
}

/// The language header, line by line from `i`: the first line that trimmed
/// starts with `l_` and holds a colon; returns the index after its first
/// colon and the trimmed text before it.
pub open spec fn header_from(cs: Seq<char>, i: int) -> Option<(int, Seq<char>)>
    decreases cs.len() - i,
{
    if 0 <= i < cs.len() {
        proof {
            lemma_newline_from(cs, i);
        }
        let e = first_line_end(cs, i);
        let t = trim(cs.subrange(i, e));
        if t.len() >= 2 && t[0] == 'l' && t[1] == '_' && find_char(t, ':', 0) is Some {
            match find_char(cs, ':', i) {
                Some(c) => Some((c + 1, trim(cs.subrange(i, c)))),
                None => None,
            }
        } else {
            header_from(cs, if e < cs.len() { e + 1 } else { cs.len() as int })
        }
    } else {
        None
    }
}

/// Index of the entry with key `k` in `m`, from `i` on.
pub open spec fn key_index(m: Seq<LocEntryModel>, k: Seq<char>, i: int) -> Option<int>
    decreases m.len() - i,
{
    if 0 <= i < m.len() {
        if m[i].key == k {
            Some(i)
        } else {
            key_index(m, k, i + 1)
        }
    } else {
        None
    }
}

/// A map insertion: the entry replaces the one with its key, or comes last.
pub open spec fn insert_entry(m: Seq<LocEntryModel>, e: LocEntryModel) -> Seq<LocEntryModel> {
    match key_index(m, e.key, 0) {
        Some(i) => m.update(i, e),
        None => m.push(e),
    }
}

/// The entries inserted one after the other.
pub open spec fn insert_all(es: Seq<LocEntryModel>) -> Seq<LocEntryModel>
    decreases es.len(),
{
    if es.len() == 0 {
        Seq::empty()
    } else {
        insert_entry(insert_all(es.drop_last()), es.last())
    }
}

pub open spec fn distinct_keys(m: Seq<LocEntryModel>) -> bool {
    forall|i: int, j: int| 0 <= i < j < m.len() ==> #[trigger] m[i].key != #[trigger] m[j].key
}

} // verus!

verus! {

pub(crate) proof fn lemma_key_index(m: Seq<LocEntryModel>, k: Seq<char>, i: int)
    requires
        0 <= i <= m.len(),
    ensures
        key_index(m, k, i) matches Some(x) ==> i <= x < m.len() && m[x].key == k,
        key_index(m, k, i) is None ==> forall|j: int| i <= j < m.len() ==> #[trigger] m[j].key != k,
    decreases m.len() - i,
{
    if i < m.len() && m[i].key != k {
        lemma_key_index(m, k, i + 1);
    }
}

/// Inserts `e` into the entries `map`, replacing the entry with its key.
pub(crate) fn insert_loc(map: &mut Vec<LocEntry>, e: LocEntry)
    ensures
        loc_entries_model(final(map)@) == insert_entry(loc_entries_model(old(map)@), loc_entry_model(e)),
        distinct_keys(loc_entries_model(old(map)@)) ==> distinct_keys(loc_entries_model(final(map)@)),
{
    let ghost m = loc_entries_model(map@);
    proof {
        lemma_key_index(m, e.key@, 0);
    }
    let mut k: usize = 0;
    while k < map.len()
        invariant
            k <= map@.len(),
            m == loc_entries_model(map@),
            map@ == old(map)@,
            key_index(m, e.key@, 0) == key_index(m, e.key@, k as int),
        decreases map.len() - k,
    {
        if crate::text::str_is(map[k].key.as_str(), e.key.as_str()) {
            proof {
                lemma_key_index(m, e.key@, 0);
            }
            let ghost em = loc_entry_model(e);
            map.set(k, e);
            assert(loc_entries_model(map@) =~= m.update(k as int, em));
            return;
        }
        k += 1;
    }
    let ghost em = loc_entry_model(e);
    map.push(e);
    assert(loc_entries_model(map@) =~= m.push(em));
    proof {
        lemma_key_index(m, em.key, 0);
    }
}

/// The key of an entry at `i`.
fn scan_loc_key(src: &Src, i: usize) -> (r: usize)
    requires
        src.wf(),
        i <= src.cs@.len(),
    ensures
        r == loc_key_end(src.cs@, i as int),
        i <= r <= src.cs@.len(),
        forall|k: int| i <= k < r ==> #[trigger] is_loc_key_char(src.cs@[k]),
{
    let mut j = i;
    while j < src.cs.len() && (('0' <= src.cs[j] && src.cs[j] <= '9') || ('a' <= src.cs[j] && src.cs[j] <= 'z')
        || ('A' <= src.cs[j] && src.cs[j] <= 'Z') || src.cs[j] == '_' || src.cs[j] == '.' || src.cs[j] == '-')
        invariant
            i <= j <= src.cs@.len(),
            loc_key_end(src.cs@, j as int) == loc_key_end(src.cs@, i as int),
            forall|k: int| i <= k < j ==> #[trigger] is_loc_key_char(src.cs@[k]),
        decreases src.cs@.len() - j,
    {
        j += 1;
    }
    j
}

fn scan_blank(src: &Src, i: usize) -> (r: usize)
    requires
        src.wf(),
        i <= src.cs@.len(),
    ensures
        r == blank_end(src.cs@, i as int),
        i <= r <= src.cs@.len(),
{
    let mut j = i;
    while j < src.cs.len() && (src.cs[j] == ' ' || src.cs[j] == '\t')
        invariant
            i <= j <= src.cs@.len(),
            blank_end(src.cs@, j as int) == blank_end(src.cs@, i as int),
        decreases src.cs@.len() - j,
    {
        j += 1;
    }
    j
}

/// The value of an entry from `j0`, after its opening quote.
fn scan_loc_value(src: &Src, j0: usize) -> (r: Option<(usize, String)>)
    requires
        src.wf(),
        j0 <= src.cs@.len(),
    ensures
        match loc_value_from(src.cs@, j0 as int, Seq::empty()) {
            Some((q, v)) => r matches Some((q2, s)) && q2 == q && s@ == v && j0 <= q < src.cs@.len(),
            None => r is None,
        },
{
    let ghost cs = src.cs@;
    let mut s = String::new();
    let mut j = j0;
    let mut ends_in_backslash = false;
    loop
        invariant
            src.wf(),
            cs == src.cs@,
            j0 <= j <= cs.len(),
            loc_value_from(cs, j0 as int, Seq::empty()) == loc_value_from(cs, j as int, s@),
            ends_in_backslash == (s@.len() > 0 && s@.last() == '\\'),
        decreases cs.len() - j,
    {
        let mut k = j;
        while k < src.cs.len() && src.cs[k] != '"'
            invariant
                j <= k <= cs.len(),
                cs == src.cs@,
                find_char(cs, '"', k as int) == find_char(cs, '"', j as int),
            decreases cs.len() - k,
        {
            k += 1;
        }
        proof {
            lemma_find_char(cs, '"', j as int);
        }
        if k >= src.cs.len() {
            return None;
        }
        let ghost before = s@;
        crate::text::push_range(&mut s, &src.cs, j, k);
        if k > j {
            ends_in_backslash = src.cs[k - 1] == '\\';
        }
        assert(s@ == before + cs.subrange(j as int, k as int));
        if ends_in_backslash {
            push_char(&mut s, '"');
            ends_in_backslash = false;
            j = k + 1;
        } else {
            return Some((k, s));
        }
    }
}

/// An entry at `p`.
fn parse_loc_entry(src: &Src, p: usize, path: &str) -> (r: Option<(usize, LocEntry)>)
    requires
        src.wf(),
        p <= src.cs@.len(),
    ensures
        match loc_entry_at(src.cs@, p as int, path@) {
            Some((e, m)) => r matches Some((e2, ent)) && e2 == e && loc_entry_model(ent) == m && p < e <= src.cs@.len(),
            None => r is None,
        },
{
    let ghost cs = src.cs@;
    let s = scan_ws(src, p);
    let ke = scan_loc_key(src, s);
    if !(ke > s && ke < src.cs.len() && src.cs[ke] == ':') {
        return None;
    }
    let ve = scan_digits_from(src, ke + 1);
    proof {
        lemma_digits_end(cs, ke + 1);
    }
    let sp = scan_blank(src, ve);
    if !(sp < src.cs.len() && src.cs[sp] == '"') {
        return None;
    }
    let (q, value) = match scan_loc_value(src, sp + 1) {
        Some(x) => x,
        None => {
            return None;
        },
    };
    let mut key = String::new();
    crate::text::push_range(&mut key, &src.cs, s, ke);
    let (version, version_range) = if ve > ke + 1 {
        let mut v = String::new();
        crate::text::push_range(&mut v, &src.cs, ke + 1, ve);
        (Some(v), Some(src.flat(ke + 1, ve)))
    } else {
        (None, None)
    };
    let (_, value_start_col) = src.at(sp + 1);
    assert forall|k: int| s <= k < ke implies src.cs@[k] != '\n' by {
        assert(is_loc_key_char(src.cs@[k]));
    }
    let entry = LocEntry {
        key,
        value,
        range: src.flat(s, ke),
        path: literal(path),
        value_start_col,
        version,
        version_range,
    };
    Some((q + 1, entry))
}

} // verus!

verus! {

/// Past the line ending of the line at `p`.
fn skip_loc_line(src: &Src, p: usize) -> (r: Option<usize>)
    requires
        src.wf(),
        p <= src.cs@.len(),
    ensures
        match line_skip(src.cs@, p as int) {
            Some(q) => r == Some(q as usize) && p < q <= src.cs@.len(),
            None => r is None,
        },
{
    let mut k = p;
    while k < src.cs.len() && src.cs[k] != '\r' && src.cs[k] != '\n'
        invariant
            p <= k <= src.cs@.len(),
            line_break_from(src.cs@, k as int) == line_break_from(src.cs@, p as int),
        decreases src.cs@.len() - k,
    {
        k += 1;
    }
    if k >= src.cs.len() {
        None
    } else if src.cs[k] == '\n' {
        Some(k + 1)
    } else if k + 1 < src.cs.len() && src.cs[k + 1] == '\n' {
        Some(k + 2)
    } else {
        None
    }
}

/// All entries from `p0` on, inserted one after the other.
fn parse_loc_entries(src: &Src, p0: usize, path: &str) -> (r: Vec<LocEntry>)
    requires
        src.wf(),
        p0 <= src.cs@.len(),
    ensures
        loc_entries_model(r@) == insert_all(loc_entries_from(src.cs@, p0 as int, path@)),
        distinct_keys(loc_entries_model(r@)),
{
    let ghost cs = src.cs@;
    let mut map: Vec<LocEntry> = Vec::new();
    let ghost mut parsed: Seq<LocEntryModel> = Seq::empty();
    let mut p = p0;
    assert(loc_entries_model(map@) =~= Seq::<LocEntryModel>::empty());
    loop
        invariant
            src.wf(),
            cs == src.cs@,
            p0 <= p <= cs.len(),
            loc_entries_from(cs, p0 as int, path@) == parsed + loc_entries_from(cs, p as int, path@),
            loc_entries_model(map@) == insert_all(parsed),
            distinct_keys(loc_entries_model(map@)),
        decreases cs.len() - p,
    {
        if p >= src.cs.len() {
            assert(parsed + loc_entries_from(cs, p as int, path@) =~= parsed);
            return map;
        }
        match parse_loc_entry(src, p, path) {
            Some((e, ent)) => {
                let ghost m = loc_entry_model(ent);
                insert_loc(&mut map, ent);
                proof {
                    assert(parsed.push(m).drop_last() =~= parsed);
                    assert(parsed + (seq![m] + loc_entries_from(cs, e as int, path@)) =~= parsed.push(m)
                        + loc_entries_from(cs, e as int, path@));
                    parsed = parsed.push(m);
                }
                p = e;
            },
            None => match skip_loc_line(src, p) {
                Some(q) => {
                    p = q;
                },
                None => {
                    assert(parsed + Seq::<LocEntryModel>::empty() =~= parsed);
                    return map;
                },
            },
        }
    }
}

/// The language header: the index after its colon and the language.
fn find_loc_header(src: &Src) -> (r: Option<(usize, String)>)
    requires
        src.wf(),
    ensures
        match header_from(src.cs@, 0) {
            Some((p, lang)) => r matches Some((p2, l)) && p2 == p && l@ == lang && p <= src.cs@.len(),
            None => r is None,
        },
{
    let ghost cs = src.cs@;
    let n = src.cs.len();
    let mut i: usize = 0;
    while i < n
        invariant
            src.wf(),
            cs == src.cs@,
            n == cs.len(),
            i <= n,
            header_from(cs, i as int) == header_from(cs, 0),
        decreases n - i,
    {
        let mut e = i;
        while e < n && src.cs[e] != '\n'
            invariant
                i <= e <= n,
                n == cs.len(),
                cs == src.cs@,
                newline_from(cs, e as int) == newline_from(cs, i as int),
            decreases n - e,
        {
            e += 1;
        }
        assert(e == first_line_end(cs, i as int));
        let (lo, hi) = trim_bounds(&src.cs, i, e);
        if hi - lo >= 2 && src.cs[lo] == 'l' && src.cs[lo + 1] == '_' && find_char_in(&src.cs, ':', lo, hi).is_some() {
            let mut c = i;
            while c < n && src.cs[c] != ':'
                invariant
                    i <= c <= n,
                    n == cs.len(),
                    cs == src.cs@,
                    find_char(cs, ':', c as int) == find_char(cs, ':', i as int),
                decreases n - c,
            {
                c += 1;
            }
            if c >= n {
                return None;
            }
            let (la, lb) = trim_bounds(&src.cs, i, c);
            let mut lang = String::new();
            crate::text::push_range(&mut lang, &src.cs, la, lb);
            return Some((c + 1, lang));
        }
        i = if e < n { e + 1 } else { n };
    }
    None
}

/// Parses a localisation file: the structure and quoting diagnostics, the
/// language of its header, and its entries by key (a later entry with the
/// same key replaces an earlier one; entries come in the order in which
/// their keys first appear).  A line where no entry parses is skipped.
/// Without a header there are no entries and no language.
pub fn parse_loc_file(input: &str, path: &str) -> (r: (Vec<LocEntry>, Vec<LocDiagnostic>, Option<String>))
    requires
        input.spec_bytes().len() <= u32::MAX,
    ensures
        diags_model(r.1@) == structure_diags(lines_of(strip_bom(input@))) + quote_diags_from(
            lines_of(strip_bom(input@)),
            0,
        ),
        match header_from(strip_bom(input@), 0) {
            Some((p, lang)) => r.2 matches Some(l) && l@ == lang && loc_entries_model(r.0@) == insert_all(
                loc_entries_from(strip_bom(input@), p, path@),
            ),
            None => r.0@.len() == 0 && r.2 is None,
        },
        distinct_keys(loc_entries_model(r.0@)),
{
    let mut diagnostics = validate_loc_file_structure(input);
    let mut quotes = validate_unescaped_quotes_in_file(input);
    let ghost d1 = diagnostics@;
    let ghost d2 = quotes@;
    diagnostics.append(&mut quotes);
    assert(diags_model(diagnostics@) =~= diags_model(d1) + diags_model(d2));
    let cs = chars_without_bom(input);
    proof {
        lemma_strip_bom_bytes(input@);
        lemma_utf8_offset_full(cs@);
    }
    let src = Src::new(cs);
    match find_loc_header(&src) {
        Some((p, language)) => {
            let map = parse_loc_entries(&src, p, path);
            (map, diagnostics, Some(language))
        },
        None => {
            let map: Vec<LocEntry> = Vec::new();
            assert(distinct_keys(loc_entries_model(map@)));
            (map, diagnostics, None)
        },
    }
}

} // verus!

verus! {

proof fn lemma_no_header_scan(ls: Seq<Seq<char>>, j: int)
    requires
        0 <= j,
        forall|i: int| 0 <= i < ls.len() ==> !is_header_line(#[trigger] trim(ls[i])),
    ensures
        header_scan(ls, j) is None,
    decreases ls.len() - j,
{
    if j < ls.len() {
        lemma_no_header_scan(ls, j + 1);
    }
}

/// Formatting a file with no `l_…:` header line gives it back unchanged: no
/// byte-order mark is added and nothing is reformatted.
pub proof fn law_format_without_header_is_identity(input: Seq<char>, cosmetic: bool)
    requires
        forall|i: int| 0 <= i < lines_of(input).len() ==> !is_header_line(#[trigger] trim(lines_of(input)[i])),
    ensures
        formatted_loc(input, cosmetic) == input,
{
    lemma_no_header_scan(lines_of(input), 0);
}

/// A file without a byte-order mark that has a header line is formatted to
/// start with one.
pub proof fn law_formatted_starts_with_bom(input: Seq<char>, cosmetic: bool)
    requires
        !(input.len() > 0 && input[0] == '\u{feff}'),
        header_scan(lines_of(input), 0) is Some,
    ensures
        formatted_loc(input, cosmetic).len() > 0,
        formatted_loc(input, cosmetic)[0] == '\u{feff}',
{
    let ls = lines_of(input);
    let (head, k) = header_scan(ls, 0)->0;
    let body = format_body(ls, k, Seq::empty(), cosmetic);
    assert(formatted_loc(input, cosmetic) == seq!['\u{feff}'] + head + body);
}

/// The structure and quote checks read the file after one leading
/// byte-order mark: adding one to a file without one changes nothing.
pub proof fn law_checks_ignore_one_bom(s: Seq<char>)
    requires
        !(s.len() > 0 && s[0] == '\u{feff}'),
    ensures
        structure_diags(lines_of(strip_bom(seq!['\u{feff}'] + s))) == structure_diags(lines_of(strip_bom(s))),
        quote_diags_from(lines_of(strip_bom(seq!['\u{feff}'] + s)), 0) == quote_diags_from(lines_of(strip_bom(s)), 0),
{
    assert((seq!['\u{feff}'] + s).drop_first() =~= s);
}

} // verus!

verus! {

proof fn lemma_width_pos(c: char)
    ensures
        crate::text::utf8_width(c) >= 1,
{
    crate::text::lemma_encode_single(c);
    vstd::utf8::char_is_scalar(c);
}

/// The quote offsets from `k` rise strictly and lie before the line's end.
proof fn lemma_quote_offsets_rise(l: Seq<char>, k: int, prev: char)
    requires
        0 <= k <= l.len(),
    ensures
        forall|a: int| 0 <= a < quote_offsets(l, k, prev).len() ==> utf8_offset(l, k) <= #[trigger] quote_offsets(l, k, prev)[a] < utf8_offset(l, l.len() as int),
        forall|a: int, b: int| 0 <= a < b < quote_offsets(l, k, prev).len() ==> #[trigger] quote_offsets(l, k, prev)[a] < #[trigger] quote_offsets(l, k, prev)[b],
    decreases l.len() - k,
{
    if k < l.len() && l[k] != '#' {
        lemma_quote_offsets_rise(l, k + 1, l[k]);
        crate::text::lemma_utf8_offset_step(l, k);
        lemma_width_pos(l[k]);
        crate::text::lemma_utf8_offset_mono(l, k + 1, l.len() as int);
        let rest = quote_offsets(l, k + 1, l[k]);
        if l[k] == '"' && prev != '\\' {
            let q = seq![utf8_offset(l, k)] + rest;
            assert forall|a: int| 0 <= a < q.len() implies utf8_offset(l, k) <= #[trigger] q[a] < utf8_offset(l, l.len() as int) by {
                if a > 0 {
                    assert(q[a] == rest[a - 1]);
                }
            }
            assert forall|a: int, b: int| 0 <= a < b < q.len() implies #[trigger] q[a] < #[trigger] q[b] by {
                assert(q[b] == rest[b - 1]);
                if a > 0 {
                    assert(q[a] == rest[a - 1]);
                }
            }
        }
    }
}

/// The quote check never flags a line's first or last unescaped quote: a
/// line with `n` of them (before any `#`) gets `n - 2` warnings, none at the
/// first or the last; the warnings stand, in order, one byte wide, at
/// exactly the inner unescaped quotes.
pub proof fn law_quote_check_spares_first_and_last(j: int, l: Seq<char>)
    requires
        utf8_offset(l, l.len() as int) <= u32::MAX,
        0 <= j <= u32::MAX,
    ensures
        ({
            let q = quote_offsets(l, 0, '\0');
            let ds = quote_line_diags(j, l);
            &&& ds.len() == (if skipped_line(l) || q.len() <= 2 { 0 } else { q.len() - 2 })
            &&& forall|i: int| 0 <= i < ds.len() ==> (#[trigger] ds[i]).range.start_col as int != q[0]
                && ds[i].range.start_col as int != q.last()
            &&& forall|i: int| 0 <= i < ds.len() ==> (#[trigger] ds[i]).range.start_col as int == q[i + 1]
                && ds[i].range.end_col as int == q[i + 1] + 1 && ds[i].range.start_line as int == j
                && ds[i].range.end_line as int == j && ds[i].code == Some("unescaped_quote"@)
        }),
{
    let q = quote_offsets(l, 0, '\0');
    lemma_quote_offsets_rise(l, 0, '\0');
    let ds = quote_line_diags(j, l);
    if !(skipped_line(l) || q.len() <= 2) {
        assert forall|i: int| 0 <= i < ds.len() implies (#[trigger] ds[i]).range.start_col as int != q[0]
            && ds[i].range.start_col as int != q.last() by {
            let x = q.subrange(1, q.len() - 1)[i];
            assert(x == q[i + 1]);
            assert(ds[i].range.start_col == x as u32);
            assert(q[0] < x < q[q.len() - 1]);
        }
        assert forall|i: int| 0 <= i < ds.len() implies (#[trigger] ds[i]).range.start_col as int == q[i + 1]
            && ds[i].range.end_col as int == q[i + 1] + 1 && ds[i].range.start_line as int == j
            && ds[i].range.end_line as int == j && ds[i].code == Some("unescaped_quote"@) by {
            let x = q.subrange(1, q.len() - 1)[i];
            assert(x == q[i + 1]);
            assert(0 <= x < utf8_offset(l, l.len() as int));
            assert(ds[i].range.start_col == x as u32);
            assert(ds[i].range.end_col == (x + 1) as u32);
        }
    }
}

/// The language of a header names a language when it starts with `l_`.
pub open spec fn names_language(lang: Seq<char>) -> bool {
    lang.len() >= 2 && lang[0] == 'l' && lang[1] == '_'
}

proof fn lemma_valid_languages_start_with_l(lang: Seq<char>)
    requires
        valid_language(lang),
    ensures
        names_language(lang),
{
    reveal_strlit("l_english");
    reveal_strlit("l_braz_por");
    reveal_strlit("l_french");
    reveal_strlit("l_german");
    reveal_strlit("l_polish");
    reveal_strlit("l_russian");
    reveal_strlit("l_spanish");
    reveal_strlit("l_japanese");
    reveal_strlit("l_simp_chinese");
    reveal_strlit("l_korean");
}

proof fn lemma_first_header_line(ls: Seq<Seq<char>>, j: int)
    requires
        0 <= j,
    ensures
        first_header_line(ls, j) matches Some(k) ==> j <= k < ls.len() && !skipped_line(ls[k]),
    decreases ls.len() - j,
{
    if j < ls.len() && !(!skipped_line(ls[j]) && find_char(trim(ls[j]), ':', 0) is Some) {
        lemma_first_header_line(ls, j + 1);
    }
}

/// The structure check of a localisation file gives at most one finding:
/// the missing-header error when the file has content but its first content
/// line with a colon names no `l_` language (or there is no such line), or
/// the unknown-language warning when that line names an `l_` language that
/// is not one of the ten supported ones.
pub proof fn law_structure_gives_at_most_one_finding(ls: Seq<Seq<char>>)
    ensures
        ({
            let ds = structure_diags(ls);
            &&& ds.len() <= 1
            &&& (ds.len() == 1 && ds[0] == missing_header_diag()) <==> has_content_from(ls, 0) && match first_header_line(ls, 0) {
                Some(j) => !names_language(header_language(ls[j])),
                None => true,
            }
            &&& (ds.len() == 1 && ds[0].code == Some("unknown_language"@)) <==> match first_header_line(ls, 0) {
                Some(j) => names_language(header_language(ls[j])) && !valid_language(header_language(ls[j])),
                None => false,
            }
        }),
{
    reveal_strlit("unknown_language");
    reveal_strlit("missing_language_header");
    assert("unknown_language"@[1] != "missing_language_header"@[1]);
    lemma_first_header_line(ls, 0);
    match first_header_line(ls, 0) {
        Some(j) => {
            assert(has_content_from(ls, 0)) by {
                assert(!skipped_line(ls[j]));
            }
            let lang = header_language(ls[j]);
            if valid_language(lang) {
                lemma_valid_languages_start_with_l(lang);
            }
        },
        None => {},
    }
}

/// One line after the header, formatted: a blank line is kept as it is; any
/// other line starts with one tab, or two for a variant entry when
/// `cosmetic`, and then a character that is not whitespace; every formatted
/// line ends with a line feed.
pub proof fn law_formatted_line_shape(l: Seq<char>, last: Seq<char>, cosmetic: bool)
    ensures
        ({
            let o = format_line(l, last, cosmetic).0;
            &&& o.len() > 0 && o.last() == '\n'
            &&& trim(l).len() == 0 ==> o == l + seq!['\n']
            &&& trim(l).len() > 0 ==> {
                &&& o.len() >= 2 && o[0] == '\t'
                &&& (o[1] == '\t' ==> cosmetic && o.len() >= 3 && !crate::text::unicode_whitespace(o[2]))
                &&& (o[1] != '\t' ==> !crate::text::unicode_whitespace(o[1]))
            }
        }),
{
    let t = trim(l);
    crate::csv::lemma_trim(l);
    if t.len() > 0 && t[0] != '#' {
        match find_char(t, ':', 0) {
            Some(p) => {
                let key = trim(t.subrange(0, p));
                crate::csv::lemma_trim(t.subrange(0, p));
                let variant = cosmetic && is_variant(key, last);
                let indent: Seq<char> = if variant { seq!['\t', '\t'] } else { seq!['\t'] };
                let (version, rest) = version_split(t.subrange(p + 1, t.len() as int));
                let o = indent + key + seq![':'] + version + seq![':', ' '] + trim(rest) + seq!['\n'];
                assert(o[0] == '\t');
                if key.len() > 0 {
                    assert(o[indent.len() as int] == key[0]);
                } else {
                    assert(o[indent.len() as int] == ':');
                }
                assert(o.last() == '\n');
            },
            None => {},
        }
    }
}

proof fn lemma_header_scan_ends(ls: Seq<Seq<char>>, j: int)
    requires
        0 <= j,
    ensures
        header_scan(ls, j) matches Some((h, k)) ==> h.len() > 0 && h.last() == '\n' && j < k <= ls.len(),
    decreases ls.len() - j,
{
    if j < ls.len() {
        lemma_header_scan_ends(ls, j + 1);
    }
}

proof fn lemma_body_ends(ls: Seq<Seq<char>>, j: int, last: Seq<char>, cosmetic: bool)
    requires
        0 <= j,
    ensures
        format_body(ls, j, last, cosmetic).len() > 0 ==> format_body(ls, j, last, cosmetic).last() == '\n',
    decreases ls.len() - j,
{
    if j < ls.len() {
        let (o, next) = format_line(ls[j], last, cosmetic);
        law_formatted_line_shape(ls[j], last, cosmetic);
        lemma_body_ends(ls, j + 1, next, cosmetic);
    }
}

/// A file with a header line is formatted to end with a line feed.
pub proof fn law_formatted_ends_with_newline(input: Seq<char>, cosmetic: bool)
    requires
        header_scan(lines_of(input), 0) is Some,
    ensures
        formatted_loc(input, cosmetic).len() > 0,
        formatted_loc(input, cosmetic).last() == '\n',
{
    let ls = lines_of(input);
    lemma_header_scan_ends(ls, 0);
    let (head, k) = header_scan(ls, 0)->0;
    lemma_body_ends(ls, k, Seq::empty(), cosmetic);
    let bom: Seq<char> = if input.len() > 0 && input[0] == '\u{feff}' { Seq::empty() } else { seq!['\u{feff}'] };
    let body = format_body(ls, k, Seq::empty(), cosmetic);
    assert(formatted_loc(input, cosmetic) == bom + head + body);
    if body.len() == 0 {
        assert(bom + head + body =~= bom + head);
    }
}

} // verus!

verus! {

/// A character that may stand in a localisation key: an ASCII letter or
/// digit, `_`, `.` or `-`.
pub open spec fn key_char_of_file(c: char) -> bool {
    ('a' <= c && c <= 'z') || ('A' <= c && c <= 'Z') || ('0' <= c && c <= '9') || c == '_' || c == '.' || c == '-'
}

proof fn lemma_key_run(cs: Seq<char>, a: int, b: int)
    requires
        0 <= a <= b < cs.len(),
        forall|i: int| a <= i < b ==> key_char_of_file(#[trigger] cs[i]),
        cs[b] == ':',
    ensures
        loc_key_end(cs, a) == b,
    decreases b - a,
{
    if a < b {
        lemma_key_run(cs, a + 1, b);
    }
}

proof fn lemma_find_at(t: Seq<char>, c: char, k: int, j: int)
    requires
        0 <= k <= j < t.len(),
        t[j] == c,
        forall|m: int| k <= m < j ==> #[trigger] t[m] != c,
    ensures
        find_char(t, c, k) == Some(j),
{
    lemma_find_char(t, c, k);
}

proof fn lemma_digit_run(cs: Seq<char>, a: int, b: int)
    requires
        0 <= a <= b < cs.len(),
        forall|i: int| a <= i < b ==> '0' <= #[trigger] cs[i] && cs[i] <= '9',
        !('0' <= cs[b] && cs[b] <= '9'),
    ensures
        digits_end(cs, a) == b,
    decreases b - a,
{
    if a < b {
        lemma_digit_run(cs, a + 1, b);
    }
}

/// An entry line `KEY:N "V"` after the language header (`N` a run of
/// digits, possibly empty) reads as one entry whose key is exactly `KEY`,
/// whose value is exactly `V` and whose version is `N` (none when empty),
/// for every key made of ASCII letters, digits, `_`, `.` and `-` (so a
/// dotted key such as `news.1.t` is read whole) and every value without
/// quotes or backslashes.
pub proof fn law_entry_line_gives_its_key_and_value(key: Seq<char>, d: Seq<char>, val: Seq<char>, path: Seq<char>)
    requires
        key.len() > 0,
        forall|i: int| 0 <= i < key.len() ==> key_char_of_file(#[trigger] key[i]),
        forall|i: int| 0 <= i < d.len() ==> '0' <= #[trigger] d[i] && d[i] <= '9',
        forall|i: int| 0 <= i < val.len() ==> #[trigger] val[i] != '"' && val[i] != '\\',
    ensures
        ({
            let input = "l_english:\n "@ + key + seq![':'] + d + " \""@ + val + "\"\n"@;
            let es = insert_all(loc_entries_from(strip_bom(input), 10, path));
            &&& header_from(strip_bom(input), 0) == Some((10int, "l_english"@))
            &&& es.len() == 1
            &&& es[0].key == key
            &&& es[0].value == val
            &&& es[0].version == if d.len() > 0 { Some(d) } else { None }
        }),
{
    reveal_strlit("l_english:\n ");
    reveal_strlit(" \"");
    reveal_strlit("\"\n");
    reveal_strlit("l_english");
    let h = "l_english:\n "@;
    let m = " \""@;
    let e = "\"\n"@;
    let cs = h + key + seq![':'] + d + m + val + e;
    let kl = key.len() as int;
    let dl = d.len() as int;
    let vl = val.len() as int;
    let ke = 12 + kl;
    let ve = ke + 1 + dl;
    let q = ve + 2 + vl;
    let n = cs.len() as int;
    assert(n == q + 2);
    assert(forall|i: int| 0 <= i < 12 ==> cs[i] == h[i]);
    assert(forall|i: int| 0 <= i < kl ==> cs[12 + i] == key[i]);
    assert(cs[ke] == ':');
    assert(forall|i: int| 0 <= i < dl ==> cs[ke + 1 + i] == d[i]);
    assert(cs[ve] == ' ' && cs[ve + 1] == '"');
    assert(forall|i: int| 0 <= i < vl ==> cs[ve + 2 + i] == val[i]);
    assert(cs[q] == '"' && cs[q + 1] == '\n');
    assert(strip_bom(cs) == cs);
    // the header
    assert forall|i: int| 0 <= i < 10 implies #[trigger] cs[i] != '\n' by {
        assert(cs[i] == h[i]);
    }
    assert(cs[10] == '\n');
    lemma_newline_from(cs, 0);
    assert(newline_from(cs, 0) == Some(10int)) by {
        match newline_from(cs, 0) {
            Some(x) => {
                if x < 10 {
                    assert(cs[x] != '\n');
                }
            },
            None => {},
        }
    }
    let line = cs.subrange(0, 10);
    reveal_strlit("l_english:");
    assert forall|i: int| 0 <= i < 10 implies line[i] == "l_english:"@[i] by {
        assert(line[i] == h[i]);
    }
    assert(line =~= "l_english:"@);
    assert(trim(line) == line) by {
        assert(crate::text::trim_start(line) == line);
        assert(crate::text::trim_end(line) == line);
    }
    let t = trim(line);
    lemma_find_at(t, ':', 0, 9);
    assert forall|i: int| 0 <= i < 9 implies #[trigger] cs[i] != ':' by {
        assert(cs[i] == h[i]);
    }
    lemma_find_at(cs, ':', 0, 9);
    let lang = cs.subrange(0, 9);
    assert(lang =~= "l_english"@);
    assert(trim(lang) == lang) by {
        assert(crate::text::trim_start(lang) == lang);
        assert(crate::text::trim_end(lang) == lang);
    }
    assert(header_from(cs, 0) == Some((10int, "l_english"@)));
    // the entry
    assert(crate::script::is_multispace(cs[10]) && crate::script::is_multispace(cs[11]));
    assert(!crate::script::is_multispace(cs[12]));
    assert(ws_end(cs, 12) == 12);
    assert(ws_end(cs, 11) == 12);
    assert(ws_end(cs, 10) == 12);
    assert forall|i: int| 12 <= i < ke implies key_char_of_file(#[trigger] cs[i]) by {
        assert(cs[i] == key[i - 12]);
    }
    lemma_key_run(cs, 12, ke);
    assert forall|i: int| ke + 1 <= i < ve implies '0' <= #[trigger] cs[i] && cs[i] <= '9' by {
        assert(cs[i] == d[i - ke - 1]);
    }
    lemma_digit_run(cs, ke + 1, ve);
    assert(blank_end(cs, ve + 1) == ve + 1);
    assert(blank_end(cs, ve) == ve + 1);
    assert forall|i: int| ve + 2 <= i < q implies #[trigger] cs[i] != '"' by {
        assert(cs[i] == val[i - ve - 2]);
    }
    lemma_find_at(cs, '"', ve + 2, q);
    let acc2 = Seq::<char>::empty() + cs.subrange(ve + 2, q);
    assert(acc2 =~= val);
    assert(!(acc2.len() > 0 && acc2.last() == '\\')) by {
        if acc2.len() > 0 {
            assert(acc2.last() == val[vl - 1]);
        }
    }
    assert(loc_value_from(cs, ve + 2, Seq::empty()) == Some((q, val)));
    assert(cs.subrange(12, ke) =~= key);
    assert(cs.subrange(ke + 1, ve) =~= d);
    let ent = loc_entry_at(cs, 10, path);
    assert(ent matches Some((x, mm)) && x == q + 1 && mm.key == key && mm.value == val
        && mm.version == if dl > 0 { Some(d) } else { None });
    let mm = (ent->0).1;
    // nothing after it
    assert(ws_end(cs, n) == n);
    assert(ws_end(cs, q + 1) == n);
    assert(loc_key_end(cs, n) == n);
    assert(loc_entry_at(cs, q + 1, path) is None);
    assert(line_break_from(cs, q + 1) == Some(q + 1));
    assert(line_skip(cs, q + 1) == Some(n));
    assert(loc_entries_from(cs, n, path) == Seq::<LocEntryModel>::empty());
    assert(loc_entries_from(cs, q + 1, path) == Seq::<LocEntryModel>::empty());
    assert(loc_entries_from(cs, 10, path) == seq![mm] + Seq::<LocEntryModel>::empty());
    let es = loc_entries_from(cs, 10, path);
    assert(es =~= seq![mm]);
    assert(es.drop_last() =~= Seq::<LocEntryModel>::empty());
    assert(insert_all(es.drop_last()) == Seq::<LocEntryModel>::empty());
    assert(key_index(Seq::<LocEntryModel>::empty(), mm.key, 0) is None);
    assert(insert_all(es) =~= seq![mm]);
}

} // verus!
