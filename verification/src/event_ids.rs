//! The check of an event id `<namespace>.<integer>` where an event is
//! defined: the number must be an integer below 100000, and the namespace
//! must be declared before the event, in this file or in one that the game
//! loads earlier.  The id is split at its first `.`; an id without one is a
//! bare number, which needs no namespace.
use vstd::prelude::*;
use crate::ast::Range;
use crate::numtext::{digits_value, all_digits, digit_val, lower_seq, lemma_digits_append, lemma_pow10_positive, pow10};
use crate::text::{is_digit, decimal, u32_to_decimal, chars_of, append_str, push_chars, slice_chars, chars_equal};
use crate::rules::lower_chars;
use crate::portraits::strings_view;
use crate::findings::{RuleSeverity, RuleCode, RuleDiagnostic, RuleDiagModel, rule_diag_model, diags_model};

verus! {

/// The index of the first `.` of `s` at or after `i`, or the length of `s`.
pub open spec fn first_dot(s: Seq<char>, i: int) -> int
    decreases s.len() - i,
{
    if 0 <= i < s.len() {
        if s[i] == '.' {
            i
        } else {
            first_dot(s, i + 1)
        }
    } else {
        s.len() as int
    }
}

/// The namespace of an event id: what stands before its first `.`.
pub open spec fn id_namespace(id: Seq<char>) -> Seq<char> {
    let d = first_dot(id, 0);
    if d < id.len() {
        id.take(d)
    } else {
        Seq::empty()
    }
}

/// The number of an event id: what stands after its first `.`, or the
/// whole id when it has none.
pub open spec fn id_number(id: Seq<char>) -> Seq<char> {
    let d = first_dot(id, 0);
    if d < id.len() {
        id.skip(d + 1)
    } else {
        id
    }
}

/// `a` comes after `b` in the order of their characters, which is the order
/// of their UTF-8 bytes.
pub open spec fn text_after(a: Seq<char>, b: Seq<char>) -> bool
    decreases a.len(),
{
    if a.len() == 0 {
        false
    } else if b.len() == 0 {
        true
    } else if a[0] != b[0] {
        (a[0] as u32) > (b[0] as u32)
    } else {
        text_after(a.drop_first(), b.drop_first())
    }
}

/// Where a namespace is declared: the name as declared, the lower-case name
/// of the declaring file, and whether that file belongs to the base game.
pub struct NamespaceDecl {
    pub name: String,
    pub file_name: Option<String>,
    pub under_game: bool,
}

/// What the namespace check knows beyond the file walked: where the
/// namespaces are declared, the lower-case name of the file walked, and
/// whether it belongs to the base game.
pub struct NamespaceContext {
    pub declarations: Vec<NamespaceDecl>,
    pub file_name: Option<String>,
    pub under_game: bool,
}

pub struct NamespaceDeclModel {
    pub name: Seq<char>,
    pub file_name: Option<Seq<char>>,
    pub under_game: bool,
}

pub open spec fn opt_text(o: Option<String>) -> Option<Seq<char>> {
    match o {
        Some(s) => Some(s@),
        None => None,
    }
}

pub open spec fn decl_model(d: NamespaceDecl) -> NamespaceDeclModel {
    NamespaceDeclModel { name: d.name@, file_name: opt_text(d.file_name), under_game: d.under_game }
}

pub open spec fn decls_view(v: Seq<NamespaceDecl>) -> Seq<NamespaceDeclModel> {
    v.map_values(|d: NamespaceDecl| decl_model(d))
}

/// The first declaration of the name `name`.
pub open spec fn find_decl(ds: Seq<NamespaceDeclModel>, name: Seq<char>) -> Option<NamespaceDeclModel>
    decreases ds.len(),
{
    if ds.len() == 0 {
        None
    } else if ds[0].name == name {
        Some(ds[0])
    } else {
        find_decl(ds.drop_first(), name)
    }
}

/// The declaration of `ns`: under that name, else under its lower-case form.
pub open spec fn declaration(ds: Seq<NamespaceDeclModel>, ns: Seq<char>) -> Option<NamespaceDeclModel> {
    match find_decl(ds, ns) {
        Some(d) => Some(d),
        None => find_decl(ds, lower_seq(ns)),
    }
}

pub open spec fn id_finding(r: Range, sev: RuleSeverity, code: RuleCode, m: Seq<char>) -> RuleDiagModel {
    RuleDiagModel { range: r, severity: sev, code: Some(code), message: m, data: None }
}

pub open spec fn non_integer_message(id: Seq<char>, raw: Seq<char>) -> Seq<char> {
    "Event ID '"@ + id + "' has non-integer suffix '"@ + raw
        + "'. Event IDs must be in the format <namespace>.<integer> (e.g. 'my_event.123'). Non-integer IDs cause duplicate internal event IDs (all become ID 0)."@
}

pub open spec fn too_large_message(id: Seq<char>, n: nat) -> Seq<char> {
    "Event ID '"@ + id + "' uses numeric ID "@ + decimal(n)
        + ", which is >= 100000. This encroaches on other namespace's internal ID range and may cause duplicate ID conflicts."@
}

pub open spec fn undeclared_message(id: Seq<char>, ns: Seq<char>) -> Seq<char> {
    "Event ID '"@ + id + "' uses namespace '"@ + ns
        + "' which has not been declared. The event will not be registered by the game (log error: 'Malformed token: "@
        + id + "'). Add 'add_namespace = "@ + ns + "' before any events using this namespace."@
}

pub open spec fn mod_namespace_message(id: Seq<char>, ns: Seq<char>, file: Seq<char>) -> Seq<char> {
    "Event ID '"@ + id + "' uses namespace '"@ + ns + "' declared in mod file '"@ + file
        + "', but this file is from the base game. Vanilla/DLC files load BEFORE mod files, so this namespace is not available here. Use a namespace already declared in the base game instead."@
}

pub open spec fn declared_later_message(id: Seq<char>, ns: Seq<char>) -> Seq<char> {
    "Event ID '"@ + id + "' uses namespace '"@ + ns + "' which is declared LATER in this file. Move 'add_namespace = "@
        + ns + "' BEFORE this event definition. The game registers namespaces sequentially as it reads the file."@
}

pub open spec fn loads_after_message(id: Seq<char>, ns: Seq<char>, file: Seq<char>) -> Seq<char> {
    "Event ID '"@ + id + "' uses namespace '"@ + ns + "' which is declared in '"@ + file
        + "'. That file loads AFTER this one (ASCII filename order), so the namespace is not yet registered. Either move the 'add_namespace' declaration to a file that loads before this one, or add a declaration here before the event."@
}

/// The findings on the namespace `ns` of the event id `id`, given the
/// namespaces declared so far in this file (lower case), whether the file
/// lies under `events/`, the declarations of the workspace and the game, and
/// the lower-case name of this file and whether it belongs to the base game.
pub open spec fn namespace_findings(
    id: Seq<char>,
    ns: Seq<char>,
    seen: Seq<Seq<char>>,
    in_events_dir: bool,
    ds: Seq<NamespaceDeclModel>,
    cur_file: Option<Seq<char>>,
    cur_under_game: bool,
    r: Range,
) -> Seq<RuleDiagModel> {
    if ns.len() == 0 || all_digits(ns) || seen.contains(lower_seq(ns)) {
        Seq::empty()
    } else if !in_events_dir {
        if declaration(ds, ns) is None {
            seq![id_finding(r, RuleSeverity::Error, RuleCode::MissingEventNamespace, undeclared_message(id, ns))]
        } else {
            Seq::empty()
        }
    } else {
        match declaration(ds, ns) {
            None => seq![id_finding(r, RuleSeverity::Error, RuleCode::MissingEventNamespace, undeclared_message(id, ns))],
            Some(d) => if d.under_game && !cur_under_game {
                Seq::empty()
            } else if !d.under_game && cur_under_game {
                let label = match d.file_name {
                    Some(f) => f,
                    None => "other file"@,
                };
                seq![id_finding(r, RuleSeverity::Error, RuleCode::MissingEventNamespace, mod_namespace_message(id, ns, label))]
            } else {
                match (cur_file, d.file_name) {
                    (Some(c), Some(f)) => if f == c {
                        seq![id_finding(r, RuleSeverity::Error, RuleCode::MissingEventNamespace, declared_later_message(id, ns))]
                    } else if text_after(f, c) {
                        seq![id_finding(r, RuleSeverity::Error, RuleCode::MissingEventNamespace, loads_after_message(id, ns, f))]
                    } else {
                        Seq::empty()
                    },
                    _ => Seq::empty(),
                }
            },
        }
    }
}

/// The findings on the id `id` of an event defined at the top of a file:
/// a number that is not an integer (then nothing more), a number of 100000
/// or more (one that fits in 32 bits), and the namespace.
pub open spec fn event_id_findings(
    id: Seq<char>,
    seen: Seq<Seq<char>>,
    in_events_dir: bool,
    ds: Seq<NamespaceDeclModel>,
    cur_file: Option<Seq<char>>,
    cur_under_game: bool,
    r: Range,
) -> Seq<RuleDiagModel> {
    let ns = id_namespace(id);
    let raw = id_number(id);
    if id.len() == 0 {
        Seq::empty()
    } else if !(raw.len() > 0 && all_digits(raw)) {
        seq![id_finding(r, RuleSeverity::Warning, RuleCode::NonIntegerEventId, non_integer_message(id, raw))]
    } else {
        (if 100000 <= digits_value(raw) <= u32::MAX {
            seq![id_finding(r, RuleSeverity::Warning, RuleCode::EventIdTooLarge, too_large_message(id, digits_value(raw)))]
        } else {
            Seq::empty()
        }) + namespace_findings(id, ns, seen, in_events_dir, ds, cur_file, cur_under_game, r)
    }
}

fn first_dot_index(s: &Vec<char>) -> (r: usize)
    ensures
        r == first_dot(s@, 0),
        r <= s@.len(),
{
    let mut k: usize = 0;
    while k < s.len()
        invariant
            k <= s@.len(),
            first_dot(s@, 0) == first_dot(s@, k as int),
        decreases s.len() - k,
    {
        if s[k] == '.' {
            return k;
        }
        k += 1;
    }
    k
}

pub(crate) fn all_digit_chars(p: &Vec<char>) -> (r: bool)
    ensures
        r == all_digits(p@),
{
    let mut i: usize = 0;
    while i < p.len()
        invariant
            i <= p@.len(),
            forall|j: int| 0 <= j < i ==> is_digit(#[trigger] p@[j]),
        decreases p.len() - i,
    {
        if !('0' <= p[i] && p[i] <= '9') {
            assert(!is_digit(p@[i as int]));
            return false;
        }
        i += 1;
    }
    true
}

/// The value of a run of digits, when it fits in 32 bits.
pub(crate) fn digits_u32(p: &Vec<char>) -> (r: Option<u32>)
    requires
        all_digits(p@),
    ensures
        match r {
            Some(n) => n == digits_value(p@),
            None => digits_value(p@) > u32::MAX,
        },
{
    let mut v: u64 = 0;
    let mut i: usize = 0;
    while i < p.len()
        invariant
            i <= p@.len(),
            all_digits(p@),
            v == digits_value(p@.take(i as int)),
            v <= u32::MAX,
        decreases p.len() - i,
    {
        assert(is_digit(p@[i as int]));
        let d = (p[i] as u32 - '0' as u32) as u64;
        assert(d == digit_val(p@[i as int]));
        assert(p@.take(i + 1).drop_last() =~= p@.take(i as int));
        assert(p@.take(i + 1).last() == p@[i as int]);
        v = v * 10 + d;
        if v > 4294967295 {
            proof {
                let a = p@.take(i + 1);
                let b = p@.skip(i + 1);
                assert(a + b =~= p@);
                lemma_digits_append(a, b);
                lemma_pow10_positive(b.len());
                assert(digits_value(a) * pow10(b.len()) >= digits_value(a)) by (nonlinear_arith)
                    requires
                        pow10(b.len()) >= 1,
                ;
            }
            return None;
        }
        i += 1;
    }
    assert(p@.take(p@.len() as int) =~= p@);
    Some(v as u32)
}

pub(crate) fn text_after_exec(a: &Vec<char>, b: &Vec<char>) -> (r: bool)
    ensures
        r == text_after(a@, b@),
{
    let mut k: usize = 0;
    assert(a@.skip(0) =~= a@ && b@.skip(0) =~= b@);
    while k < a.len() && k < b.len()
        invariant
            k <= a@.len(),
            k <= b@.len(),
            text_after(a@, b@) == text_after(a@.skip(k as int), b@.skip(k as int)),
        decreases a.len() - k,
    {
        assert(a@.skip(k as int)[0] == a@[k as int]);
        assert(b@.skip(k as int)[0] == b@[k as int]);
        if a[k] != b[k] {
            return (a[k] as u32) > (b[k] as u32);
        }
        assert(a@.skip(k as int).drop_first() =~= a@.skip(k + 1));
        assert(b@.skip(k as int).drop_first() =~= b@.skip(k + 1));
        k += 1;
    }
    k < a.len()
}

fn find_decl_index(ds: &Vec<NamespaceDecl>, name: &Vec<char>) -> (r: Option<usize>)
    ensures
        match r {
            Some(i) => i < ds@.len() && find_decl(decls_view(ds@), name@) == Some(decl_model(ds@[i as int])),
            None => find_decl(decls_view(ds@), name@) is None,
        },
{
    let ghost dv = decls_view(ds@);
    let mut k: usize = 0;
    assert(dv.skip(0) =~= dv);
    while k < ds.len()
        invariant
            k <= ds@.len(),
            dv == decls_view(ds@),
            find_decl(dv, name@) == find_decl(dv.skip(k as int), name@),
        decreases ds.len() - k,
    {
        assert(dv.skip(k as int)[0] == decl_model(ds@[k as int]));
        if chars_equal(&chars_of(ds[k].name.as_str()), name) {
            return Some(k);
        }
        assert(dv.skip(k as int).drop_first() =~= dv.skip(k + 1));
        k += 1;
    }
    assert(dv.skip(k as int) =~= Seq::<NamespaceDeclModel>::empty());
    None
}

fn contains_text(v: &Vec<String>, x: &Vec<char>) -> (r: bool)
    ensures
        r == strings_view(v@).contains(x@),
{
    let ghost sv = strings_view(v@);
    let mut k: usize = 0;
    while k < v.len()
        invariant
            k <= v@.len(),
            sv == strings_view(v@),
            forall|j: int| 0 <= j < k ==> sv[j] != x@,
        decreases v.len() - k,
    {
        if chars_equal(&chars_of(v[k].as_str()), x) {
            assert(sv[k as int] == x@);
            return true;
        }
        k += 1;
    }
    assert(!sv.contains(x@));
    false
}

fn opt_chars(o: &Option<String>) -> (r: Option<Vec<char>>)
    ensures
        match r {
            Some(t) => opt_text(*o) == Some(t@),
            None => opt_text(*o) is None,
        },
{
    match o {
        Some(s) => Some(chars_of(s.as_str())),
        None => None,
    }
}

fn error_at(r: Range, code: RuleCode, m: String) -> (d: RuleDiagnostic)
    ensures
        rule_diag_model(d) == id_finding(r, RuleSeverity::Error, code, m@),
{
    RuleDiagnostic { range: r, severity: RuleSeverity::Error, code: Some(code), message: m, data: None }
}

fn undeclared(id: &Vec<char>, ns: &Vec<char>) -> (m: String)
    ensures
        m@ == undeclared_message(id@, ns@),
{
    let mut m = String::new();
    append_str(&mut m, "Event ID '");
    push_chars(&mut m, id);
    append_str(&mut m, "' uses namespace '");
    push_chars(&mut m, ns);
    append_str(&mut m, "' which has not been declared. The event will not be registered by the game (log error: 'Malformed token: ");
    push_chars(&mut m, id);
    append_str(&mut m, "'). Add 'add_namespace = ");
    push_chars(&mut m, ns);
    append_str(&mut m, "' before any events using this namespace.");
    m
}

fn mod_namespace(id: &Vec<char>, ns: &Vec<char>, file: &Vec<char>) -> (m: String)
    ensures
        m@ == mod_namespace_message(id@, ns@, file@),
{
    let mut m = String::new();
    append_str(&mut m, "Event ID '");
    push_chars(&mut m, id);
    append_str(&mut m, "' uses namespace '");
    push_chars(&mut m, ns);
    append_str(&mut m, "' declared in mod file '");
    push_chars(&mut m, file);
    append_str(&mut m, "', but this file is from the base game. Vanilla/DLC files load BEFORE mod files, so this namespace is not available here. Use a namespace already declared in the base game instead.");
    m
}

fn declared_later(id: &Vec<char>, ns: &Vec<char>) -> (m: String)
    ensures
        m@ == declared_later_message(id@, ns@),
{
    let mut m = String::new();
    append_str(&mut m, "Event ID '");
    push_chars(&mut m, id);
    append_str(&mut m, "' uses namespace '");
    push_chars(&mut m, ns);
    append_str(&mut m, "' which is declared LATER in this file. Move 'add_namespace = ");
    push_chars(&mut m, ns);
    append_str(&mut m, "' BEFORE this event definition. The game registers namespaces sequentially as it reads the file.");
    m
}

fn loads_after(id: &Vec<char>, ns: &Vec<char>, file: &Vec<char>) -> (m: String)
    ensures
        m@ == loads_after_message(id@, ns@, file@),
{
    let mut m = String::new();
    append_str(&mut m, "Event ID '");
    push_chars(&mut m, id);
    append_str(&mut m, "' uses namespace '");
    push_chars(&mut m, ns);
    append_str(&mut m, "' which is declared in '");
    push_chars(&mut m, file);
    append_str(&mut m, "'. That file loads AFTER this one (ASCII filename order), so the namespace is not yet registered. Either move the 'add_namespace' declaration to a file that loads before this one, or add a declaration here before the event.");
    m
}

/// The declaration of `ns`, under that name or its lower-case form.
fn lookup(ds: &Vec<NamespaceDecl>, ns: &Vec<char>) -> (r: Option<usize>)
    ensures
        match r {
            Some(i) => i < ds@.len() && declaration(decls_view(ds@), ns@) == Some(decl_model(ds@[i as int])),
            None => declaration(decls_view(ds@), ns@) is None,
        },
{
    match find_decl_index(ds, ns) {
        Some(i) => Some(i),
        None => find_decl_index(ds, &lower_chars(ns)),
    }
}

/// The findings on the namespace of an event id.
fn check_namespace(
    id: &Vec<char>,
    ns: &Vec<char>,
    seen: &Vec<String>,
    in_events_dir: bool,
    ds: &Vec<NamespaceDecl>,
    current_file: &Option<String>,
    current_under_game: bool,
    r: Range,
) -> (out: Vec<RuleDiagnostic>)
    ensures
        diags_model(out@) == namespace_findings(id@, ns@, strings_view(seen@), in_events_dir, decls_view(ds@),
            opt_text(*current_file), current_under_game, r),
{
    let mut out: Vec<RuleDiagnostic> = Vec::new();
    assert(diags_model(out@) =~= Seq::<RuleDiagModel>::empty());
    if ns.len() == 0 || all_digit_chars(ns) || contains_text(seen, &lower_chars(ns)) {
        return out;
    }
    let found = lookup(ds, ns);
    if !in_events_dir {
        if found.is_none() {
            let d = error_at(r, RuleCode::MissingEventNamespace, undeclared(id, ns));
            out.push(d);
            assert(diags_model(out@) =~= seq![rule_diag_model(d)]);
        }
        return out;
    }
    match found {
        None => {
            let d = error_at(r, RuleCode::MissingEventNamespace, undeclared(id, ns));
            out.push(d);
            assert(diags_model(out@) =~= seq![rule_diag_model(d)]);
        },
        Some(i) => {
            let decl = &ds[i];
            if decl.under_game && !current_under_game {
            } else if !decl.under_game && current_under_game {
                let label = match opt_chars(&decl.file_name) {
                    Some(f) => f,
                    None => chars_of("other file"),
                };
                let d = error_at(r, RuleCode::MissingEventNamespace, mod_namespace(id, ns, &label));
                out.push(d);
                assert(diags_model(out@) =~= seq![rule_diag_model(d)]);
            } else {
                match (opt_chars(current_file), opt_chars(&decl.file_name)) {
                    (Some(c), Some(f)) => {
                        if chars_equal(&f, &c) {
                            let d = error_at(r, RuleCode::MissingEventNamespace, declared_later(id, ns));
                            out.push(d);
                            assert(diags_model(out@) =~= seq![rule_diag_model(d)]);
                        } else if text_after_exec(&f, &c) {
                            let d = error_at(r, RuleCode::MissingEventNamespace, loads_after(id, ns, &f));
                            out.push(d);
                            assert(diags_model(out@) =~= seq![rule_diag_model(d)]);
                        }
                    },
                    _ => {},
                }
            }
        },
    }
    out
}

/// Checks the id `id` of an event defined at the top of a file.  `seen`
/// lists the namespaces declared so far in the file, in lower case;
/// `in_events_dir` tells whether the file lies under `events/`;
/// `declarations` lists where the namespaces of the workspace and the game
/// are declared; `current_file` is the lower-case name of this file and
/// `current_under_game` whether it belongs to the base game; the findings
/// stand at `value_range`.
pub fn check_event_id(
    id: &str,
    seen: &Vec<String>,
    in_events_dir: bool,
    declarations: &Vec<NamespaceDecl>,
    current_file: &Option<String>,
    current_under_game: bool,
    value_range: Range,
) -> (out: Vec<RuleDiagnostic>)
    ensures
        diags_model(out@) == event_id_findings(id@, strings_view(seen@), in_events_dir, decls_view(declarations@),
            opt_text(*current_file), current_under_game, value_range),
{
    let cs = chars_of(id);
    let mut out: Vec<RuleDiagnostic> = Vec::new();
    assert(diags_model(out@) =~= Seq::<RuleDiagModel>::empty());
    if cs.len() == 0 {
        return out;
    }
    let d = first_dot_index(&cs);
    let (ns, raw) = if d < cs.len() {
        (slice_chars(&cs, 0, d), slice_chars(&cs, d + 1, cs.len()))
    } else {
        (Vec::new(), slice_chars(&cs, 0, cs.len()))
    };
    proof {
        if d < cs@.len() {
            assert(ns@ =~= cs@.take(d as int));
            assert(raw@ =~= cs@.skip(d + 1));
        } else {
            assert(ns@ =~= Seq::<char>::empty());
            assert(raw@ =~= cs@);
        }
    }
    if !(raw.len() > 0 && all_digit_chars(&raw)) {
        let mut m = String::new();
        append_str(&mut m, "Event ID '");
        push_chars(&mut m, &cs);
        append_str(&mut m, "' has non-integer suffix '");
        push_chars(&mut m, &raw);
        append_str(&mut m, "'. Event IDs must be in the format <namespace>.<integer> (e.g. 'my_event.123'). Non-integer IDs cause duplicate internal event IDs (all become ID 0).");
        let x = RuleDiagnostic { range: value_range, severity: RuleSeverity::Warning, code: Some(RuleCode::NonIntegerEventId), message: m, data: None };
        out.push(x);
        assert(diags_model(out@) =~= seq![rule_diag_model(x)]);
        return out;
    }
    match digits_u32(&raw) {
        Some(n) => {
            if n >= 100000 {
                let mut m = String::new();
                append_str(&mut m, "Event ID '");
                push_chars(&mut m, &cs);
                append_str(&mut m, "' uses numeric ID ");
                append_str(&mut m, u32_to_decimal(n).as_str());
                append_str(&mut m, ", which is >= 100000. This encroaches on other namespace's internal ID range and may cause duplicate ID conflicts.");
                let x = RuleDiagnostic { range: value_range, severity: RuleSeverity::Warning, code: Some(RuleCode::EventIdTooLarge), message: m, data: None };
                out.push(x);
                assert(diags_model(out@) =~= seq![rule_diag_model(x)]);
            }
        },
        None => {},
    }
    let mut rest = check_namespace(&cs, &ns, seen, in_events_dir, declarations, current_file, current_under_game, value_range);
    let ghost before = out@;
    let ghost rv = rest@;
    out.append(&mut rest);
    assert(out@ =~= before + rv);
    assert(diags_model(out@) =~= diags_model(before) + diags_model(rv));
    out
}

} // verus!
