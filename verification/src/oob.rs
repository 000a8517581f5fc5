//! Order-of-battle files: the unit types named in `regiments = { ... }` and
//! `support = { ... }` slots of division templates, and the templates that
//! `division_template = "..."` inside `units = { division = { ... } }`
//! refers to, which must be defined in the same file.
//!
//! The checker walks the assignments of a file: `enter_assignment` on the
//! way into each assignment, `exit_assignment` on the way out, and
//! `after_walk` once at the end.
use vstd::prelude::*;
use vstd::string::*;
use crate::ast::{Range, Assignment, Value, span_text, span_chars, value_fits};
use crate::script::{ValueModel, value_model};
use crate::numtext::lower_seq;
use crate::rules::{lower_chars, spells};
use crate::gfx::value_text;
use crate::portraits::strings_view;
use crate::text::{chars_of, chars_equal, append_str, push_chars};
use crate::findings::{RuleSeverity, RuleCode, RuleDiagnostic, RuleDiagModel, rule_diag_model, diags_model};

verus! {

/// Where the walk of an order-of-battle file is.
pub struct OobRegimentVisitor {
    /// Inside `regiments = { ... }` or `support = { ... }`.
    pub in_slot: bool,
    /// The names given by `division_template = { name = "..." }`.
    pub template_names: Vec<String>,
    /// The template names referred to by `division_template = "..."` inside
    /// a division of `units`, with the range of the key.
    pub template_refs: Vec<(String, Range)>,
    /// Inside `division_template = { ... }`.
    pub in_template_def: bool,
    /// Inside `units = { ... }`.
    pub in_units_block: bool,
    /// Inside `division = { ... }` within `units`.
    pub in_unit_division: bool,
}

pub struct OobState {
    pub in_slot: bool,
    pub template_names: Seq<Seq<char>>,
    pub template_refs: Seq<(Seq<char>, Range)>,
    pub in_template_def: bool,
    pub in_units_block: bool,
    pub in_unit_division: bool,
}

pub open spec fn refs_view(v: Seq<(String, Range)>) -> Seq<(Seq<char>, Range)> {
    v.map_values(|p: (String, Range)| (p.0@, p.1))
}

impl View for OobRegimentVisitor {
    type V = OobState;

    open spec fn view(&self) -> OobState {
        OobState {
            in_slot: self.in_slot,
            template_names: strings_view(self.template_names@),
            template_refs: refs_view(self.template_refs@),
            in_template_def: self.in_template_def,
            in_units_block: self.in_units_block,
            in_unit_division: self.in_unit_division,
        }
    }
}

pub open spec fn is_block_value(v: ValueModel) -> bool {
    v is Block || v is TaggedBlock
}

/// The first unit type among `units` that is `key` in another ASCII case.
pub open spec fn canonical_unit_type(units: Seq<Seq<char>>, key: Seq<char>) -> Option<Seq<char>>
    decreases units.len(),
{
    if units.len() == 0 {
        None
    } else if lower_seq(units[0]) == lower_seq(key) {
        Some(units[0])
    } else {
        canonical_unit_type(units.drop_first(), key)
    }
}

pub open spec fn case_message(key: Seq<char>, canonical: Seq<char>) -> Seq<char> {
    "Unit type '"@ + key + "' should probably be '"@ + canonical
        + "' (the game accepts both, but consistent casing is good practice)"@
}

pub open spec fn unknown_unit_message(key: Seq<char>) -> Seq<char> {
    "Unknown unit type: '"@ + key + "' — not defined in common/units/*.txt"@
}

pub open spec fn unknown_template_message(name: Seq<char>) -> Seq<char> {
    "Unknown division template: '"@ + name + "' — no template with that name is defined in this file"@
}

/// A unit type named in a slot: nothing when it is defined as written, a
/// hint with the defined casing when only the case differs, else a warning.
pub open spec fn unit_findings(key: Seq<char>, r: Range, units: Seq<Seq<char>>) -> Seq<RuleDiagModel> {
    if units.contains(key) {
        Seq::empty()
    } else {
        match canonical_unit_type(units, key) {
            Some(c) => seq![RuleDiagModel {
                range: r,
                severity: RuleSeverity::Hint,
                code: Some(RuleCode::UnitTypeCaseMismatch),
                message: case_message(key, c),
                data: Some(c),
            }],
            None => seq![RuleDiagModel {
                range: r,
                severity: RuleSeverity::Warning,
                code: Some(RuleCode::UnknownUnitType),
                message: unknown_unit_message(key),
                data: None,
            }],
        }
    }
}

/// Entering the assignment `key = v` (key at `kr`): the next state and the
/// findings.
pub open spec fn oob_enter_step(
    st: OobState,
    key: Seq<char>,
    kr: Range,
    v: ValueModel,
    src: Seq<char>,
    units: Seq<Seq<char>>,
) -> (OobState, Seq<RuleDiagModel>) {
    let kl = lower_seq(key);
    if kl == "division_template"@ {
        if is_block_value(v) {
            (OobState { in_template_def: true, ..st }, Seq::empty())
        } else if st.in_unit_division {
            match value_text(src, v) {
                Some(n) => (OobState { template_refs: st.template_refs.push((n, kr)), ..st }, Seq::empty()),
                None => (st, Seq::empty()),
            }
        } else {
            (st, Seq::empty())
        }
    } else if kl == "units"@ {
        (if is_block_value(v) {
            OobState { in_units_block: true, ..st }
        } else {
            st
        }, Seq::empty())
    } else if kl == "division"@ {
        (if st.in_units_block && is_block_value(v) {
            OobState { in_unit_division: true, ..st }
        } else {
            st
        }, Seq::empty())
    } else if st.in_template_def && kl == "name"@ {
        match value_text(src, v) {
            Some(n) => (OobState { template_names: st.template_names.push(n), ..st }, Seq::empty()),
            None => (st, Seq::empty()),
        }
    } else if kl == "regiments"@ || kl == "support"@ {
        (if is_block_value(v) {
            OobState { in_slot: true, ..st }
        } else {
            st
        }, Seq::empty())
    } else if st.in_slot && is_block_value(v) {
        (st, unit_findings(key, kr, units))
    } else {
        (st, Seq::empty())
    }
}

/// Leaving the assignment with key `key`.
pub open spec fn oob_exit_step(st: OobState, key: Seq<char>) -> OobState {
    let kl = lower_seq(key);
    if kl == "division_template"@ {
        OobState { in_template_def: false, ..st }
    } else if kl == "units"@ {
        OobState { in_units_block: false, ..st }
    } else if kl == "division"@ && st.in_unit_division {
        OobState { in_unit_division: false, ..st }
    } else if kl == "regiments"@ || kl == "support"@ {
        OobState { in_slot: false, ..st }
    } else {
        st
    }
}

/// After the walk: each template reference whose name no template
/// defines, in order.
pub open spec fn template_findings(refs: Seq<(Seq<char>, Range)>, names: Seq<Seq<char>>) -> Seq<RuleDiagModel>
    decreases refs.len(),
{
    if refs.len() == 0 {
        Seq::empty()
    } else {
        let rest = template_findings(refs.drop_last(), names);
        let (n, r) = refs.last();
        if names.contains(n) {
            rest
        } else {
            rest.push(RuleDiagModel {
                range: r,
                severity: RuleSeverity::Warning,
                code: Some(RuleCode::UnknownDivisionTemplate),
                message: unknown_template_message(n),
                data: None,
            })
        }
    }
}

/// The string made of the characters `v`.
fn string_of(v: &Vec<char>) -> (s: String)
    ensures
        s@ == v@,
{
    let mut s = String::new();
    push_chars(&mut s, v);
    s
}

/// Whether `x` is among `v`.
fn contains_string(v: &Vec<String>, x: &Vec<char>) -> (r: bool)
    ensures
        r == strings_view(v@).contains(x@),
{
    let ghost sv = strings_view(v@);
    let mut k: usize = 0;
    while k < v.len()
        invariant
            k <= v@.len(),
            sv == strings_view(v@),
            forall|j: int| 0 <= j < k ==> sv[j] != x@,
        decreases v.len() - k,
    {
        let c = chars_of(v[k].as_str());
        if chars_equal(&c, x) {
            assert(sv[k as int] == x@);
            return true;
        }
        k += 1;
    }
    assert(!sv.contains(x@));
    false
}

/// The first unit type among `units` that is `key` in another ASCII case.
fn find_canonical_unit_type(units: &Vec<String>, key: &Vec<char>) -> (r: Option<Vec<char>>)
    ensures
        match r {
            Some(c) => canonical_unit_type(strings_view(units@), key@) == Some(c@),
            None => canonical_unit_type(strings_view(units@), key@) is None,
        },
{
    let ghost sv = strings_view(units@);
    let kl = lower_chars(key);
    let mut k: usize = 0;
    assert(sv.skip(0) =~= sv);
    while k < units.len()
        invariant
            k <= units@.len(),
            sv == strings_view(units@),
            kl@ == lower_seq(key@),
            canonical_unit_type(sv, key@) == canonical_unit_type(sv.skip(k as int), key@),
        decreases units.len() - k,
    {
        let u = chars_of(units[k].as_str());
        let ul = lower_chars(&u);
        proof {
            assert(sv.skip(k as int)[0] == u@);
            assert(sv.skip(k as int).drop_first() =~= sv.skip(k + 1));
        }
        if chars_equal(&ul, &kl) {
            return Some(u);
        }
        k += 1;
    }
    assert(sv.skip(k as int) =~= Seq::<Seq<char>>::empty());
    None
}

/// The findings for a unit type named in a slot.
fn check_unit_type(key: &Vec<char>, r: Range, units: &Vec<String>) -> (d: Vec<RuleDiagnostic>)
    ensures
        diags_model(d@) == unit_findings(key@, r, strings_view(units@)),
{
    let mut d: Vec<RuleDiagnostic> = Vec::new();
    if contains_string(units, key) {
        assert(diags_model(d@) =~= Seq::<RuleDiagModel>::empty());
        return d;
    }
    match find_canonical_unit_type(units, key) {
        Some(c) => {
            let mut m = String::new();
            append_str(&mut m, "Unit type '");
            push_chars(&mut m, key);
            append_str(&mut m, "' should probably be '");
            push_chars(&mut m, &c);
            append_str(&mut m, "' (the game accepts both, but consistent casing is good practice)");
            let x = RuleDiagnostic {
                range: r,
                severity: RuleSeverity::Hint,
                code: Some(RuleCode::UnitTypeCaseMismatch),
                message: m,
                data: Some(string_of(&c)),
            };
            d.push(x);
            assert(diags_model(d@) =~= seq![rule_diag_model(x)]);
        },
        None => {
            let mut m = String::new();
            append_str(&mut m, "Unknown unit type: '");
            push_chars(&mut m, key);
            append_str(&mut m, "' — not defined in common/units/*.txt");
            let x = RuleDiagnostic {
                range: r,
                severity: RuleSeverity::Warning,
                code: Some(RuleCode::UnknownUnitType),
                message: m,
                data: None,
            };
            d.push(x);
            assert(diags_model(d@) =~= seq![rule_diag_model(x)]);
        },
    }
    d
}

/// The text of a string value, quoted or not.
fn value_chars(v: &Value, source: &str) -> (r: Option<Vec<char>>)
    requires
        value_fits(*v, source.spec_bytes()),
    ensures
        match r {
            Some(t) => value_text(source@, value_model(*v)) == Some(t@),
            None => value_text(source@, value_model(*v)) is None,
        },
{
    match v {
        Value::String(s) => Some(span_chars(s, source)),
        Value::QuotedString(s) => Some(chars_of(s.as_str())),
        _ => None,
    }
}

impl OobRegimentVisitor {
    /// A walk that has seen nothing yet.
    pub fn new() -> (r: Self)
        ensures
            r@ == (OobState {
                in_slot: false,
                template_names: Seq::empty(),
                template_refs: Seq::empty(),
                in_template_def: false,
                in_units_block: false,
                in_unit_division: false,
            }),
    {
        let r = OobRegimentVisitor {
            in_slot: false,
            template_names: Vec::new(),
            template_refs: Vec::new(),
            in_template_def: false,
            in_units_block: false,
            in_unit_division: false,
        };
        assert(r@.template_names =~= Seq::<Seq<char>>::empty());
        assert(r@.template_refs =~= Seq::<(Seq<char>, Range)>::empty());
        r
    }

    /// Entering an assignment: tracks where the walk is, collects template
    /// names and references, and checks the unit types named in slots
    /// against the defined `unit_types`.
    pub fn enter_assignment(&mut self, ass: &Assignment, source: &str, unit_types: &Vec<String>) -> (r: Vec<
        RuleDiagnostic,
    >)
        requires
            ass.key.fits(source),
            value_fits(ass.value.value, source.spec_bytes()),
        ensures
            (final(self)@, diags_model(r@)) == oob_enter_step(
                old(self)@,
                span_text(source@, ass.key),
                ass.key_range,
                value_model(ass.value.value),
                source@,
                strings_view(unit_types@),
            ),
    {
        let ghost st = self@;
        let key = span_chars(&ass.key, source);
        let kl = lower_chars(&key);
        let v = &ass.value.value;
        let block = match v {
            Value::Block(_) | Value::TaggedBlock(..) => true,
            _ => false,
        };
        let empty: Vec<RuleDiagnostic> = Vec::new();
        assert(diags_model(empty@) =~= Seq::<RuleDiagModel>::empty());
        if spells(&kl, "division_template") {
            if block {
                self.in_template_def = true;
            } else if self.in_unit_division {
                match value_chars(v, source) {
                    Some(n) => {
                        let ghost before = self.template_refs@;
                        let name = string_of(&n);
                        self.template_refs.push((name, ass.key_range));
                        assert(refs_view(self.template_refs@) =~= refs_view(before).push((n@, ass.key_range)));
                    },
                    None => {},
                }
            }
            return empty;
        }
        if spells(&kl, "units") {
            if block {
                self.in_units_block = true;
            }
            return empty;
        }
        if spells(&kl, "division") {
            if self.in_units_block && block {
                self.in_unit_division = true;
            }
            return empty;
        }
        if self.in_template_def && spells(&kl, "name") {
            match value_chars(v, source) {
                Some(n) => {
                    let ghost before = self.template_names@;
                    self.template_names.push(string_of(&n));
                    assert(strings_view(self.template_names@) =~= strings_view(before).push(n@));
                },
                None => {},
            }
            return empty;
        }
        if spells(&kl, "regiments") || spells(&kl, "support") {
            if block {
                self.in_slot = true;
            }
            return empty;
        }
        if self.in_slot && block {
            return check_unit_type(&key, ass.key_range, unit_types);
        }
        empty
    }

    /// Leaving an assignment.
    pub fn exit_assignment(&mut self, ass: &Assignment, source: &str)
        requires
            ass.key.fits(source),
        ensures
            final(self)@ == oob_exit_step(old(self)@, span_text(source@, ass.key)),
    {
        let key = span_chars(&ass.key, source);
        let kl = lower_chars(&key);
        if spells(&kl, "division_template") {
            self.in_template_def = false;
        } else if spells(&kl, "units") {
            self.in_units_block = false;
        } else if spells(&kl, "division") && self.in_unit_division {
            self.in_unit_division = false;
        } else if spells(&kl, "regiments") || spells(&kl, "support") {
            self.in_slot = false;
        }
    }

    /// After the walk: a warning for each template reference that no
    /// template of the file defines.
    pub fn after_walk(&self) -> (r: Vec<RuleDiagnostic>)
        ensures
            diags_model(r@) == template_findings(self@.template_refs, self@.template_names),
    {
        let ghost refs = self@.template_refs;
        let ghost names = self@.template_names;
        let mut d: Vec<RuleDiagnostic> = Vec::new();
        let mut k: usize = 0;
        while k < self.template_refs.len()
            invariant
                k <= self.template_refs@.len(),
                refs == refs_view(self.template_refs@),
                names == strings_view(self.template_names@),
                diags_model(d@) == template_findings(refs.take(k as int), names),
            decreases self.template_refs.len() - k,
        {
            let n = chars_of(self.template_refs[k].0.as_str());
            let r = self.template_refs[k].1;
            proof {
                assert(refs.take(k + 1).drop_last() =~= refs.take(k as int));
                assert(refs.take(k + 1).last() == (n@, r));
            }
            if !contains_string(&self.template_names, &n) {
                let mut m = String::new();
                append_str(&mut m, "Unknown division template: '");
                push_chars(&mut m, &n);
                append_str(&mut m, "' — no template with that name is defined in this file");
                let x = RuleDiagnostic {
                    range: r,
                    severity: RuleSeverity::Warning,
                    code: Some(RuleCode::UnknownDivisionTemplate),
                    message: m,
                    data: None,
                };
                let ghost before = d@;
                d.push(x);
                assert(diags_model(d@) =~= diags_model(before).push(rule_diag_model(x)));
            }
            k += 1;
        }
        assert(refs.take(k as int) =~= refs);
        d
    }
}

} // verus!
