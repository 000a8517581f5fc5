//! Abilities: references to undefined abilities, and the completeness of
//! the definitions inside `ability = { ... }` (name, description, cost,
//! duration, type, `ai_will_do`), with localisation for the name and
//! description.
use vstd::prelude::*;
use vstd::string::*;
use crate::ast::{Range, Assignment, Value, span_text, span_chars, value_fits};
use crate::script::{ValueModel, value_model};
use crate::numtext::lower_seq;
use crate::rules::{lower_chars, spells};
use crate::gfx::value_text;
use crate::portraits::strings_view;
use crate::oob::is_block_value;
use crate::findings::{RuleSeverity, RuleCode, RuleDiagnostic, RuleDiagModel, rule_diag_model, diags_model};
use crate::text::{chars_of, chars_equal, append_str, push_chars};

verus! {

pub open spec fn finding(r: Range, severity: RuleSeverity, code: RuleCode, m: Seq<char>) -> RuleDiagModel {
    RuleDiagModel { range: r, severity, code: Some(code), message: m, data: None }
}

/// Whether `x` is among `v`.
fn contains_chars_in(v: &Vec<String>, x: &Vec<char>) -> (r: bool)
    ensures
        r == strings_view(v@).contains(x@),
{
    let ghost sv = strings_view(v@);
    let mut k: usize = 0;
    while k < v.len()
        invariant
            k <= v@.len(),
            sv == strings_view(v@),
            forall|j: int| 0 <= j < k ==> sv[j] != x@,
        decreases v.len() - k,
    {
        let c = chars_of(v[k].as_str());
        if chars_equal(&c, x) {
            assert(sv[k as int] == x@);
            return true;
        }
        k += 1;
    }
    assert(!sv.contains(x@));
    false
}

fn diag(r: Range, severity: RuleSeverity, code: RuleCode, message: String) -> (d: RuleDiagnostic)
    ensures
        rule_diag_model(d) == finding(r, severity, code, message@),
{
    RuleDiagnostic { range: r, severity, code: Some(code), message, data: None }
}

fn string_of(v: &Vec<char>) -> (s: String)
    ensures
        s@ == v@,
{
    let mut s = String::new();
    push_chars(&mut s, v);
    s
}

fn value_chars(v: &Value, source: &str) -> (r: Option<Vec<char>>)
    requires
        value_fits(*v, source.spec_bytes()),
    ensures
        match r {
            Some(t) => value_text(source@, value_model(*v)) == Some(t@),
            None => value_text(source@, value_model(*v)) is None,
        },
{
    match v {
        Value::String(s) => Some(span_chars(s, source)),
        Value::QuotedString(s) => Some(chars_of(s.as_str())),
        _ => None,
    }
}

// ---------------------------------------------------------------------------
// References
// ---------------------------------------------------------------------------

/// `has_ability`, `add_ability` and `remove_ability` (in any ASCII case)
/// must name a defined ability.
pub open spec fn ability_reference_findings(
    key: Seq<char>,
    v: ValueModel,
    vr: Range,
    src: Seq<char>,
    abilities: Seq<Seq<char>>,
) -> Seq<RuleDiagModel> {
    let kl = lower_seq(key);
    if kl == "has_ability"@ || kl == "add_ability"@ || kl == "remove_ability"@ {
        match value_text(src, v) {
            Some(s) => if abilities.contains(s) {
                Seq::empty()
            } else {
                seq![finding(vr, RuleSeverity::Warning, RuleCode::UnknownTrigger, "Unknown ability: '"@ + s + "'"@)]
            },
            None => Seq::empty(),
        }
    } else {
        Seq::empty()
    }
}

/// The finding, if any, for a reference to an ability.
pub fn check_ability_reference(ass: &Assignment, source: &str, abilities: &Vec<String>) -> (r: Vec<RuleDiagnostic>)
    requires
        ass.key.fits(source),
        value_fits(ass.value.value, source.spec_bytes()),
    ensures
        diags_model(r@) == ability_reference_findings(
            span_text(source@, ass.key),
            value_model(ass.value.value),
            ass.value.range,
            source@,
            strings_view(abilities@),
        ),
{
    let mut out: Vec<RuleDiagnostic> = Vec::new();
    assert(diags_model(out@) =~= Seq::<RuleDiagModel>::empty());
    let kl = lower_chars(&span_chars(&ass.key, source));
    if spells(&kl, "has_ability") || spells(&kl, "add_ability") || spells(&kl, "remove_ability") {
        match value_chars(&ass.value.value, source) {
            Some(s) => {
                if !contains_chars_in(abilities, &s) {
                    let mut m = String::new();
                    append_str(&mut m, "Unknown ability: '");
                    push_chars(&mut m, &s);
                    append_str(&mut m, "'");
                    let d = diag(ass.value.range, RuleSeverity::Warning, RuleCode::UnknownTrigger, m);
                    out.push(d);
                    assert(diags_model(out@) =~= seq![rule_diag_model(d)]);
                }
            },
            None => {},
        }
    }
    out
}

// ---------------------------------------------------------------------------
// Definitions
// ---------------------------------------------------------------------------

/// What has been seen of one ability definition.
#[derive(Debug)]
pub struct AbilityDef {
    pub name: String,
    pub key_range: Range,
    pub has_name: bool,
    pub has_desc: bool,
    pub has_cost: bool,
    pub has_duration: bool,
    pub has_type: bool,
    pub has_ai_will_do: bool,
}

impl Clone for AbilityDef {
    fn clone(&self) -> (r: AbilityDef)
        ensures
            def_model(r) == def_model(*self),
    {
        AbilityDef {
            name: self.name.clone(),
            key_range: self.key_range,
            has_name: self.has_name,
            has_desc: self.has_desc,
            has_cost: self.has_cost,
            has_duration: self.has_duration,
            has_type: self.has_type,
            has_ai_will_do: self.has_ai_will_do,
        }
    }
}

pub struct AbilityDefModel {
    pub name: Seq<char>,
    pub key_range: Range,
    pub has_name: bool,
    pub has_desc: bool,
    pub has_cost: bool,
    pub has_duration: bool,
    pub has_type: bool,
    pub has_ai_will_do: bool,
}

pub open spec fn def_model(d: AbilityDef) -> AbilityDefModel {
    AbilityDefModel {
        name: d.name@,
        key_range: d.key_range,
        has_name: d.has_name,
        has_desc: d.has_desc,
        has_cost: d.has_cost,
        has_duration: d.has_duration,
        has_type: d.has_type,
        has_ai_will_do: d.has_ai_will_do,
    }
}

/// Where the walk of an ability file is.
#[derive(Debug)]
pub struct AbilityVisitor {
    /// Inside `ability = { ... }`.
    pub inside_ability_container: bool,
    /// 0 between definitions, 1 in a definition's body, more in the blocks
    /// nested in it.
    pub block_depth: u32,
    /// The definitions being read, innermost last.
    pub ability_stack: Vec<AbilityDef>,
}

pub struct AbilityState {
    pub inside: bool,
    pub depth: u32,
    pub stack: Seq<AbilityDefModel>,
}

impl View for AbilityVisitor {
    type V = AbilityState;

    open spec fn view(&self) -> AbilityState {
        AbilityState {
            inside: self.inside_ability_container,
            depth: self.block_depth,
            stack: self.ability_stack@.map_values(|d: AbilityDef| def_model(d)),
        }
    }
}

pub open spec fn missing_loc_message(name: Seq<char>, s: Seq<char>) -> Seq<char> {
    "Ability '"@ + name + "' is missing localization key: '"@ + s + "'"@
}

/// The finding for a name or description that has no localisation.
pub open spec fn loc_findings(d: AbilityDefModel, v: ValueModel, vr: Range, src: Seq<char>, loc: Seq<Seq<char>>) -> Seq<RuleDiagModel> {
    match value_text(src, v) {
        Some(s) => if loc.contains(s) {
            Seq::empty()
        } else {
            seq![finding(vr, RuleSeverity::Warning, RuleCode::AbilityMissingLocalization, missing_loc_message(d.name, s))]
        },
        None => Seq::empty(),
    }
}

/// Entering `key = v` (key at `kr`, value at `vr`): the next state and the
/// findings.
pub open spec fn ability_enter_step(
    st: AbilityState,
    key: Seq<char>,
    kr: Range,
    v: ValueModel,
    vr: Range,
    src: Seq<char>,
    loc: Seq<Seq<char>>,
) -> (AbilityState, Seq<RuleDiagModel>) {
    let kl = lower_seq(key);
    if kl == "ability"@ {
        (if v is Block { AbilityState { inside: true, ..st } } else { st }, Seq::empty())
    } else if !st.inside {
        (st, Seq::empty())
    } else if is_block_value(v) {
        if st.depth == 0 {
            let d = AbilityDefModel {
                name: key,
                key_range: kr,
                has_name: false,
                has_desc: false,
                has_cost: false,
                has_duration: false,
                has_type: false,
                has_ai_will_do: false,
            };
            (AbilityState { depth: 1, stack: st.stack.push(d), ..st }, Seq::empty())
        } else {
            let stack = if kl == "ai_will_do"@ && st.stack.len() > 0 {
                st.stack.drop_last().push(AbilityDefModel { has_ai_will_do: true, ..st.stack.last() })
            } else {
                st.stack
            };
            (AbilityState { depth: (st.depth + 1) as u32, stack, ..st }, Seq::empty())
        }
    } else if st.stack.len() == 0 {
        (st, Seq::empty())
    } else {
        let d = st.stack.last();
        let with = |d2: AbilityDefModel| AbilityState { stack: st.stack.drop_last().push(d2), ..st };
        if kl == "name"@ {
            (with(AbilityDefModel { has_name: true, ..d }), loc_findings(d, v, vr, src, loc))
        } else if kl == "desc"@ {
            (with(AbilityDefModel { has_desc: true, ..d }), loc_findings(d, v, vr, src, loc))
        } else if kl == "cost"@ {
            (with(AbilityDefModel { has_cost: true, ..d }), Seq::empty())
        } else if kl == "duration"@ {
            (with(AbilityDefModel { has_duration: true, ..d }), Seq::empty())
        } else if kl == "type"@ {
            (with(AbilityDefModel { has_type: true, ..d }), Seq::empty())
        } else if kl == "ai_will_do"@ {
            (with(AbilityDefModel { has_ai_will_do: true, ..d }), Seq::empty())
        } else {
            (st, Seq::empty())
        }
    }
}

pub open spec fn field_finding(present: bool, f: RuleDiagModel) -> Seq<RuleDiagModel> {
    if present {
        Seq::empty()
    } else {
        seq![f]
    }
}

/// The findings for a finished definition, in the order name, desc, cost,
/// duration, type, `ai_will_do`.
pub open spec fn definition_findings(d: AbilityDefModel) -> Seq<RuleDiagModel> {
    let r = d.key_range;
    let n = d.name;
    field_finding(d.has_name, finding(r, RuleSeverity::Warning, RuleCode::AbilityMissingRequiredField,
        "Ability '"@ + n + "' is missing required 'name' field"@))
    + field_finding(d.has_desc, finding(r, RuleSeverity::Warning, RuleCode::AbilityMissingRequiredField,
        "Ability '"@ + n + "' is missing required 'desc' field"@))
    + field_finding(d.has_cost, finding(r, RuleSeverity::Warning, RuleCode::AbilityMissingRequiredField,
        "Ability '"@ + n + "' is missing required 'cost' field"@))
    + field_finding(d.has_duration, finding(r, RuleSeverity::Information, RuleCode::AbilityMissingRequiredField,
        "Ability '"@ + n + "' is missing 'duration' field (ability will use indefinite duration)"@))
    + field_finding(d.has_type, finding(r, RuleSeverity::Information, RuleCode::AbilityMissingRequiredField,
        "Ability '"@ + n + "' is missing 'type' field (defaults may apply)"@))
    + field_finding(d.has_ai_will_do, finding(r, RuleSeverity::Information, RuleCode::AbilityMissingAiLogic,
        "Ability '"@ + n + "' is missing 'ai_will_do' block (AI will never use this ability)"@))
}

/// Leaving `key = v`: the next state and the findings.
pub open spec fn ability_exit_step(st: AbilityState, key: Seq<char>, v: ValueModel) -> (AbilityState, Seq<RuleDiagModel>) {
    if lower_seq(key) == "ability"@ {
        (if v is Block { AbilityState { inside: false, ..st } } else { st }, Seq::empty())
    } else if st.inside && is_block_value(v) {
        if st.depth == 1 {
            if st.stack.len() > 0 {
                (AbilityState { depth: 0, stack: st.stack.drop_last(), ..st }, definition_findings(st.stack.last()))
            } else {
                (AbilityState { depth: 0, ..st }, Seq::empty())
            }
        } else if st.depth > 1 {
            (AbilityState { depth: (st.depth - 1) as u32, ..st }, Seq::empty())
        } else {
            (st, Seq::empty())
        }
    } else {
        (st, Seq::empty())
    }
}

/// Appends the finding for a name or description without localisation.
fn check_loc(d: &AbilityDef, v: &Value, vr: Range, source: &str, loc: &Vec<String>, out: &mut Vec<RuleDiagnostic>)
    requires
        value_fits(*v, source.spec_bytes()),
    ensures
        diags_model(final(out)@) == diags_model(old(out)@) + loc_findings(
            def_model(*d),
            value_model(*v),
            vr,
            source@,
            strings_view(loc@),
        ),
{
    let ghost before = diags_model(out@);
    match value_chars(v, source) {
        Some(s) => {
            if !contains_chars_in(loc, &s) {
                let mut m = String::new();
                append_str(&mut m, "Ability '");
                append_str(&mut m, d.name.as_str());
                append_str(&mut m, "' is missing localization key: '");
                push_chars(&mut m, &s);
                append_str(&mut m, "'");
                let x = diag(vr, RuleSeverity::Warning, RuleCode::AbilityMissingLocalization, m);
                out.push(x);
                assert(diags_model(out@) =~= before.push(rule_diag_model(x)));
            } else {
                assert(diags_model(out@) =~= before + Seq::<RuleDiagModel>::empty());
            }
        },
        None => {
            assert(diags_model(out@) =~= before + Seq::<RuleDiagModel>::empty());
        },
    }
}

fn push_missing(present: bool, r: Range, severity: RuleSeverity, code: RuleCode, name: &String, text: &str, out: &mut Vec<RuleDiagnostic>)
    ensures
        diags_model(final(out)@) == diags_model(old(out)@) + field_finding(
            present,
            finding(r, severity, code, "Ability '"@ + name@ + text@),
        ),
{
    let ghost before = diags_model(out@);
    if !present {
        let mut m = String::new();
        append_str(&mut m, "Ability '");
        append_str(&mut m, name.as_str());
        append_str(&mut m, text);
        let x = diag(r, severity, code, m);
        out.push(x);
        assert(diags_model(out@) =~= before + seq![rule_diag_model(x)]);
    } else {
        assert(diags_model(out@) =~= before + Seq::<RuleDiagModel>::empty());
    }
}

impl AbilityVisitor {
    /// A walk that has seen nothing yet.
    pub fn new() -> (r: Self)
        ensures
            r@ == (AbilityState { inside: false, depth: 0, stack: Seq::empty() }),
    {
        let r = AbilityVisitor { inside_ability_container: false, block_depth: 0, ability_stack: Vec::new() };
        assert(r@.stack =~= Seq::<AbilityDefModel>::empty());
        r
    }

    /// Replaces the innermost definition.
    fn set_last(&mut self, d: AbilityDef)
        requires
            old(self).ability_stack@.len() > 0,
        ensures
            final(self)@ == (AbilityState { stack: old(self)@.stack.drop_last().push(def_model(d)), ..old(self)@ }),
    {
        let ghost before = self.ability_stack@;
        self.ability_stack.pop();
        self.ability_stack.push(d);
        assert(self.ability_stack@.map_values(|x: AbilityDef| def_model(x)) =~= before.map_values(
            |x: AbilityDef| def_model(x),
        ).drop_last().push(def_model(d)));
    }

    /// Entering an assignment: tracks the definitions and their fields, and
    /// checks that names and descriptions are localised (`loc` holds the
    /// localisation keys).
    pub fn enter_assignment(&mut self, ass: &Assignment, source: &str, loc: &Vec<String>) -> (r: Vec<RuleDiagnostic>)
        requires
            ass.key.fits(source),
            value_fits(ass.value.value, source.spec_bytes()),
            old(self).block_depth < u32::MAX,
        ensures
            (final(self)@, diags_model(r@)) == ability_enter_step(
                old(self)@,
                span_text(source@, ass.key),
                ass.key_range,
                value_model(ass.value.value),
                ass.value.range,
                source@,
                strings_view(loc@),
            ),
    {
        let key = span_chars(&ass.key, source);
        let kl = lower_chars(&key);
        let v = &ass.value.value;
        let mut out: Vec<RuleDiagnostic> = Vec::new();
        assert(diags_model(out@) =~= Seq::<RuleDiagModel>::empty());
        let is_plain_block = match v {
            Value::Block(_) => true,
            _ => false,
        };
        let block = match v {
            Value::Block(_) | Value::TaggedBlock(..) => true,
            _ => false,
        };
        if spells(&kl, "ability") {
            if is_plain_block {
                self.inside_ability_container = true;
            }
            return out;
        }
        if !self.inside_ability_container {
            return out;
        }
        if block {
            if self.block_depth == 0 {
                let ghost before = self.ability_stack@;
                let d = AbilityDef {
                    name: string_of(&key),
                    key_range: ass.key_range,
                    has_name: false,
                    has_desc: false,
                    has_cost: false,
                    has_duration: false,
                    has_type: false,
                    has_ai_will_do: false,
                };
                self.ability_stack.push(d);
                assert(self.ability_stack@.map_values(|x: AbilityDef| def_model(x)) =~= before.map_values(
                    |x: AbilityDef| def_model(x),
                ).push(def_model(d)));
                self.block_depth = 1;
            } else {
                if spells(&kl, "ai_will_do") && self.ability_stack.len() > 0 {
                    let mut d = self.ability_stack[self.ability_stack.len() - 1].clone();
                    d.has_ai_will_do = true;
                    self.set_last(d);
                }
                self.block_depth = self.block_depth + 1;
            }
            return out;
        }
        if self.ability_stack.len() == 0 {
            return out;
        }
        let last = self.ability_stack.len() - 1;
        let mut d = self.ability_stack[last].clone();
        if spells(&kl, "name") {
            check_loc(&d, v, ass.value.range, source, loc, &mut out);
            d.has_name = true;
            self.set_last(d);
        } else if spells(&kl, "desc") {
            check_loc(&d, v, ass.value.range, source, loc, &mut out);
            d.has_desc = true;
            self.set_last(d);
        } else if spells(&kl, "cost") {
            d.has_cost = true;
            self.set_last(d);
        } else if spells(&kl, "duration") {
            d.has_duration = true;
            self.set_last(d);
        } else if spells(&kl, "type") {
            d.has_type = true;
            self.set_last(d);
        } else if spells(&kl, "ai_will_do") {
            d.has_ai_will_do = true;
            self.set_last(d);
        }
        proof {
            assert(Seq::<RuleDiagModel>::empty() + diags_model(out@) =~= diags_model(out@));
        }
        out
    }

    /// Leaving an assignment: a finished definition is checked for its
    /// fields.
    pub fn exit_assignment(&mut self, ass: &Assignment, source: &str) -> (r: Vec<RuleDiagnostic>)
        requires
            ass.key.fits(source),
        ensures
            (final(self)@, diags_model(r@)) == ability_exit_step(
                old(self)@,
                span_text(source@, ass.key),
                value_model(ass.value.value),
            ),
    {
        let kl = lower_chars(&span_chars(&ass.key, source));
        let v = &ass.value.value;
        let mut out: Vec<RuleDiagnostic> = Vec::new();
        assert(diags_model(out@) =~= Seq::<RuleDiagModel>::empty());
        let is_plain_block = match v {
            Value::Block(_) => true,
            _ => false,
        };
        let block = match v {
            Value::Block(_) | Value::TaggedBlock(..) => true,
            _ => false,
        };
        if spells(&kl, "ability") {
            if is_plain_block {
                self.inside_ability_container = false;
            }
            return out;
        }
        if self.inside_ability_container && block {
            if self.block_depth == 1 {
                let ghost before = self.ability_stack@;
                match self.ability_stack.pop() {
                    Some(d) => {
                        proof {
                            assert(self.ability_stack@.map_values(|x: AbilityDef| def_model(x)) =~= before.map_values(
                                |x: AbilityDef| def_model(x),
                            ).drop_last());
                        }
                        let r = d.key_range;
                        let ghost e0 = diags_model(out@);
                        push_missing(d.has_name, r, RuleSeverity::Warning, RuleCode::AbilityMissingRequiredField, &d.name, "' is missing required 'name' field", &mut out);
                        push_missing(d.has_desc, r, RuleSeverity::Warning, RuleCode::AbilityMissingRequiredField, &d.name, "' is missing required 'desc' field", &mut out);
                        push_missing(d.has_cost, r, RuleSeverity::Warning, RuleCode::AbilityMissingRequiredField, &d.name, "' is missing required 'cost' field", &mut out);
                        push_missing(d.has_duration, r, RuleSeverity::Information, RuleCode::AbilityMissingRequiredField, &d.name, "' is missing 'duration' field (ability will use indefinite duration)", &mut out);
                        push_missing(d.has_type, r, RuleSeverity::Information, RuleCode::AbilityMissingRequiredField, &d.name, "' is missing 'type' field (defaults may apply)", &mut out);
                        push_missing(d.has_ai_will_do, r, RuleSeverity::Information, RuleCode::AbilityMissingAiLogic, &d.name, "' is missing 'ai_will_do' block (AI will never use this ability)", &mut out);
                        proof {
                            let n = d.name@;
                            assert("Ability '"@ + n + "' is missing required 'name' field"@ =~= "Ability '"@ + (n + "' is missing required 'name' field"@));
                            assert(diags_model(out@) =~= definition_findings(def_model(d)));
                        }
                    },
                    None => {},
                }
                self.block_depth = 0;
            } else if self.block_depth > 1 {
                self.block_depth = self.block_depth - 1;
            }
        }
        out
    }
}

} // verus!
