//! Ideology references: `ideology` / `has_ideology` must name an ideology,
//! and the slots that take an ideology group (`set_politics.ruling_party`,
//! the keys of `set_popularities`, `add_popularity.ideology`,
//! `has_government`, `has_ideology_group`) must name a group, not a
//! sub-ideology.  Scope references, variables and country tags stand for an
//! ideology and pass.
use vstd::prelude::*;
use vstd::string::*;
use crate::ast::{Range, Assignment, Value, span_text, span_chars, value_fits};
use crate::script::{ValueModel, value_model};
use crate::numtext::lower_seq;
use crate::rules::{lower_chars, spells};
use crate::gfx::value_text;
use crate::oob::is_block_value;
use crate::portraits::strings_view;
use crate::loc_string::{unicode_upper, tag_shaped, str_to_uppercase};
use crate::findings::{RuleSeverity, RuleCode, RuleDiagnostic, RuleDiagModel, rule_diag_model, diags_model};
use crate::text::{chars_of, chars_equal, append_str, push_chars};

verus! {

/// A scope reference, a variable (`var:…`) or a country tag stands for
/// an ideology.
pub open spec fn dynamic_ideology_ref(v: Seq<char>) -> bool {
    let u = unicode_upper(v);
    ||| u == "ROOT"@ || u == "FROM"@ || u == "PREV"@ || u == "THIS"@ || u == "PREVPREV"@ || u == "PREVPREVPREV"@
    ||| u == "PREVPREVPREVPREV"@ || u == "OWNER"@ || u == "CONTROLLER"@ || u == "CAPITAL"@ || u == "FROM.FROM"@
    ||| u == "FROM.FROM.FROM"@
    ||| v.len() >= 4 && v.take(4) == "var:"@
    ||| tag_shaped(v)
}

/// Whether `v` is a scope reference, a variable or a country tag.
pub fn is_dynamic_ideology_ref(v: &str) -> (r: bool)
    ensures
        r == dynamic_ideology_ref(v@),
{
    let u = chars_of(str_to_uppercase(v).as_str());
    let scope = spells(&u, "ROOT") || spells(&u, "FROM") || spells(&u, "PREV") || spells(&u, "THIS")
        || spells(&u, "PREVPREV") || spells(&u, "PREVPREVPREV") || spells(&u, "PREVPREVPREVPREV")
        || spells(&u, "OWNER") || spells(&u, "CONTROLLER") || spells(&u, "CAPITAL") || spells(&u, "FROM.FROM")
        || spells(&u, "FROM.FROM.FROM");
    let cs = chars_of(v);
    proof {
        reveal_strlit("var:");
    }
    let var = cs.len() >= 4 && cs[0] == 'v' && cs[1] == 'a' && cs[2] == 'r' && cs[3] == ':';
    assert(var == (v@.len() >= 4 && v@.take(4) == "var:"@)) by {
        if v@.len() >= 4 && v@.take(4) == "var:"@ {
            assert(v@.take(4)[0] == 'v' && v@.take(4)[1] == 'a' && v@.take(4)[2] == 'r' && v@.take(4)[3] == ':');
        }
        if var {
            assert(v@.take(4) =~= "var:"@);
        }
    }
    let t = |c: char| -> (b: bool)
        ensures
            b == (('A' <= c && c <= 'Z') || ('0' <= c && c <= '9')),
    { ('A' <= c && c <= 'Z') || ('0' <= c && c <= '9') };
    let tag = cs.len() == 3 && t(cs[0]) && t(cs[1]) && t(cs[2]);
    scope || var || tag
}

/// An ideology group, compared without regard to ASCII case.
pub open spec fn is_group(groups: Seq<Seq<char>>, v: Seq<char>) -> bool {
    exists|i: int| 0 <= i < groups.len() && lower_seq(#[trigger] groups[i]) == lower_seq(v)
}

/// The parent of the sub-ideology named `v`: the first with that exact
/// name, else the first whose name is `v` in another ASCII case.
pub open spec fn sub_parent_exact(subs: Seq<(Seq<char>, Seq<char>)>, v: Seq<char>) -> Option<Seq<char>>
    decreases subs.len(),
{
    if subs.len() == 0 {
        None
    } else if subs[0].0 == v {
        Some(subs[0].1)
    } else {
        sub_parent_exact(subs.drop_first(), v)
    }
}

pub open spec fn sub_parent_ci(subs: Seq<(Seq<char>, Seq<char>)>, v: Seq<char>) -> Option<Seq<char>>
    decreases subs.len(),
{
    if subs.len() == 0 {
        None
    } else if lower_seq(subs[0].0) == lower_seq(v) {
        Some(subs[0].1)
    } else {
        sub_parent_ci(subs.drop_first(), v)
    }
}

pub open spec fn sub_parent(subs: Seq<(Seq<char>, Seq<char>)>, v: Seq<char>) -> Option<Seq<char>> {
    match sub_parent_exact(subs, v) {
        Some(p) => Some(p),
        None => sub_parent_ci(subs, v),
    }
}

pub open spec fn subs_view(v: Seq<(String, String)>) -> Seq<(Seq<char>, Seq<char>)> {
    v.map_values(|p: (String, String)| (p.0@, p.1@))
}

/// The finding for `token` in the group-only `slot`.
pub open spec fn group_finding(r: Range, token: Seq<char>, slot: Seq<char>, subs: Seq<(Seq<char>, Seq<char>)>) -> RuleDiagModel {
    match sub_parent(subs, token) {
        Some(p) => RuleDiagModel {
            range: r,
            severity: RuleSeverity::Warning,
            code: Some(RuleCode::InvalidRulingParty),
            message: "'"@ + token + "' is a sub-ideology of '"@ + p + "' — "@ + slot + " only accepts ideology groups"@,
            data: Some(p),
        },
        None => RuleDiagModel {
            range: r,
            severity: RuleSeverity::Warning,
            code: Some(RuleCode::InvalidRulingParty),
            message: "Unknown ideology group: '"@ + token + "' — "@ + slot + " only accepts ideology groups"@,
            data: None,
        },
    }
}

fn string_of(v: &Vec<char>) -> (s: String)
    ensures
        s@ == v@,
{
    let mut s = String::new();
    push_chars(&mut s, v);
    s
}

fn group_known(groups: &Vec<String>, v: &Vec<char>) -> (r: bool)
    ensures
        r == is_group(strings_view(groups@), v@),
{
    let ghost g = strings_view(groups@);
    let lv = lower_chars(v);
    let mut k: usize = 0;
    while k < groups.len()
        invariant
            k <= groups@.len(),
            g == strings_view(groups@),
            lv@ == lower_seq(v@),
            forall|j: int| 0 <= j < k ==> lower_seq(#[trigger] g[j]) != lower_seq(v@),
        decreases groups.len() - k,
    {
        let lg = lower_chars(&chars_of(groups[k].as_str()));
        if chars_equal(&lg, &lv) {
            assert(lower_seq(g[k as int]) == lower_seq(v@));
            return true;
        }
        k += 1;
    }
    false
}

fn find_parent(subs: &Vec<(String, String)>, v: &Vec<char>) -> (r: Option<String>)
    ensures
        match r {
            Some(p) => sub_parent(subs_view(subs@), v@) == Some(p@),
            None => sub_parent(subs_view(subs@), v@) is None,
        },
{
    let ghost sv = subs_view(subs@);
    let mut k: usize = 0;
    assert(sv.skip(0) =~= sv);
    while k < subs.len()
        invariant
            k <= subs@.len(),
            sv == subs_view(subs@),
            sub_parent_exact(sv, v@) == sub_parent_exact(sv.skip(k as int), v@),
        decreases subs.len() - k,
    {
        assert(sv.skip(k as int)[0] == sv[k as int]);
        assert(sv.skip(k as int).drop_first() =~= sv.skip(k + 1));
        if chars_equal(&chars_of(subs[k].0.as_str()), v) {
            return Some(subs[k].1.clone());
        }
        k += 1;
    }
    assert(sv.skip(k as int) =~= Seq::<(Seq<char>, Seq<char>)>::empty());
    let lv = lower_chars(v);
    let mut k: usize = 0;
    while k < subs.len()
        invariant
            k <= subs@.len(),
            sv == subs_view(subs@),
            lv@ == lower_seq(v@),
            sub_parent_exact(sv, v@) is None,
            sub_parent_ci(sv, v@) == sub_parent_ci(sv.skip(k as int), v@),
        decreases subs.len() - k,
    {
        assert(sv.skip(k as int)[0] == sv[k as int]);
        assert(sv.skip(k as int).drop_first() =~= sv.skip(k + 1));
        if chars_equal(&lower_chars(&chars_of(subs[k].0.as_str())), &lv) {
            return Some(subs[k].1.clone());
        }
        k += 1;
    }
    assert(sv.skip(k as int) =~= Seq::<(Seq<char>, Seq<char>)>::empty());
    None
}

fn group_diag(r: Range, token: &Vec<char>, slot: &str, subs: &Vec<(String, String)>) -> (d: RuleDiagnostic)
    ensures
        rule_diag_model(d) == group_finding(r, token@, slot@, subs_view(subs@)),
{
    let mut m = String::new();
    match find_parent(subs, token) {
        Some(p) => {
            append_str(&mut m, "'");
            push_chars(&mut m, token);
            append_str(&mut m, "' is a sub-ideology of '");
            append_str(&mut m, p.as_str());
            append_str(&mut m, "' — ");
            append_str(&mut m, slot);
            append_str(&mut m, " only accepts ideology groups");
            RuleDiagnostic { range: r, severity: RuleSeverity::Warning, code: Some(RuleCode::InvalidRulingParty), message: m, data: Some(p) }
        },
        None => {
            append_str(&mut m, "Unknown ideology group: '");
            push_chars(&mut m, token);
            append_str(&mut m, "' — ");
            append_str(&mut m, slot);
            append_str(&mut m, " only accepts ideology groups");
            RuleDiagnostic { range: r, severity: RuleSeverity::Warning, code: Some(RuleCode::InvalidRulingParty), message: m, data: None }
        },
    }
}

// ---------------------------------------------------------------------------
// `ideology` and `has_ideology`
// ---------------------------------------------------------------------------

/// `ideology` / `has_ideology` (in any ASCII case) naming no ideology,
/// sub-ideology, scope, variable or tag.
pub open spec fn ideology_reference_findings(
    key: Seq<char>,
    v: ValueModel,
    vr: Range,
    src: Seq<char>,
    groups: Seq<Seq<char>>,
    subs: Seq<(Seq<char>, Seq<char>)>,
) -> Seq<RuleDiagModel> {
    let kl = lower_seq(key);
    if kl == "ideology"@ || kl == "has_ideology"@ {
        match value_text(src, v) {
            Some(s) => if groups.contains(s) || sub_parent_exact(subs, s) is Some || dynamic_ideology_ref(s) {
                Seq::empty()
            } else {
                seq![RuleDiagModel {
                    range: vr,
                    severity: RuleSeverity::Warning,
                    code: Some(RuleCode::UnknownTrigger),
                    message: "Unknown ideology: '"@ + s + "'"@,
                    data: None,
                }]
            },
            None => Seq::empty(),
        }
    } else {
        Seq::empty()
    }
}

fn value_chars(v: &Value, source: &str) -> (r: Option<Vec<char>>)
    requires
        value_fits(*v, source.spec_bytes()),
    ensures
        match r {
            Some(t) => value_text(source@, value_model(*v)) == Some(t@),
            None => value_text(source@, value_model(*v)) is None,
        },
{
    match v {
        Value::String(s) => Some(span_chars(s, source)),
        Value::QuotedString(s) => Some(chars_of(s.as_str())),
        _ => None,
    }
}

fn contains_exact(v: &Vec<String>, x: &Vec<char>) -> (r: bool)
    ensures
        r == strings_view(v@).contains(x@),
{
    let ghost sv = strings_view(v@);
    let mut k: usize = 0;
    while k < v.len()
        invariant
            k <= v@.len(),
            sv == strings_view(v@),
            forall|j: int| 0 <= j < k ==> sv[j] != x@,
        decreases v.len() - k,
    {
        if chars_equal(&chars_of(v[k].as_str()), x) {
            assert(sv[k as int] == x@);
            return true;
        }
        k += 1;
    }
    assert(!sv.contains(x@));
    false
}

fn has_sub_exact(subs: &Vec<(String, String)>, x: &Vec<char>) -> (r: bool)
    ensures
        r == sub_parent_exact(subs_view(subs@), x@) is Some,
{
    let ghost sv = subs_view(subs@);
    let mut k: usize = 0;
    assert(sv.skip(0) =~= sv);
    while k < subs.len()
        invariant
            k <= subs@.len(),
            sv == subs_view(subs@),
            sub_parent_exact(sv, x@) == sub_parent_exact(sv.skip(k as int), x@),
        decreases subs.len() - k,
    {
        assert(sv.skip(k as int)[0] == sv[k as int]);
        assert(sv.skip(k as int).drop_first() =~= sv.skip(k + 1));
        if chars_equal(&chars_of(subs[k].0.as_str()), x) {
            return true;
        }
        k += 1;
    }
    assert(sv.skip(k as int) =~= Seq::<(Seq<char>, Seq<char>)>::empty());
    false
}

/// The finding, if any, for `ideology = …` or `has_ideology = …`.
pub fn check_ideology_reference(
    ass: &Assignment,
    source: &str,
    ideologies: &Vec<String>,
    sub_ideologies: &Vec<(String, String)>,
) -> (r: Vec<RuleDiagnostic>)
    requires
        ass.key.fits(source),
        value_fits(ass.value.value, source.spec_bytes()),
    ensures
        diags_model(r@) == ideology_reference_findings(
            span_text(source@, ass.key),
            value_model(ass.value.value),
            ass.value.range,
            source@,
            strings_view(ideologies@),
            subs_view(sub_ideologies@),
        ),
{
    let mut out: Vec<RuleDiagnostic> = Vec::new();
    assert(diags_model(out@) =~= Seq::<RuleDiagModel>::empty());
    let kl = lower_chars(&span_chars(&ass.key, source));
    if spells(&kl, "ideology") || spells(&kl, "has_ideology") {
        match value_chars(&ass.value.value, source) {
            Some(s) => {
                let sv = string_of(&s);
                if !contains_exact(ideologies, &s) && !has_sub_exact(sub_ideologies, &s) && !is_dynamic_ideology_ref(sv.as_str()) {
                    let mut m = String::new();
                    append_str(&mut m, "Unknown ideology: '");
                    push_chars(&mut m, &s);
                    append_str(&mut m, "'");
                    let d = RuleDiagnostic { range: ass.value.range, severity: RuleSeverity::Warning, code: Some(RuleCode::UnknownTrigger), message: m, data: None };
                    out.push(d);
                    assert(diags_model(out@) =~= seq![rule_diag_model(d)]);
                }
            },
            None => {},
        }
    }
    out
}

// ---------------------------------------------------------------------------
// Group-only slots
// ---------------------------------------------------------------------------

/// How deep the walk is inside `set_politics`, `set_popularities` and
/// `add_popularity` blocks.
#[derive(Debug, Clone, Copy, PartialEq, Eq, Structural)]
pub struct IdeologyVisitor {
    pub set_politics_depth: u32,
    pub set_popularities_depth: u32,
    pub add_popularity_depth: u32,
}

/// The finding for a group-only slot's value: none for a scope, variable,
/// tag or group.
pub open spec fn group_value_findings(v: ValueModel, vr: Range, src: Seq<char>, slot: Seq<char>, groups: Seq<Seq<char>>, subs: Seq<(Seq<char>, Seq<char>)>) -> Seq<RuleDiagModel> {
    match value_text(src, v) {
        Some(s) => if dynamic_ideology_ref(s) || is_group(groups, s) {
            Seq::empty()
        } else {
            seq![group_finding(vr, s, slot, subs)]
        },
        None => Seq::empty(),
    }
}

/// Entering `key = v`: the next depths and the findings.
pub open spec fn ideology_enter_step(
    st: IdeologyVisitor,
    key: Seq<char>,
    kr: Range,
    v: ValueModel,
    vr: Range,
    src: Seq<char>,
    groups: Seq<Seq<char>>,
    subs: Seq<(Seq<char>, Seq<char>)>,
) -> (IdeologyVisitor, Seq<RuleDiagModel>) {
    let kl = lower_seq(key);
    if is_block_value(v) && kl == "set_politics"@ {
        (IdeologyVisitor { set_politics_depth: (st.set_politics_depth + 1) as u32, ..st }, Seq::empty())
    } else if is_block_value(v) && kl == "set_popularities"@ {
        (IdeologyVisitor { set_popularities_depth: (st.set_popularities_depth + 1) as u32, ..st }, Seq::empty())
    } else if is_block_value(v) && kl == "add_popularity"@ {
        (IdeologyVisitor { add_popularity_depth: (st.add_popularity_depth + 1) as u32, ..st }, Seq::empty())
    } else if st.set_popularities_depth > 0 {
        (st, if is_group(groups, key) {
            Seq::empty()
        } else {
            seq![group_finding(kr, key, "set_popularities"@, subs)]
        })
    } else if kl == "ruling_party"@ && st.set_politics_depth > 0 {
        (st, group_value_findings(v, vr, src, "set_politics.ruling_party"@, groups, subs))
    } else if kl == "ideology"@ && st.add_popularity_depth > 0 {
        (st, group_value_findings(v, vr, src, "add_popularity.ideology"@, groups, subs))
    } else if kl == "has_government"@ {
        (st, group_value_findings(v, vr, src, "has_government"@, groups, subs))
    } else if kl == "has_ideology_group"@ {
        (st, group_value_findings(v, vr, src, "has_ideology_group"@, groups, subs))
    } else {
        (st, Seq::empty())
    }
}

/// Leaving `key = v`: a tracked block is left.
pub open spec fn ideology_exit_step(st: IdeologyVisitor, key: Seq<char>, v: ValueModel) -> IdeologyVisitor {
    let kl = lower_seq(key);
    if !is_block_value(v) {
        st
    } else if kl == "set_politics"@ {
        IdeologyVisitor { set_politics_depth: if st.set_politics_depth > 0 { (st.set_politics_depth - 1) as u32 } else { 0 }, ..st }
    } else if kl == "set_popularities"@ {
        IdeologyVisitor { set_popularities_depth: if st.set_popularities_depth > 0 { (st.set_popularities_depth - 1) as u32 } else { 0 }, ..st }
    } else if kl == "add_popularity"@ {
        IdeologyVisitor { add_popularity_depth: if st.add_popularity_depth > 0 { (st.add_popularity_depth - 1) as u32 } else { 0 }, ..st }
    } else {
        st
    }
}

fn check_group_value(
    v: &Value,
    vr: Range,
    source: &str,
    slot: &str,
    groups: &Vec<String>,
    subs: &Vec<(String, String)>,
) -> (r: Vec<RuleDiagnostic>)
    requires
        value_fits(*v, source.spec_bytes()),
    ensures
        diags_model(r@) == group_value_findings(value_model(*v), vr, source@, slot@, strings_view(groups@), subs_view(subs@)),
{
    let mut out: Vec<RuleDiagnostic> = Vec::new();
    assert(diags_model(out@) =~= Seq::<RuleDiagModel>::empty());
    match value_chars(v, source) {
        Some(s) => {
            let sv = string_of(&s);
            if !(is_dynamic_ideology_ref(sv.as_str()) || group_known(groups, &s)) {
                let d = group_diag(vr, &s, slot, subs);
                out.push(d);
                assert(diags_model(out@) =~= seq![rule_diag_model(d)]);
            }
        },
        None => {},
    }
    out
}

impl IdeologyVisitor {
    /// Outside every tracked block.
    pub fn new() -> (r: Self)
        ensures
            r == (IdeologyVisitor { set_politics_depth: 0, set_popularities_depth: 0, add_popularity_depth: 0 }),
    {
        IdeologyVisitor { set_politics_depth: 0, set_popularities_depth: 0, add_popularity_depth: 0 }
    }

    /// Entering an assignment, given the ideology groups and the
    /// sub-ideologies with their groups.
    pub fn enter_assignment(
        &mut self,
        ass: &Assignment,
        source: &str,
        ideologies: &Vec<String>,
        sub_ideologies: &Vec<(String, String)>,
    ) -> (r: Vec<RuleDiagnostic>)
        requires
            ass.key.fits(source),
            value_fits(ass.value.value, source.spec_bytes()),
            old(self).set_politics_depth < u32::MAX,
            old(self).set_popularities_depth < u32::MAX,
            old(self).add_popularity_depth < u32::MAX,
        ensures
            (*final(self), diags_model(r@)) == ideology_enter_step(
                *old(self),
                span_text(source@, ass.key),
                ass.key_range,
                value_model(ass.value.value),
                ass.value.range,
                source@,
                strings_view(ideologies@),
                subs_view(sub_ideologies@),
            ),
    {
        let key = span_chars(&ass.key, source);
        let kl = lower_chars(&key);
        let v = &ass.value.value;
        let block = match v {
            Value::Block(_) | Value::TaggedBlock(..) => true,
            _ => false,
        };
        let mut out: Vec<RuleDiagnostic> = Vec::new();
        assert(diags_model(out@) =~= Seq::<RuleDiagModel>::empty());
        if block && spells(&kl, "set_politics") {
            self.set_politics_depth = self.set_politics_depth + 1;
            return out;
        }
        if block && spells(&kl, "set_popularities") {
            self.set_popularities_depth = self.set_popularities_depth + 1;
            return out;
        }
        if block && spells(&kl, "add_popularity") {
            self.add_popularity_depth = self.add_popularity_depth + 1;
            return out;
        }
        if self.set_popularities_depth > 0 {
            if !group_known(ideologies, &key) {
                let d = group_diag(ass.key_range, &key, "set_popularities", sub_ideologies);
                out.push(d);
                assert(diags_model(out@) =~= seq![rule_diag_model(d)]);
            }
            return out;
        }
        if spells(&kl, "ruling_party") && self.set_politics_depth > 0 {
            check_group_value(v, ass.value.range, source, "set_politics.ruling_party", ideologies, sub_ideologies)
        } else if spells(&kl, "ideology") && self.add_popularity_depth > 0 {
            check_group_value(v, ass.value.range, source, "add_popularity.ideology", ideologies, sub_ideologies)
        } else if spells(&kl, "has_government") {
            check_group_value(v, ass.value.range, source, "has_government", ideologies, sub_ideologies)
        } else if spells(&kl, "has_ideology_group") {
            check_group_value(v, ass.value.range, source, "has_ideology_group", ideologies, sub_ideologies)
        } else {
            out
        }
    }

    /// Leaving an assignment.
    pub fn exit_assignment(&mut self, ass: &Assignment, source: &str)
        requires
            ass.key.fits(source),
        ensures
            *final(self) == ideology_exit_step(*old(self), span_text(source@, ass.key), value_model(ass.value.value)),
    {
        let block = match &ass.value.value {
            Value::Block(_) | Value::TaggedBlock(..) => true,
            _ => false,
        };
        if !block {
            return;
        }
        let kl = lower_chars(&span_chars(&ass.key, source));
        if spells(&kl, "set_politics") {
            self.set_politics_depth = if self.set_politics_depth > 0 { self.set_politics_depth - 1 } else { 0 };
        } else if spells(&kl, "set_popularities") {
            self.set_popularities_depth = if self.set_popularities_depth > 0 { self.set_popularities_depth - 1 } else { 0 };
        } else if spells(&kl, "add_popularity") {
            self.add_popularity_depth = if self.add_popularity_depth > 0 { self.add_popularity_depth - 1 } else { 0 };
        }
    }
}

} // verus!

verus! {

/// The scope references that stand for a country, by their upper-case text.
pub open spec fn scope_reference_upper(u: Seq<char>) -> bool {
    ||| "ROOT"@ == u
    ||| "FROM"@ == u
    ||| "PREV"@ == u
    ||| "THIS"@ == u
    ||| "PREVPREV"@ == u
    ||| "PREVPREVPREV"@ == u
    ||| "PREVPREVPREVPREV"@ == u
    ||| "OWNER"@ == u
    ||| "CONTROLLER"@ == u
    ||| "CAPITAL"@ == u
    ||| "FROM.FROM"@ == u
    ||| "FROM.FROM.FROM"@ == u
}

/// A scope reference (`ROOT`, `FROM`, `PREV`, `THIS`, `PREVPREV`, …,
/// `OWNER`, `CONTROLLER`, `CAPITAL`, in any case: its upper-case text is
/// one of them), a variable (`var:…`) or a three-character country tag is
/// a dynamic ideology reference, and as the value of any
/// ideology or ideology-group slot (`ideology`, `has_ideology`,
/// `has_government`, `has_ideology_group`, `set_politics.ruling_party`,
/// `add_popularity.ideology`) it gives no finding, whatever ideologies are
/// defined.
pub proof fn law_scope_references_pass_ideology_slots(
    st: IdeologyVisitor,
    key: Seq<char>,
    kr: Range,
    v: ValueModel,
    vr: Range,
    src: Seq<char>,
    groups: Seq<Seq<char>>,
    subs: Seq<(Seq<char>, Seq<char>)>,
)
    requires
        value_text(src, v) matches Some(s) && (scope_reference_upper(unicode_upper(s))
            || (s.len() >= 4 && s[0] == 'v' && s[1] == 'a' && s[2] == 'r' && s[3] == ':')
            || (s.len() == 3 && forall|i: int| 0 <= i < 3 ==> ('A' <= #[trigger] s[i] && s[i] <= 'Z') || ('0' <= s[i] && s[i] <= '9'))),
        st.set_popularities_depth == 0,
    ensures
        dynamic_ideology_ref(value_text(src, v)->0),
        ideology_reference_findings(key, v, vr, src, groups, subs) == Seq::<RuleDiagModel>::empty(),
        ideology_enter_step(st, key, kr, v, vr, src, groups, subs).1 == Seq::<RuleDiagModel>::empty(),
{
    assert(!is_block_value(v));
    let s = value_text(src, v)->0;
    reveal_strlit("var:");
    if s.len() >= 4 && s[0] == 'v' && s[1] == 'a' && s[2] == 'r' && s[3] == ':' {
        assert(s.take(4) =~= "var:"@);
    }
    if s.len() == 3 && forall|i: int| 0 <= i < 3 ==> ('A' <= #[trigger] s[i] && s[i] <= 'Z') || ('0' <= s[i] && s[i] <= '9') {
        assert(tag_shaped(s)) by {
            assert(('A' <= s[0] && s[0] <= 'Z') || ('0' <= s[0] && s[0] <= '9'));
            assert(('A' <= s[1] && s[1] <= 'Z') || ('0' <= s[1] && s[1] <= '9'));
            assert(('A' <= s[2] && s[2] <= 'Z') || ('0' <= s[2] && s[2] <= '9'));
        }
    }
}

} // verus!
