//! Character definitions: skill levels inside `create_field_marshal`,
//! `create_corps_commander`, `create_navy_leader` and
//! `create_operative_leader` blocks.  The overall `skill` is capped at 9 by
//! the engine; the sub-skills' bonus stops at 10; negative values are
//! clamped.  The value of an assignment, read as an `i32`, is handed in by
//! the caller (numbers are read as floating point, outside the library).
use vstd::prelude::*;
use crate::ast::Range;
use crate::numtext::lower_seq;
use crate::rules::{CharacterVisitor, character_type, detect_character_type, ascii_lowercase, spells};
use crate::findings::{RuleSeverity, RuleCode, RuleDiagnostic, RuleDiagModel, rule_diag_model, diags_model};
use crate::text::{append_str, u32_to_decimal, decimal, literal, str_is};

verus! {

/// The decimal text of `n`, with a minus sign when negative.
pub open spec fn int_text(n: int) -> Seq<char> {
    if n < 0 {
        seq!['-'] + decimal((-n) as nat)
    } else {
        decimal(n as nat)
    }
}

pub(crate) fn i32_text(n: i32) -> (s: String)
    ensures
        s@ == int_text(n as int),
{
    if n < 0 {
        let m = (-(n as i64)) as u32;
        let mut s = literal("-");
        proof {
            reveal_strlit("-");
        }
        append_str(&mut s, u32_to_decimal(m).as_str());
        assert(s@ =~= seq!['-'] + decimal(m as nat));
        s
    } else {
        u32_to_decimal(n as u32)
    }
}

/// The sub-skills, compared exactly.
pub open spec fn is_sub_skill(k: Seq<char>) -> bool {
    k == "attack_skill"@ || k == "defense_skill"@ || k == "planning_skill"@ || k == "logistics_skill"@
        || k == "coordination_skill"@ || k == "maneuvering_skill"@
}

pub open spec fn character_stack(v: &CharacterVisitor) -> Seq<Seq<char>> {
    v.char_type_stack@.map_values(|s: &'static str| s@)
}

pub open spec fn diag_with(r: Range, sev: RuleSeverity, code: RuleCode, m: Seq<char>, fix: Seq<char>) -> RuleDiagModel {
    RuleDiagModel { range: r, severity: sev, code: Some(code), message: m, data: Some(fix) }
}

/// The findings for `key = value` inside a character of type `ct`, the
/// value read as the integer `n`.
pub open spec fn skill_findings(key: Seq<char>, ct: Seq<char>, vr: Range, n: Option<i32>) -> Seq<RuleDiagModel> {
    (if lower_seq(key) == "skill"@ {
        match n {
            Some(x) => if x < 0 {
                seq![diag_with(vr, RuleSeverity::Warning, RuleCode::CharacterNegativeSkill,
                    "Skill level "@ + int_text(x as int) + " for "@ + ct + " is negative; the game will clamp it to 0 in-game"@,
                    "Set to at least 1 (max 9)"@)]
            } else if x > 9 {
                seq![diag_with(vr, RuleSeverity::Error, RuleCode::CharacterSkillExceedsMax,
                    "Skill level "@ + int_text(x as int) + " exceeds maximum 9 for "@ + ct,
                    "Set to maximum skill: 9"@)]
            } else {
                Seq::empty()
            },
            None => Seq::empty(),
        }
    } else {
        Seq::empty()
    }) + if is_sub_skill(key) {
        match n {
            Some(x) => if x < 0 {
                seq![diag_with(vr, RuleSeverity::Warning, RuleCode::CharacterNegativeSkill,
                    key + " is "@ + int_text(x as int) + "; negative values are clamped to 1 in-game"@,
                    "Set to at least 0 (practical cap 10)"@)]
            } else if x > 10 {
                seq![diag_with(vr, RuleSeverity::Warning, RuleCode::CharacterSubskillExceedsPractical,
                    key + " is "@ + int_text(x as int)
                        + "; the gameplay bonus caps at level 10 (higher values are accepted but confer no extra benefit)"@,
                    "Set to 10"@)]
            } else {
                Seq::empty()
            },
            None => Seq::empty(),
        }
    } else {
        Seq::empty()
    }
}

/// Entering `key = value`: a character definition key pushes its type; inside
/// a character, skills are checked.
pub open spec fn character_enter_step(st: Seq<Seq<char>>, key: Seq<char>, vr: Range, n: Option<i32>) -> (Seq<Seq<char>>, Seq<RuleDiagModel>) {
    let st2 = match character_type(lower_seq(key)) {
        Some(t) => st.push(t),
        None => st,
    };
    if st2.len() == 0 {
        (st2, Seq::empty())
    } else {
        (st2, skill_findings(key, st2.last(), vr, n))
    }
}

/// Leaving a character definition pops its type.
pub open spec fn character_exit_step(st: Seq<Seq<char>>, key: Seq<char>) -> Seq<Seq<char>> {
    if character_type(lower_seq(key)) is Some && st.len() > 0 {
        st.drop_last()
    } else {
        st
    }
}

fn push_one(out: &mut Vec<RuleDiagnostic>, r: Range, sev: RuleSeverity, code: RuleCode, m: String, fix: &str)
    ensures
        diags_model(final(out)@) == diags_model(old(out)@).push(diag_with(r, sev, code, m@, fix@)),
{
    let d = RuleDiagnostic { range: r, severity: sev, code: Some(code), message: m, data: Some(literal(fix)) };
    let ghost o = out@;
    out.push(d);
    assert(diags_model(out@) =~= diags_model(o).push(rule_diag_model(d)));
}

impl CharacterVisitor {
    /// Entering an assignment with key `key` whose value, read as an `i32`,
    /// is `value` (at `value_range`).
    pub fn enter_assignment(&mut self, key: &str, value_range: Range, value: Option<i32>) -> (r: Vec<RuleDiagnostic>)
        ensures
            (character_stack(final(self)), diags_model(r@)) == character_enter_step(character_stack(old(self)), key@, value_range, value),
    {
        let ghost st = character_stack(self);
        match detect_character_type(key) {
            Some(t) => {
                self.char_type_stack.push(t);
                assert(character_stack(self) =~= st.push(t@));
            },
            None => {},
        }
        let ghost st2 = character_stack(self);
        let mut out: Vec<RuleDiagnostic> = Vec::new();
        assert(diags_model(out@) =~= Seq::<RuleDiagModel>::empty());
        match self.current_character_type() {
            None => out,
            Some(ct) => {
                assert(ct@ == st2.last());
                let l = ascii_lowercase(key);
                if spells(&l, "skill") {
                    match value {
                        Some(x) => {
                            if x < 0 {
                                let mut m = literal("Skill level ");
                                append_str(&mut m, i32_text(x).as_str());
                                append_str(&mut m, " for ");
                                append_str(&mut m, ct);
                                append_str(&mut m, " is negative; the game will clamp it to 0 in-game");
                                push_one(&mut out, value_range, RuleSeverity::Warning, RuleCode::CharacterNegativeSkill, m, "Set to at least 1 (max 9)");
                            } else if x > 9 {
                                let mut m = literal("Skill level ");
                                append_str(&mut m, i32_text(x).as_str());
                                append_str(&mut m, " exceeds maximum 9 for ");
                                append_str(&mut m, ct);
                                push_one(&mut out, value_range, RuleSeverity::Error, RuleCode::CharacterSkillExceedsMax, m, "Set to maximum skill: 9");
                            }
                        },
                        None => {},
                    }
                }
                let ghost first = diags_model(out@);
                if str_is(key, "attack_skill") || str_is(key, "defense_skill") || str_is(key, "planning_skill")
                    || str_is(key, "logistics_skill") || str_is(key, "coordination_skill") || str_is(key, "maneuvering_skill") {
                    match value {
                        Some(x) => {
                            if x < 0 {
                                let mut m = literal(key);
                                append_str(&mut m, " is ");
                                append_str(&mut m, i32_text(x).as_str());
                                append_str(&mut m, "; negative values are clamped to 1 in-game");
                                push_one(&mut out, value_range, RuleSeverity::Warning, RuleCode::CharacterNegativeSkill, m, "Set to at least 0 (practical cap 10)");
                            } else if x > 10 {
                                let mut m = literal(key);
                                append_str(&mut m, " is ");
                                append_str(&mut m, i32_text(x).as_str());
                                append_str(&mut m, "; the gameplay bonus caps at level 10 (higher values are accepted but confer no extra benefit)");
                                push_one(&mut out, value_range, RuleSeverity::Warning, RuleCode::CharacterSubskillExceedsPractical, m, "Set to 10");
                            }
                        },
                        None => {},
                    }
                }
                assert(diags_model(out@) =~= skill_findings(key@, ct@, value_range, value));
                out
            },
        }
    }

    /// Leaving an assignment with key `key`.
    pub fn exit_assignment(&mut self, key: &str)
        ensures
            character_stack(final(self)) == character_exit_step(character_stack(old(self)), key@),
    {
        let ghost st = character_stack(self);
        if detect_character_type(key).is_some() && self.char_type_stack.len() > 0 {
            self.char_type_stack.pop();
            assert(character_stack(self) =~= st.drop_last());
        }
    }
}

} // verus!

verus! {

/// The sub-skill keys of a character definition.
pub open spec fn sub_skill_key(k: Seq<char>) -> bool {
    ||| "attack_skill"@ == k || "defense_skill"@ == k || "planning_skill"@ == k
    ||| "logistics_skill"@ == k || "coordination_skill"@ == k || "maneuvering_skill"@ == k
}

proof fn lemma_lower_of_lower(k: Seq<char>)
    requires
        forall|i: int| 0 <= i < k.len() ==> !('A' <= #[trigger] k[i] && k[i] <= 'Z'),
    ensures
        lower_seq(k) == k,
{
    assert(lower_seq(k) =~= k);
}

/// Inside a character definition, a sub-skill (`attack_skill`,
/// `defense_skill`, `planning_skill`, `logistics_skill`,
/// `coordination_skill`, `maneuvering_skill`) above 10 gives exactly one
/// warning that its bonus stops at 10, one below 0 exactly one
/// negative-skill warning, and one from 0 to 10 nothing; all at the value.
pub proof fn law_sub_skills_are_checked(st: Seq<Seq<char>>, key: Seq<char>, vr: Range, x: i32)
    requires
        st.len() > 0,
        sub_skill_key(key),
    ensures
        ({
            let d = character_enter_step(st, key, vr, Some(x)).1;
            &&& x > 10 ==> d.len() == 1 && d[0].code == Some(RuleCode::CharacterSubskillExceedsPractical)
                && d[0].severity == RuleSeverity::Warning && d[0].range == vr
            &&& x < 0 ==> d.len() == 1 && d[0].code == Some(RuleCode::CharacterNegativeSkill)
                && d[0].severity == RuleSeverity::Warning && d[0].range == vr
            &&& 0 <= x <= 10 ==> d.len() == 0
        }),
{
    reveal_strlit("attack_skill");
    reveal_strlit("defense_skill");
    reveal_strlit("planning_skill");
    reveal_strlit("logistics_skill");
    reveal_strlit("coordination_skill");
    reveal_strlit("maneuvering_skill");
    reveal_strlit("skill");
    reveal_strlit("create_field_marshal");
    reveal_strlit("field_marshal");
    reveal_strlit("create_corps_commander");
    reveal_strlit("corps_commander");
    reveal_strlit("create_navy_leader");
    reveal_strlit("navy_leader");
    reveal_strlit("create_operative_leader");
    lemma_lower_of_lower(key);
    assert(lower_seq(key) == key);
    assert(key.len() >= 12);
    assert(key != "skill"@);
    assert(key[key.len() - 2] == 'l');
    assert(character_type(key) is None) by {
        assert("create_field_marshal"@[19] == 'l' && "create_field_marshal"@[18] == 'a');
        assert("field_marshal"@[11] == 'a');
        assert("create_navy_leader"@[16] == 'e' && "navy_leader"@[9] == 'e');
        assert("create_corps_commander"@[20] == 'e' && "corps_commander"@[13] == 'e');
        assert("create_operative_leader"@[21] == 'e');
        assert(key != "create_field_marshal"@ && key != "field_marshal"@);
        assert(key != "create_corps_commander"@ && key != "corps_commander"@);
        assert(key != "create_navy_leader"@ && key != "navy_leader"@);
        assert(key != "create_operative_leader"@);
    }
    assert(is_sub_skill(key));
}

} // verus!

verus! {

/// Inside a character definition, the overall `skill` (in any ASCII case)
/// above 9 gives exactly one error that it exceeds the maximum, below 0
/// exactly one negative-skill warning, and from 0 to 9 nothing; all at the
/// value.
pub proof fn law_skill_level_is_checked(st: Seq<Seq<char>>, key: Seq<char>, vr: Range, x: i32)
    requires
        st.len() > 0,
        key.len() == 5,
        key[0] == 's' || key[0] == 'S',
        key[1] == 'k' || key[1] == 'K',
        key[2] == 'i' || key[2] == 'I',
        key[3] == 'l' || key[3] == 'L',
        key[4] == 'l' || key[4] == 'L',
    ensures
        ({
            let d = character_enter_step(st, key, vr, Some(x)).1;
            &&& x > 9 ==> d.len() == 1 && d[0].code == Some(RuleCode::CharacterSkillExceedsMax)
                && d[0].severity == RuleSeverity::Error && d[0].range == vr
            &&& x < 0 ==> d.len() == 1 && d[0].code == Some(RuleCode::CharacterNegativeSkill)
                && d[0].severity == RuleSeverity::Warning && d[0].range == vr
            &&& 0 <= x <= 9 ==> d.len() == 0
        }),
{
    reveal_strlit("skill");
    reveal_strlit("attack_skill");
    reveal_strlit("defense_skill");
    reveal_strlit("planning_skill");
    reveal_strlit("logistics_skill");
    reveal_strlit("coordination_skill");
    reveal_strlit("maneuvering_skill");
    reveal_strlit("create_field_marshal");
    reveal_strlit("field_marshal");
    reveal_strlit("create_corps_commander");
    reveal_strlit("corps_commander");
    reveal_strlit("create_navy_leader");
    reveal_strlit("navy_leader");
    reveal_strlit("create_operative_leader");
    let l = lower_seq(key);
    assert(l =~= "skill"@);
    assert(character_type(l) is None);
    assert(!is_sub_skill(key));
}

} // verus!
