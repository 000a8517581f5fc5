//! Skill levels of character definitions.

use hearts_of_modding::ast::{Assignment, Entry, Value};
use hearts_of_modding::findings::{RuleCode, RuleDiagnostic, RuleSeverity};
use hearts_of_modding::rules::CharacterVisitor;
use hearts_of_modding::script::parse_script;

fn as_i32(a: &Assignment, source: &str) -> Option<i32> {
    match &a.value.value {
        Value::Number(n) => Some(n.resolve(source).parse::<f64>().unwrap() as i32),
        Value::String(s) => s.resolve(source).parse::<i32>().ok(),
        _ => None,
    }
}

fn walk(entries: &[Entry], source: &str, v: &mut CharacterVisitor, out: &mut Vec<RuleDiagnostic>) {
    for e in entries {
        if let Entry::Assignment(a) = e {
            let key = a.key_text(source);
            out.extend(v.enter_assignment(key, a.value.range, as_i32(a, source)));
            if let Value::Block(es) | Value::TaggedBlock(_, es, _) = &a.value.value {
                walk(es, source, v, out);
            }
            v.exit_assignment(key);
        }
    }
}

fn run(src: &str) -> Vec<RuleDiagnostic> {
    let (script, errors) = parse_script(src);
    assert!(errors.is_empty());
    let mut v = CharacterVisitor::new();
    let mut out = Vec::new();
    walk(&script.entries, &script.source, &mut v, &mut out);
    out
}

#[test]
fn skill_above_maximum_and_negative() {
    let d = run("create_field_marshal = { skill = 12 attack_skill = 14 defense_skill = -2 }");
    assert_eq!(d.len(), 3);
    assert_eq!(d[0].severity, RuleSeverity::Error);
    assert_eq!(d[0].code, Some(RuleCode::CharacterSkillExceedsMax));
    assert_eq!(d[0].message, "Skill level 12 exceeds maximum 9 for field_marshal");
    assert_eq!(d[0].data.as_deref(), Some("Set to maximum skill: 9"));
    assert_eq!(d[1].message, "attack_skill is 14; the gameplay bonus caps at level 10 (higher values are accepted but confer no extra benefit)");
    assert_eq!(d[2].message, "defense_skill is -2; negative values are clamped to 1 in-game");
}

#[test]
fn negative_skill_and_outside_characters() {
    let d = run("create_navy_leader = { skill = -1 }\nskill = 40");
    assert_eq!(d.len(), 1);
    assert_eq!(d[0].message, "Skill level -1 for navy_leader is negative; the game will clamp it to 0 in-game");
    assert_eq!(d[0].severity, RuleSeverity::Warning);
    assert!(run("create_corps_commander = { skill = 9 planning_skill = 10 }").is_empty());
}
