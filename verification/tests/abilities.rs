//! Ability definitions and references.

use hearts_of_modding::abilities::{check_ability_reference, AbilityVisitor};
use hearts_of_modding::ast::{Entry, Value};
use hearts_of_modding::findings::{RuleCode, RuleDiagnostic, RuleSeverity};
use hearts_of_modding::script::parse_script;

fn walk(entries: &[Entry], source: &str, v: &mut AbilityVisitor, loc: &Vec<String>, out: &mut Vec<RuleDiagnostic>) {
    for e in entries {
        if let Entry::Assignment(a) = e {
            out.extend(v.enter_assignment(a, source, loc));
            if let Value::Block(es) | Value::TaggedBlock(_, es, _) = &a.value.value {
                walk(es, source, v, loc, out);
            }
            out.extend(v.exit_assignment(a, source));
        }
    }
}

fn run(content: &str, loc: &[&str]) -> Vec<RuleDiagnostic> {
    let (script, errors) = parse_script(content);
    assert!(errors.is_empty(), "{:?}", errors);
    let loc: Vec<String> = loc.iter().map(|s| s.to_string()).collect();
    let mut v = AbilityVisitor::new();
    let mut out = Vec::new();
    walk(&script.entries, &script.source, &mut v, &loc, &mut out);
    out
}

#[test]
fn complete_definition_has_no_findings() {
    let src = "ability = {\n force_attack = {\n name = FA_NAME\n desc = FA_DESC\n cost = 50\n duration = 24\n type = army_leader\n ai_will_do = { factor = 1 }\n allowed = { always = yes }\n }\n}";
    assert!(run(src, &["FA_NAME", "FA_DESC"]).is_empty());
}

#[test]
fn missing_fields_and_localisation() {
    let src = "ability = {\n bare = {\n name = B_NAME\n cost = 1\n }\n}";
    let d = run(src, &[]);
    let msgs: Vec<&str> = d.iter().map(|x| x.message.as_str()).collect();
    assert_eq!(
        msgs,
        vec![
            "Ability 'bare' is missing localization key: 'B_NAME'",
            "Ability 'bare' is missing required 'desc' field",
            "Ability 'bare' is missing 'duration' field (ability will use indefinite duration)",
            "Ability 'bare' is missing 'type' field (defaults may apply)",
            "Ability 'bare' is missing 'ai_will_do' block (AI will never use this ability)",
        ]
    );
    assert_eq!(d[0].code, Some(RuleCode::AbilityMissingLocalization));
    assert_eq!(d[1].severity, RuleSeverity::Warning);
    assert_eq!(d[2].severity, RuleSeverity::Information);
    assert_eq!(d[4].code, Some(RuleCode::AbilityMissingAiLogic));
    assert_eq!(d[1].range.start_line, 1);
}

#[test]
fn blocks_outside_ability_are_ignored() {
    assert!(run("foo = { bar = { } }", &[]).is_empty());
}

#[test]
fn unknown_ability_reference() {
    let (script, _) = parse_script("has_ability = force_attack\nadd_ability = known\nfoo = bar");
    let abilities = vec!["known".to_string()];
    let mut d = Vec::new();
    for e in &script.entries {
        if let Entry::Assignment(a) = e {
            d.extend(check_ability_reference(a, &script.source, &abilities));
        }
    }
    assert_eq!(d.len(), 1);
    assert_eq!(d[0].message, "Unknown ability: 'force_attack'");
    assert_eq!(d[0].code, Some(RuleCode::UnknownTrigger));
}
