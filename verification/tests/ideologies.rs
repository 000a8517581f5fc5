//! Ideology references and the slots that take ideology groups.

use hearts_of_modding::ast::{Entry, Value};
use hearts_of_modding::findings::{RuleCode, RuleDiagnostic};
use hearts_of_modding::ideologies::{check_ideology_reference, is_dynamic_ideology_ref, IdeologyVisitor};
use hearts_of_modding::script::parse_script;

fn groups() -> Vec<String> {
    vec!["democratic".to_string(), "fascism".to_string()]
}

fn subs() -> Vec<(String, String)> {
    vec![("liberalism".to_string(), "democratic".to_string()), ("nazism".to_string(), "fascism".to_string())]
}

fn walk(entries: &[Entry], source: &str, v: &mut IdeologyVisitor, out: &mut Vec<RuleDiagnostic>) {
    for e in entries {
        if let Entry::Assignment(a) = e {
            out.extend(v.enter_assignment(a, source, &groups(), &subs()));
            out.extend(check_ideology_reference(a, source, &groups(), &subs()));
            if let Value::Block(es) | Value::TaggedBlock(_, es, _) = &a.value.value {
                walk(es, source, v, out);
            }
            v.exit_assignment(a, source);
        }
    }
}

fn run(src: &str) -> Vec<RuleDiagnostic> {
    let (script, errors) = parse_script(src);
    assert!(errors.is_empty());
    let mut v = IdeologyVisitor::new();
    let mut out = Vec::new();
    walk(&script.entries, &script.source, &mut v, &mut out);
    out
}

#[test]
fn sub_ideology_in_group_slot() {
    let d = run("set_politics = { ruling_party = liberalism }");
    assert_eq!(d.len(), 1);
    assert_eq!(d[0].code, Some(RuleCode::InvalidRulingParty));
    assert_eq!(d[0].message, "'liberalism' is a sub-ideology of 'democratic' — set_politics.ruling_party only accepts ideology groups");
    assert_eq!(d[0].data.as_deref(), Some("democratic"));
}

#[test]
fn popularity_keys_and_unknown_groups() {
    let d = run("set_popularities = { Democratic = 50 nazism = 20 }\nhas_government = communism");
    let msgs: Vec<&str> = d.iter().map(|x| x.message.as_str()).collect();
    assert_eq!(
        msgs,
        vec![
            "'nazism' is a sub-ideology of 'fascism' — set_popularities only accepts ideology groups",
            "Unknown ideology group: 'communism' — has_government only accepts ideology groups",
        ]
    );
}

#[test]
fn dynamic_references_pass() {
    assert!(run("add_popularity = { ideology = ROOT popularity = 0.1 }\nhas_government = GER\nhas_government = var:x").is_empty());
    assert!(is_dynamic_ideology_ref("prev"));
    assert!(is_dynamic_ideology_ref("D01"));
    assert!(!is_dynamic_ideology_ref("Ger"));
}

#[test]
fn unknown_ideology_reference() {
    let d = run("has_ideology = anarchy\nideology = nazism");
    assert_eq!(d.len(), 1);
    assert_eq!(d[0].message, "Unknown ideology: 'anarchy'");
    assert_eq!(d[0].code, Some(RuleCode::UnknownTrigger));
}
