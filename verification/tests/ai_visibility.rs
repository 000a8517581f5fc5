//! Whether event options are provably hidden from the AI.

use hearts_of_modding::ai_visibility::{evaluate_option_trigger_ai_visibility, option_provably_ai_invisible};
use hearts_of_modding::ast::{Entry, Value};
use hearts_of_modding::script::parse_script;

fn trigger_proves(body: &str, triggers: &[(&str, bool)]) -> bool {
    let (script, _) = parse_script(body);
    let t: Vec<(String, bool)> = triggers.iter().map(|(n, f)| (n.to_string(), *f)).collect();
    option_provably_ai_invisible(&script.entries, &script.source, &t)
}

fn option_hidden(option: &str, triggers: &[(&str, bool)]) -> bool {
    let (script, _) = parse_script(option);
    let t: Vec<(String, bool)> = triggers.iter().map(|(n, f)| (n.to_string(), *f)).collect();
    match &script.entries[0] {
        Entry::Assignment(a) => evaluate_option_trigger_ai_visibility(&a.value, &script.source, &t),
        other => panic!("expected an option assignment, got {:?}", other),
    }
}

#[test]
fn is_ai_no_proves_invisibility() {
    assert!(trigger_proves("is_ai = no", &[]));
    assert!(trigger_proves("IS_AI = \"No\"", &[]));
    assert!(!trigger_proves("is_ai = yes", &[]));
}

#[test]
fn conjunctions_carry_the_proof_and_disjunctions_do_not() {
    assert!(trigger_proves("AND = { has_war = yes is_ai = no }", &[]));
    assert!(trigger_proves("limit = { is_ai = no }", &[]));
    assert!(!trigger_proves("OR = { is_ai = no has_war = yes }", &[]));
}

#[test]
fn negated_is_ai_yes_proves_invisibility() {
    assert!(trigger_proves("NOT = { is_ai = yes }", &[]));
    assert!(!trigger_proves("NOT = { is_ai = no }", &[]));
}

#[test]
fn scripted_triggers_prove_by_their_flag() {
    assert!(trigger_proves("dbug_mode = yes", &[("dbug_mode", true)]));
    assert!(trigger_proves("DBUG_MODE = yes", &[("dbug_mode", true)]));
    assert!(!trigger_proves("other_check = yes", &[("other_check", false)]));
    assert!(!trigger_proves("unknown_check = yes", &[]));
}

#[test]
fn option_without_trigger_is_visible() {
    assert!(!option_hidden("option = { name = a }", &[]));
    assert!(option_hidden("option = { name = a trigger = { is_ai = no } }", &[]));
    assert!(option_hidden("option = { name = a TRIGGER = { NOT = { is_ai = yes } } }", &[]));
    assert!(!option_hidden("option = { trigger = yes }", &[]));
    match &parse_script("option = yes").0.entries[0] {
        Entry::Assignment(a) => assert!(matches!(a.value.value, Value::Boolean(true))),
        _ => panic!("expected an assignment"),
    }
}
