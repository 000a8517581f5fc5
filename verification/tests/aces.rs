//! Ace modifiers named in `add_ace` blocks.

use hearts_of_modding::aces::AceVisitor;
use hearts_of_modding::ast::{Entry, Value};
use hearts_of_modding::findings::{RuleCode, RuleDiagnostic, RuleSeverity};
use hearts_of_modding::script::parse_script;

fn walk(entries: &[Entry], source: &str, v: &mut AceVisitor, aces: &Vec<String>, out: &mut Vec<RuleDiagnostic>) {
    for e in entries {
        if let Entry::Assignment(a) = e {
            out.extend(v.enter_assignment(a, source, aces));
            if let Value::Block(es) | Value::TaggedBlock(_, es, _) = &a.value.value {
                walk(es, source, v, aces, out);
            }
            v.exit_assignment(a, source);
        }
    }
}

fn run(src: &str) -> Vec<RuleDiagnostic> {
    let (script, errors) = parse_script(src);
    assert!(errors.is_empty());
    let aces = vec!["fighter_genius".to_string()];
    let mut v = AceVisitor::new();
    let mut out = Vec::new();
    walk(&script.entries, &script.source, &mut v, &aces, &mut out);
    out
}

#[test]
fn an_unknown_ace_modifier_is_warned_about() {
    let d = run("add_ace = { name = \"Hans\" type = fighter_unknown }\nadd_ace = { type = fighter_genius }");
    assert_eq!(d.len(), 1);
    assert_eq!(d[0].severity, RuleSeverity::Warning);
    assert_eq!(d[0].code, Some(RuleCode::UnknownAceModifier));
    assert_eq!(d[0].message, "'fighter_unknown' is not a known ace modifier tag. Must match a tag defined in common/aces/*.txt");
    assert_eq!(d[0].range.start_col, 26);
}

#[test]
fn type_outside_add_ace_is_not_checked() {
    assert!(run("type = anything\nunit = { type = whatever }").is_empty());
}
