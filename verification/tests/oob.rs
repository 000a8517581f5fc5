//! The order-of-battle checks: unit types in template slots and template
//! references inside `units`.

use hearts_of_modding::ast::{Entry, Value};
use hearts_of_modding::findings::{RuleCode, RuleDiagnostic, RuleSeverity};
use hearts_of_modding::oob::OobRegimentVisitor;
use hearts_of_modding::script::parse_script;

fn walk(entries: &[Entry], source: &str, v: &mut OobRegimentVisitor, units: &Vec<String>, out: &mut Vec<RuleDiagnostic>) {
    for e in entries {
        match e {
            Entry::Assignment(a) => {
                out.extend(v.enter_assignment(a, source, units));
                match &a.value.value {
                    Value::Block(es) | Value::TaggedBlock(_, es, _) => walk(es, source, v, units, out),
                    _ => {}
                }
                v.exit_assignment(a, source);
            }
            Entry::Value(nv) => match &nv.value {
                Value::Block(es) | Value::TaggedBlock(_, es, _) => walk(es, source, v, units, out),
                _ => {}
            },
            _ => {}
        }
    }
}

fn run(content: &str, units: &[&str]) -> Vec<RuleDiagnostic> {
    let (script, errors) = parse_script(content);
    assert!(errors.is_empty(), "{:?}", errors);
    let units: Vec<String> = units.iter().map(|s| s.to_string()).collect();
    let mut v = OobRegimentVisitor::new();
    let mut out = Vec::new();
    walk(&script.entries, &script.source, &mut v, &units, &mut out);
    out.extend(v.after_walk());
    out
}

const TEMPLATE: &str = r#"division_template = {
    name = "Infantry Division"
    regiments = {
        infantry = { x = 0 y = 0 }
        Infantry = { x = 0 y = 1 }
        space_marine = { x = 0 y = 2 }
    }
    support = {
        engineer = { x = 0 y = 0 }
    }
}
units = {
    division = {
        division_template = "Infantry Division"
        location = 1
    }
    division = {
        division_template = "Armored Division"
    }
}
"#;

#[test]
fn unit_types_are_checked_in_three_tiers() {
    let d = run(TEMPLATE, &["infantry", "engineer"]);
    assert_eq!(d.len(), 3);
    assert_eq!(d[0].severity, RuleSeverity::Hint);
    assert_eq!(d[0].code, Some(RuleCode::UnitTypeCaseMismatch));
    assert_eq!(d[0].data.as_deref(), Some("infantry"));
    assert_eq!(
        d[0].message,
        "Unit type 'Infantry' should probably be 'infantry' (the game accepts both, but consistent casing is good practice)"
    );
    assert_eq!(d[0].range.start_line, 4);
    assert_eq!(d[1].severity, RuleSeverity::Warning);
    assert_eq!(d[1].code, Some(RuleCode::UnknownUnitType));
    assert_eq!(d[1].message, "Unknown unit type: 'space_marine' — not defined in common/units/*.txt");
}

#[test]
fn undefined_template_reference_is_reported_after_the_walk() {
    let d = run(TEMPLATE, &["infantry", "engineer", "space_marine"]);
    assert_eq!(d.len(), 2);
    let last = &d[1];
    assert_eq!(last.code, Some(RuleCode::UnknownDivisionTemplate));
    assert_eq!(last.severity, RuleSeverity::Warning);
    assert_eq!(
        last.message,
        "Unknown division template: 'Armored Division' — no template with that name is defined in this file"
    );
    assert_eq!(last.range.start_line, 17);
}

#[test]
fn coordinates_and_outside_slots_are_not_unit_types() {
    let d = run("regiments = { infantry = { x = 0 } }\nfoo = { bar = { } }", &["infantry"]);
    assert!(d.is_empty());
    let d = run("division_template = \"X\"", &[]);
    assert!(d.is_empty());
}
