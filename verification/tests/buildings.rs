//! Building levels checked against each building's maximum.

use hearts_of_modding::ast::{Assignment, Entry, Value};
use hearts_of_modding::buildings::BuildingVisitor;
use hearts_of_modding::findings::{RuleCode, RuleDiagnostic, RuleSeverity};
use hearts_of_modding::script::parse_script;

fn as_i32(a: &Assignment, source: &str) -> Option<i32> {
    match &a.value.value {
        Value::Number(n) => Some(n.resolve(source).parse::<f64>().unwrap() as i32),
        Value::String(s) => s.resolve(source).parse::<i32>().ok(),
        _ => None,
    }
}

fn walk(entries: &[Entry], source: &str, v: &mut BuildingVisitor, bs: &Vec<(String, Option<i32>)>, out: &mut Vec<RuleDiagnostic>) {
    for e in entries {
        if let Entry::Assignment(a) = e {
            let key = a.key_text(source);
            let is_block = matches!(&a.value.value, Value::Block(_));
            out.extend(v.enter_assignment(key, is_block, a.value.range, as_i32(a, source), bs));
            if let Value::Block(es) | Value::TaggedBlock(_, es, _) = &a.value.value {
                walk(es, source, v, bs, out);
            }
            v.exit_assignment(key, is_block);
        }
    }
}

fn run(src: &str) -> Vec<RuleDiagnostic> {
    let (script, errors) = parse_script(src);
    assert!(errors.is_empty());
    let bs = vec![
        ("infrastructure".to_string(), Some(5)),
        ("naval_base".to_string(), Some(10)),
        ("bunker".to_string(), None),
    ];
    let mut v = BuildingVisitor::new();
    let mut out = Vec::new();
    walk(&script.entries, &script.source, &mut v, &bs, &mut out);
    assert_eq!(v.in_buildings, 0);
    out
}

#[test]
fn a_level_above_the_maximum_is_an_error() {
    let d = run("state = {\n    history = {\n        buildings = {\n            infrastructure = 7\n            naval_base = 10\n        }\n    }\n}\n");
    assert_eq!(d.len(), 1);
    assert_eq!(d[0].severity, RuleSeverity::Error);
    assert_eq!(d[0].code, Some(RuleCode::BuildingLevelExceedsMax));
    assert_eq!(d[0].message, "Building level 7 exceeds maximum level 5 for 'infrastructure'");
    assert_eq!(d[0].data.as_deref(), Some("Set to maximum level: 5"));
    assert_eq!(d[0].range.start_line, 3);
}

#[test]
fn province_blocks_inside_buildings_are_checked() {
    let d = run("buildings = {\n    2671 = { naval_base = 12 }\n}\n");
    assert_eq!(d.len(), 1);
    assert_eq!(d[0].message, "Building level 12 exceeds maximum level 10 for 'naval_base'");
}

#[test]
fn outside_buildings_and_without_a_maximum_nothing_is_reported() {
    assert!(run("infrastructure = 99\nBUILDINGS = { bunker = 50 unknown = 3 }\n").is_empty());
    assert!(run("buildings = { infrastructure = \"9\" }\n").is_empty());
}
