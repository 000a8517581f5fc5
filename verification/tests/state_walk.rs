//! The walk of a state history file, then the checks after it.

use hearts_of_modding::ast::{Entry, Range, Value};
use hearts_of_modding::findings::{RuleCode, RuleDiagnostic};
use hearts_of_modding::provinces::Province;
use hearts_of_modding::script::parse_script;
use hearts_of_modding::state_walk::StateMapVisitor;

fn number(v: &Value, source: &str) -> Option<u32> {
    match v {
        Value::Number(n) => {
            let x = n.resolve(source).parse::<f64>().unwrap();
            if x >= 0.0 { Some(x as u32) } else { None }
        }
        _ => None,
    }
}

fn ids(v: &Value, source: &str) -> Vec<(u32, Range)> {
    let mut out = Vec::new();
    if let Value::Block(es) | Value::TaggedBlock(_, es, _) = v {
        for e in es {
            if let Entry::Value(nv) = e {
                let id = match &nv.value {
                    Value::Number(_) => number(&nv.value, source),
                    Value::String(s) => s.resolve(source).parse::<u32>().ok(),
                    _ => None,
                };
                if let Some(id) = id {
                    out.push((id, nv.range));
                }
            }
        }
    }
    out
}

fn walk(entries: &[Entry], source: &str, v: &mut StateMapVisitor) {
    for e in entries {
        if let Entry::Assignment(a) = e {
            v.enter_assignment(a, source, number(&a.value.value, source), &ids(&a.value.value, source));
            if let Value::Block(es) | Value::TaggedBlock(_, es, _) = &a.value.value {
                walk(es, source, v);
            }
            v.exit_assignment(a, source);
        }
    }
}

fn prov(id: u32, kind: &str, coastal: bool) -> Province {
    Province { id, rgb: (0, 0, 0), terrain: "plains".to_string(), is_coastal: coastal, prov_type: kind.to_string(), continent: 1 }
}

const STATE: &str = "state = {
    id = 7
    provinces = { 10 11 }
    history = {
        victory_points = { 10 5 }
        victory_points = { 10 1 }
        buildings = {
            infrastructure = 3
            11 = { naval_base = 1 }
            99 = { bunker = 2 }
        }
    }
}
";

fn run(is_state_file: bool) -> (StateMapVisitor, Vec<RuleDiagnostic>) {
    let (script, errors) = parse_script(STATE);
    assert!(errors.is_empty());
    let mut v = StateMapVisitor::new(is_state_file);
    walk(&script.entries, &script.source, &mut v);
    let provs = vec![prov(10, "land", true), prov(11, "land", false)];
    let coastal = vec![("naval_base".to_string(), true)];
    let d = v.after_walk(&provs, &vec![(7, vec![10, 11])], &coastal);
    (v, d)
}

#[test]
fn the_walk_collects_the_state() {
    let (v, _) = run(true);
    assert!(v.walk.saw_state);
    assert_eq!(v.walk.self_id, Some(7));
    assert_eq!(v.walk.provinces.iter().map(|p| p.0).collect::<Vec<_>>(), vec![10, 11]);
    assert_eq!(v.walk.vp_firsts.iter().map(|p| p.0).collect::<Vec<_>>(), vec![10, 10]);
    assert_eq!(v.walk.placements.len(), 2);
    assert_eq!(v.walk.placements[0].province, 11);
    assert_eq!(v.walk.placements[0].building, "naval_base");
    assert_eq!(v.walk.placements[1].province, 99);
    assert_eq!(v.in_state, 0);
    assert_eq!(v.in_buildings, 0);
}

#[test]
fn the_checks_after_the_walk() {
    let (_, d) = run(true);
    let msgs: Vec<&str> = d.iter().map(|x| x.message.as_str()).collect();
    assert_eq!(
        msgs,
        vec![
            "Duplicate victory_points entry for province 10",
            "Building 'naval_base' requires a coastal province (province 11 is inland)",
            "Building 'bunker' placed on province 99 which is not in this state",
        ]
    );
    assert_eq!(d[0].code, Some(RuleCode::DuplicateVictoryPoint));
}

#[test]
fn other_files_collect_nothing() {
    let (v, d) = run(false);
    assert!(!v.walk.saw_state);
    assert!(d.is_empty());
}
