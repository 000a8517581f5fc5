//! Continents and strategic regions listed by AI areas.

use hearts_of_modding::ai_areas::check_ai_area;
use hearts_of_modding::ast::{Entry, Range, Value};
use hearts_of_modding::findings::{RuleCode, RuleDiagnostic};
use hearts_of_modding::script::parse_script;

fn region_ids(v: &Value, source: &str) -> Vec<(u32, Range)> {
    let mut out = Vec::new();
    if let Value::Block(es) = v {
        for e in es {
            if let Entry::Value(nv) = e {
                if let Value::Number(n) = &nv.value {
                    out.push((n.resolve(source).parse::<f64>().unwrap() as u32, nv.range));
                }
            }
        }
    }
    out
}

fn run(src: &str, is_file: bool) -> Vec<RuleDiagnostic> {
    let (script, errors) = parse_script(src);
    assert!(errors.is_empty());
    let conts = vec!["europe".to_string(), "asia".to_string()];
    let regions = vec![1, 2, 3];
    let mut out = Vec::new();
    fn walk(es: &[Entry], src: &str, is_file: bool, conts: &Vec<String>, regions: &Vec<u32>, out: &mut Vec<RuleDiagnostic>) {
        for e in es {
            if let Entry::Assignment(a) = e {
                out.extend(check_ai_area(is_file, a, src, conts, &region_ids(&a.value.value, src), regions));
                if let Value::Block(inner) = &a.value.value {
                    walk(inner, src, is_file, conts, regions, out);
                }
            }
        }
    }
    walk(&script.entries, &script.source, is_file, &conts, &regions, &mut out);
    out
}

#[test]
fn unknown_continents_and_regions_are_warned_about() {
    let src = "my_area = {\n    continents = { europe atlantis }\n    strategic_regions = { 1 42 }\n}\n";
    let d = run(src, true);
    let msgs: Vec<&str> = d.iter().map(|x| x.message.as_str()).collect();
    assert_eq!(msgs, vec!["Unknown continent: 'atlantis'", "Unknown strategic region: 42"]);
    assert_eq!(d[0].code, Some(RuleCode::UnknownContinent));
    assert_eq!(d[1].code, Some(RuleCode::UnknownStrategicRegion));
    assert_eq!(d[1].range.start_line, 2);
    assert!(run(src, false).is_empty());
}
