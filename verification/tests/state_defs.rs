//! State definitions checked against the categories, resources and
//! buildings defined.

use hearts_of_modding::ast::Entry;
use hearts_of_modding::findings::{RuleCode, RuleDiagnostic, RuleSeverity};
use hearts_of_modding::script::parse_script;
use hearts_of_modding::state_defs::check_state_definition;

fn names(v: &[&str]) -> Vec<String> {
    v.iter().map(|s| s.to_string()).collect()
}

fn run(src: &str, cats: &[&str], res: &[&str], bld: &[&str]) -> Vec<RuleDiagnostic> {
    let (script, errors) = parse_script(src);
    assert!(errors.is_empty());
    let mut out = Vec::new();
    for e in &script.entries {
        if let Entry::Assignment(a) = e {
            out.extend(check_state_definition(a, &script.source, &names(cats), &names(res), &names(bld)));
        }
    }
    out
}

#[test]
fn an_unknown_category_lists_the_known_ones_sorted() {
    let d = run("state_category = megalopolis", &["town", "city", "rural"], &[], &[]);
    assert_eq!(d.len(), 1);
    assert_eq!(d[0].severity, RuleSeverity::Warning);
    assert_eq!(d[0].code, Some(RuleCode::UnknownStateCategory));
    assert_eq!(d[0].message, "Unknown state category 'megalopolis'. Known: city, rural, town");
    assert!(run("state_category = city", &["town", "city"], &[], &[]).is_empty());
    assert!(run("state_category = anything", &[], &[], &[]).is_empty());
}

#[test]
fn unknown_resources_and_buildings() {
    let src = "resources = { oil = 3 unobtainium = 1 }\nbuildings = { infrastructure = 3 moon_base = 1 1234 = { naval_base = 1 dock = 2 } }";
    let d = run(src, &[], &["oil", "steel"], &["infrastructure", "naval_base"]);
    let msgs: Vec<&str> = d.iter().map(|x| x.message.as_str()).collect();
    assert_eq!(
        msgs,
        vec![
            "Unknown resource 'unobtainium'. resources are defined in common/resources/*.txt",
            "Unknown building 'moon_base'. buildings are defined in common/buildings/*.txt",
            "Unknown building 'dock'. buildings are defined in common/buildings/*.txt",
        ]
    );
    assert_eq!(d[1].code, Some(RuleCode::UnknownBuilding));
    assert_eq!(d[0].range.start_col, 22);
    assert!(run(src, &[], &[], &[]).is_empty());
}
