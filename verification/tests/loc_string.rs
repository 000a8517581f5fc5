//! Checks inside localisation values.

use hearts_of_modding::ast::{DiagnosticSeverity, Range};
use hearts_of_modding::loc::{LocDiagnostic, LocEntry};
use hearts_of_modding::loc_string::validate_loc_string;

fn entry(value: &str) -> LocEntry {
    LocEntry {
        key: "k".to_string(),
        value: value.to_string(),
        range: Range { start_line: 4, start_col: 1, end_line: 4, end_col: 40 },
        path: "a_l_english.yml".to_string(),
        value_start_col: 10,
        version: None,
        version_range: None,
    }
}

fn check(value: &str, tags: &[&str], colors: &[&str]) -> Vec<LocDiagnostic> {
    let tags: Vec<String> = tags.iter().map(|s| s.to_string()).collect();
    let colors: Vec<String> = colors.iter().map(|s| s.to_string()).collect();
    let targets = vec!["my_target".to_string()];
    let locs = vec!["GetMyName".to_string()];
    validate_loc_string(&entry(value), &targets, &locs, &colors, &tags)
}

fn cols(d: &LocDiagnostic) -> (u32, u32) {
    (d.range.start_col, d.range.end_col)
}

#[test]
fn valid_value_has_no_findings() {
    let d = check("[Root.GetName] is §Yyellow§! and [?var|%2] [my_target.GetMyName] [123]", &[], &["Y"]);
    assert!(d.is_empty(), "{:?}", d);
}

#[test]
fn unknown_parts_and_whole_bracket() {
    // three capital letters or digits would read as a country tag
    let d = check("[Fooo.Barr]", &[], &[]);
    assert_eq!(d.len(), 3);
    assert_eq!(d[0].code.as_deref(), Some("invalid_loc_scope"));
    assert_eq!(d[0].severity, DiagnosticSeverity::Information);
    assert_eq!(cols(&d[0]), (11, 15));
    assert!(d[0].message.starts_with("Unrecognized 'Fooo' scope or command"));
    assert_eq!(cols(&d[1]), (16, 20));
    assert_eq!(d[2].code.as_deref(), Some("unescaped_bracket"));
    assert_eq!(d[2].severity, DiagnosticSeverity::Hint);
    assert_eq!(cols(&d[2]), (10, 21));
    assert_eq!(d[2].range.start_line, 4);
}

#[test]
fn unknown_formatter() {
    let d = check("[idea_name|x] [bad_fmt|y]", &[], &[]);
    assert_eq!(d.len(), 1);
    assert_eq!(d[0].message, "Unknown localization formatter: 'bad_fmt'");
    assert_eq!(cols(&d[0]), (25, 32));
}

#[test]
fn color_codes() {
    let d = check("§Zx§!§! §Y", &[], &["Y"]);
    let codes: Vec<&str> = d.iter().map(|x| x.code.as_deref().unwrap()).collect();
    assert_eq!(codes, vec!["unknown_color_code", "dangling_color_reset", "unclosed_color_code"]);
    assert_eq!(cols(&d[0]), (10, 12));
    assert_eq!(cols(&d[1]), (15, 17));
    assert_eq!(cols(&d[2]), (18, 20));
    assert_eq!(d[2].message, "Unclosed color code '§Y'. Expected a matching '§!' reset.");
}

#[test]
fn escaped_bracket_and_bad_formatting() {
    let d = check("a \\[Root]", &[], &[]);
    assert_eq!(d.len(), 1);
    assert_eq!(d[0].code.as_deref(), Some("escaped_bracket"));
    assert_eq!(cols(&d[0]), (13, 14));
    let d = check("$X|#$", &[], &[]);
    assert_eq!(d.len(), 1);
    assert_eq!(d[0].message, "Invalid variable formatting code: '#'");
    assert_eq!(cols(&d[0]), (13, 14));
}

#[test]
fn country_tags_and_ternaries() {
    assert!(check("[GER.GetName]", &[], &[]).is_empty());
    let d = check("[GER.GetName]", &["SOV"], &[]);
    assert_eq!(d.len(), 1);
    assert!(d[0].message.starts_with("Unrecognized 'GER'"));
    assert!(check("[(ROOT ? .GetName : x)]", &[], &[]).is_empty());
}
