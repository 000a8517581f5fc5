//! The check of event ids: the number, and where the namespace is declared.

use hearts_of_modding::ast::Range;
use hearts_of_modding::event_ids::{check_event_id, NamespaceDecl};
use hearts_of_modding::findings::{RuleCode, RuleSeverity};

fn at() -> Range {
    Range { start_line: 3, start_col: 4, end_line: 3, end_col: 9 }
}

fn decl(name: &str, file: Option<&str>, under_game: bool) -> NamespaceDecl {
    NamespaceDecl { name: name.to_string(), file_name: file.map(|f| f.to_string()), under_game }
}

fn seen(v: &[&str]) -> Vec<String> {
    v.iter().map(|s| s.to_string()).collect()
}

#[test]
fn a_non_integer_number_is_warned_about_and_ends_the_check() {
    let d = check_event_id("ns.abc", &seen(&[]), true, &vec![], &None, false, at());
    assert_eq!(d.len(), 1);
    assert_eq!(d[0].severity, RuleSeverity::Warning);
    assert_eq!(d[0].code, Some(RuleCode::NonIntegerEventId));
    assert_eq!(
        d[0].message,
        "Event ID 'ns.abc' has non-integer suffix 'abc'. Event IDs must be in the format <namespace>.<integer> (e.g. 'my_event.123'). Non-integer IDs cause duplicate internal event IDs (all become ID 0)."
    );
    assert_eq!(d[0].range, at());
    let d = check_event_id("ns.", &seen(&[]), true, &vec![], &None, false, at());
    assert_eq!(d.len(), 1);
    assert_eq!(d[0].code, Some(RuleCode::NonIntegerEventId));
}

#[test]
fn a_number_of_100000_or_more_is_warned_about() {
    let d = check_event_id("ns.0100000", &seen(&["ns"]), true, &vec![], &None, false, at());
    assert_eq!(d.len(), 1);
    assert_eq!(d[0].code, Some(RuleCode::EventIdTooLarge));
    assert_eq!(
        d[0].message,
        "Event ID 'ns.0100000' uses numeric ID 100000, which is >= 100000. This encroaches on other namespace's internal ID range and may cause duplicate ID conflicts."
    );
    let d = check_event_id("ns.99999", &seen(&["ns"]), true, &vec![], &None, false, at());
    assert!(d.is_empty());
}

#[test]
fn bare_numbers_and_numeric_namespaces_need_no_declaration() {
    assert!(check_event_id("12345", &seen(&[]), true, &vec![], &None, false, at()).is_empty());
    assert!(check_event_id("123.4", &seen(&[]), true, &vec![], &None, false, at()).is_empty());
    assert!(check_event_id("", &seen(&[]), true, &vec![], &None, false, at()).is_empty());
}

#[test]
fn a_namespace_declared_earlier_in_the_file_is_enough() {
    assert!(check_event_id("MyNs.1", &seen(&["myns"]), true, &vec![], &None, false, at()).is_empty());
}

#[test]
fn an_undeclared_namespace_is_an_error() {
    let d = check_event_id("gone.1", &seen(&[]), false, &vec![], &None, false, at());
    assert_eq!(d.len(), 1);
    assert_eq!(d[0].severity, RuleSeverity::Error);
    assert_eq!(d[0].code, Some(RuleCode::MissingEventNamespace));
    assert_eq!(
        d[0].message,
        "Event ID 'gone.1' uses namespace 'gone' which has not been declared. The event will not be registered by the game (log error: 'Malformed token: gone.1'). Add 'add_namespace = gone' before any events using this namespace."
    );
    let ds = vec![decl("gone", Some("zzz.txt"), false)];
    assert!(check_event_id("gone.1", &seen(&[]), false, &ds, &None, false, at()).is_empty());
    let ds = vec![decl("gone", Some("zzz.txt"), false)];
    assert!(check_event_id("GONE.1", &seen(&[]), false, &ds, &None, false, at()).is_empty());
}

#[test]
fn the_load_order_of_files_decides() {
    let cur = Some("m_events.txt".to_string());
    let ds = vec![decl("ns", Some("a_events.txt"), false)];
    assert!(check_event_id("ns.1", &seen(&[]), true, &ds, &cur, false, at()).is_empty());
    let ds = vec![decl("ns", Some("z_events.txt"), false)];
    let d = check_event_id("ns.1", &seen(&[]), true, &ds, &cur, false, at());
    assert_eq!(d.len(), 1);
    assert_eq!(
        d[0].message,
        "Event ID 'ns.1' uses namespace 'ns' which is declared in 'z_events.txt'. That file loads AFTER this one (ASCII filename order), so the namespace is not yet registered. Either move the 'add_namespace' declaration to a file that loads before this one, or add a declaration here before the event."
    );
    let ds = vec![decl("ns", Some("m_events.txt"), false)];
    let d = check_event_id("ns.1", &seen(&[]), true, &ds, &cur, false, at());
    assert_eq!(d.len(), 1);
    assert!(d[0].message.contains("declared LATER in this file"));
    let ds = vec![decl("ns", Some("z_events.txt"), false)];
    assert!(check_event_id("ns.1", &seen(&[]), true, &ds, &None, false, at()).is_empty());
}

#[test]
fn base_game_files_load_before_mod_files() {
    let cur = Some("a.txt".to_string());
    let ds = vec![decl("ns", Some("z.txt"), true)];
    assert!(check_event_id("ns.1", &seen(&[]), true, &ds, &cur, false, at()).is_empty());
    let ds = vec![decl("ns", Some("a.txt"), false)];
    let d = check_event_id("ns.1", &seen(&[]), true, &ds, &cur, true, at());
    assert_eq!(d.len(), 1);
    assert_eq!(
        d[0].message,
        "Event ID 'ns.1' uses namespace 'ns' declared in mod file 'a.txt', but this file is from the base game. Vanilla/DLC files load BEFORE mod files, so this namespace is not available here. Use a namespace already declared in the base game instead."
    );
    let ds = vec![decl("ns", None, false)];
    let d = check_event_id("ns.1", &seen(&[]), true, &ds, &cur, true, at());
    assert!(d[0].message.contains("declared in mod file 'other file'"));
}
