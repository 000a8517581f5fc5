//! The walk of event files: namespaces, event calls, finished events and
//! options, duplicate ids.

use hearts_of_modding::event_ids::{NamespaceContext, NamespaceDecl};
use hearts_of_modding::event_walk::{walk_event_file, EventFileContext, EventWalk};
use hearts_of_modding::findings::{RuleCode, RuleDiagnostic, RuleSeverity};
use hearts_of_modding::script::parse_script;

fn ctx(in_events_dir: bool, defined: &[&str]) -> EventFileContext {
    EventFileContext {
        in_events_dir,
        defined_events: defined.iter().map(|s| s.to_string()).collect(),
        triggers: Vec::new(),
        namespaces: NamespaceContext { declarations: Vec::new(), file_name: Some("a_events.txt".to_string()), under_game: false },
        loc: Vec::new(),
        sprites: Vec::new(),
    }
}

fn run(content: &str, c: &EventFileContext) -> (EventWalk, Vec<RuleDiagnostic>) {
    let (script, errors) = parse_script(content);
    assert!(errors.is_empty(), "{:?}", errors);
    walk_event_file(&script.entries, &script.source, c)
}

const FILE: &str = "add_namespace = MyMod
country_event = {
    id = mymod.1
    title = mymod.1.t
    option = {
        name = mymod.1.a
        country_event = { id = mymod.2 days = 3 }
        country_event = mymod.404
    }
}
";

#[test]
fn namespaces_are_recorded_in_lower_case() {
    let (w, _) = run(FILE, &ctx(true, &["mymod.1", "mymod.2"]));
    assert_eq!(w.seen_namespaces, vec!["mymod".to_string()]);
    assert_eq!(w.event_depth, 0);
    assert!(w.event_stack.is_empty());
    assert!(w.option_stack.is_empty());
}

#[test]
fn calls_to_undefined_events_are_warned_about() {
    let (_, d) = run(FILE, &ctx(true, &["mymod.1", "mymod.2"]));
    assert_eq!(d.len(), 1);
    assert_eq!(d[0].severity, RuleSeverity::Warning);
    assert_eq!(d[0].code, Some(RuleCode::BrokenEventReference));
    assert_eq!(d[0].message, "Event reference 'mymod.404' does not match any defined event in the workspace.");
    assert_eq!(d[0].range.start_line, 7);
    assert_eq!(d[0].range.start_col, 8);
}

#[test]
fn block_calls_are_checked_by_their_id() {
    let (_, d) = run(FILE, &ctx(true, &["mymod.1", "mymod.404"]));
    assert_eq!(d.len(), 1);
    assert_eq!(d[0].message, "Event reference 'mymod.2' does not match any defined event in the workspace.");
    assert_eq!(d[0].range.start_line, 6);
}

#[test]
fn defined_ids_are_remembered() {
    let (w, d) = run(FILE, &ctx(true, &["mymod.1", "mymod.2", "mymod.404"]));
    assert!(d.is_empty());
    assert_eq!(w.seen_event_ids, vec!["mymod.1".to_string()]);
}

#[test]
fn an_undeclared_namespace_is_an_error_at_the_event_block() {
    let src = "country_event = { id = other.1 title = t }\nadd_namespace = other\ncountry_event = { id = other.2 title = t }\n";
    let (_, d) = run(src, &ctx(true, &[]));
    assert_eq!(d.len(), 1);
    assert_eq!(d[0].severity, RuleSeverity::Error);
    assert_eq!(d[0].code, Some(RuleCode::MissingEventNamespace));
    assert_eq!(
        d[0].message,
        "Event ID 'other.1' uses namespace 'other' which has not been declared. The event will not be registered by the game (log error: 'Malformed token: other.1'). Add 'add_namespace = other' before any events using this namespace."
    );
    assert_eq!(d[0].range.start_line, 0);
    assert_eq!(d[0].range.start_col, 16);
}

#[test]
fn a_namespace_declared_later_in_the_file_is_an_error() {
    let src = "country_event = { id = other.1 title = t }\nadd_namespace = other\n";
    let mut c = ctx(true, &[]);
    c.namespaces.declarations.push(NamespaceDecl { name: "other".to_string(), file_name: Some("a_events.txt".to_string()), under_game: false });
    let (_, d) = run(src, &c);
    assert_eq!(d.len(), 1);
    assert_eq!(
        d[0].message,
        "Event ID 'other.1' uses namespace 'other' which is declared LATER in this file. Move 'add_namespace = other' BEFORE this event definition. The game registers namespaces sequentially as it reads the file."
    );
}

#[test]
fn outside_the_events_folder_a_declared_namespace_is_enough() {
    let src = "country_event = { id = other.1 }\n";
    let mut c = ctx(false, &[]);
    c.namespaces.declarations.push(NamespaceDecl { name: "other".to_string(), file_name: Some("z.txt".to_string()), under_game: false });
    let (_, d) = run(src, &c);
    assert!(d.is_empty());
}

#[test]
fn a_repeated_event_id_is_an_error() {
    let src = "add_namespace = a\ncountry_event = { id = a.1 title = t }\ncountry_event = { id = A.1 title = t }\n";
    let (_, d) = run(src, &ctx(true, &[]));
    assert_eq!(d.len(), 1);
    assert_eq!(d[0].severity, RuleSeverity::Error);
    assert_eq!(d[0].code, Some(RuleCode::DuplicateEventId));
    assert_eq!(
        d[0].message,
        "Duplicate event ID 'A.1' defined more than once in this file. HOI4 loads only one event per ID; the other definition will never fire. Rename one of them."
    );
    assert_eq!(d[0].range.start_line, 2);
    assert_eq!(d[0].range.start_col, 23);
}

#[test]
fn a_finished_event_is_checked() {
    let src = "add_namespace = a\ncountry_event = {\n    id = a.1\n    option = { name = x }\n}\n";
    let (_, d) = run(src, &ctx(true, &[]));
    assert_eq!(d.len(), 1);
    assert_eq!(d[0].code, Some(RuleCode::EventMissingTitle));
    assert_eq!(d[0].range.start_line, 1);
    let hidden = "add_namespace = a\ncountry_event = {\n    id = a.1\n    hidden = yes\n}\n";
    let (_, d) = run(hidden, &ctx(true, &[]));
    assert!(d.is_empty());
}

#[test]
fn a_finished_option_is_checked_and_counted() {
    let src = "add_namespace = a\ncountry_event = {\n    id = a.1\n    title = t\n    option = { name = x }\n    option = { ai_chance = { base = 1 } }\n}\n";
    let (_, d) = run(src, &ctx(true, &[]));
    assert_eq!(d.len(), 2);
    assert_eq!(d[0].code, Some(RuleCode::EventMissingOptionName));
    assert_eq!(d[0].range.start_line, 5);
    assert_eq!(d[1].code, Some(RuleCode::EventOptionMissingAiChance));
    assert_eq!(
        d[1].message,
        "1 of 2 option(s) are missing an 'ai_chance' block. The AI may not choose optimally without explicit weights."
    );
}

#[test]
fn outside_the_events_folder_blocks_are_calls() {
    let src = "add_namespace = a\ncountry_event = { id = a.1 }\ncountry_event = { id = a.1 }\n";
    let (w, d) = run(src, &ctx(false, &[]));
    assert!(d.is_empty());
    assert!(w.seen_event_ids.is_empty());
}

#[test]
fn nested_event_blocks_are_calls() {
    let src = "add_namespace = a\ncountry_event = {\n    id = a.1\n    title = t\n    immediate = { country_event = { id = zz.1 } }\n}\n";
    let (w, d) = run(src, &ctx(true, &[]));
    assert!(d.is_empty());
    assert_eq!(w.seen_event_ids, vec!["a.1".to_string()]);
}
