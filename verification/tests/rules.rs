use hearts_of_modding::ast::{Entry, Value};
use hearts_of_modding::script::parse_script;
use hearts_of_modding::rules::{
    extract_string_value, detect_character_type, is_decisions_file, is_event_type, is_non_decision_block, CharacterVisitor,
};

#[test]
fn character_types() {
    assert_eq!(detect_character_type("create_field_marshal"), Some("field_marshal"));
    assert_eq!(detect_character_type("Corps_Commander"), Some("corps_commander"));
    assert_eq!(detect_character_type("create_navy_leader"), Some("navy_leader"));
    assert_eq!(detect_character_type("CREATE_OPERATIVE_LEADER"), Some("operative"));
    assert_eq!(detect_character_type("operative_leader"), None);
    assert_eq!(detect_character_type("skill"), None);
}

#[test]
fn character_visitor_starts_empty() {
    let mut v = CharacterVisitor::new();
    assert_eq!(v.current_character_type(), None);
    v.char_type_stack.push("navy_leader");
    v.char_type_stack.push("operative");
    assert_eq!(v.current_character_type(), Some("operative"));
}

#[test]
fn decisions_files() {
    assert!(is_decisions_file("file:///mod/Common/Decisions/ger.txt"));
    assert!(!is_decisions_file("file:///mod/common/decisions/categories/ger.txt"));
    assert!(!is_decisions_file("file:///mod/common/ideas/ger.txt"));
}

#[test]
fn non_decision_blocks() {
    assert!(is_non_decision_block("Country_Event"));
    assert!(is_non_decision_block("focus"));
    assert!(!is_non_decision_block("my_decision"));
}

#[test]
fn event_types_are_case_sensitive() {
    assert!(is_event_type("news_event"));
    assert!(is_event_type("operative_leader_event"));
    assert!(!is_event_type("News_Event"));
    assert!(!is_event_type("event"));
}

#[test]
fn extract_string_value_reads_identifiers_and_quoted_strings() {
    let (script, _) = parse_script("a = hello\nb = \"quoted text\"\nc = 3");
    let values: Vec<Option<&str>> = script
        .entries
        .iter()
        .map(|e| match e {
            Entry::Assignment(a) => extract_string_value(&a.value, &script.source),
            _ => None,
        })
        .collect();
    assert_eq!(values, vec![Some("hello"), Some("quoted text"), None]);
    match &script.entries[2] {
        Entry::Assignment(a) => assert!(matches!(a.value.value, Value::Number(_))),
        other => panic!("expected an assignment, got {:?}", other),
    }
}
