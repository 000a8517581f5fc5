//! Loading localisation files in order: merged entries and duplicated keys.

use hearts_of_modding::loc_load::{is_english_loc_path, is_replace_loc_path, load_localisation, loc_load_order};

fn file(path: &str, content: &str) -> (String, String) {
    (path.to_string(), content.to_string())
}

#[test]
fn english_files_are_selected_in_any_case() {
    assert!(is_english_loc_path("localisation/english/events_l_english.yml"));
    assert!(is_english_loc_path("localisation/ENGLISH/a.yml"));
    assert!(!is_english_loc_path("localisation/german/events_l_german.yml"));
}

#[test]
fn replace_files_are_recognised() {
    assert!(is_replace_loc_path("localisation/english/replace/a_l_english.yml"));
    assert!(!is_replace_loc_path("localisation/english/Replace.yml"));
}

#[test]
fn later_files_win_and_same_language_repeats_are_reported() {
    let files = vec![
        file("a_l_english.yml", "l_english:\n KEY_A:0 \"first\"\n KEY_B:0 \"b\"\n"),
        file("b_l_english.yml", "l_english:\n KEY_A:0 \"second\"\n"),
        file("c_l_german.yml", "l_german:\n KEY_B:0 \"deutsch\"\n"),
    ];
    let (entries, dups) = load_localisation(&files);
    let get = |k: &str| entries.iter().find(|e| e.key == k).map(|e| e.value.clone());
    assert_eq!(entries.len(), 2);
    assert_eq!(get("KEY_A").as_deref(), Some("second"));
    assert_eq!(get("KEY_B").as_deref(), Some("deutsch"));
    assert_eq!(dups, vec![("l_english".to_string(), "KEY_A".to_string())]);
}

#[test]
fn a_key_seen_three_times_is_reported_once() {
    let files = vec![
        file("a.yml", "l_english:\n K:0 \"1\"\n"),
        file("b.yml", "l_english:\n K:0 \"2\"\n"),
        file("c.yml", "l_english:\n K:0 \"3\"\n"),
    ];
    let (entries, dups) = load_localisation(&files);
    assert_eq!(entries.len(), 1);
    assert_eq!(entries[0].value, "3");
    assert_eq!(entries[0].path, "c.yml");
    assert_eq!(dups.len(), 1);
}

#[test]
fn a_file_without_header_adds_nothing() {
    let files = vec![file("a.yml", " K:0 \"1\"\n")];
    let (entries, dups) = load_localisation(&files);
    assert!(entries.is_empty());
    assert!(dups.is_empty());
}

#[test]
fn load_order_keeps_english_and_puts_replace_last() {
    let f = |p: &str| (p.to_string(), String::new());
    let files = vec![
        f("loc/a_l_english.yml"),
        f("loc/b_l_french.yml"),
        f("loc/replace/c_l_English.yml"),
        f("loc/d_l_english.yml"),
        f("loc/replace/e_l_german.yml"),
    ];
    let order: Vec<String> = loc_load_order(files).into_iter().map(|x| x.0).collect();
    assert_eq!(order, vec!["loc/a_l_english.yml", "loc/d_l_english.yml", "loc/replace/c_l_English.yml"]);
}
