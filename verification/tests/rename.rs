use hearts_of_modding::ast::Range;
use hearts_of_modding::rename::{find_references_in_entries, reference_kind, ReferenceKind, RenameableSymbol};
use hearts_of_modding::script::parse_script;

fn edits(kind: ReferenceKind, src: &str, old: &str, new: &str) -> Vec<(Range, String)> {
    let (script, _) = parse_script(src);
    let mut out = Vec::new();
    find_references_in_entries(kind, &script.entries, &script.source, old, new, &mut out);
    out.into_iter().map(|e| (e.range, e.new_text)).collect()
}

#[test]
fn event_ids_are_renamed() {
    let e = edits(ReferenceKind::Event, "effect = { country_event = { id = ev.1 } }\nnews_event = { id = ev.2 }", "ev.1", "ev.9");
    assert_eq!(e, vec![(Range { start_line: 0, start_col: 34, end_line: 0, end_col: 38 }, "\"ev.9\"".to_string())]);
}

#[test]
fn scripted_keys_are_renamed_twice() {
    let e = edits(ReferenceKind::Scripted, "my_trigger = { a = b }\nx = { my_trigger = yes }", "my_trigger", "t2");
    assert_eq!(e.len(), 4);
    assert_eq!(e[0].0, Range { start_line: 0, start_col: 0, end_line: 0, end_col: 10 });
    assert_eq!(e[2].0, Range { start_line: 1, start_col: 6, end_line: 1, end_col: 16 });
    assert!(e.iter().all(|(_, t)| t == "t2"));
}

#[test]
fn idea_references() {
    let e = edits(ReferenceKind::Idea, "my_idea = { }\nadd_ideas = my_idea\nremove_ideas = other", "my_idea", "new_idea");
    assert_eq!(e.len(), 2);
    assert_eq!(e[0].1, "new_idea");
    assert_eq!(e[1], (Range { start_line: 1, start_col: 12, end_line: 1, end_col: 19 }, "\"new_idea\"".to_string()));
}

#[test]
fn character_references() {
    let e = edits(ReferenceKind::Character, "a = { recruit_character = GER_x character = GER_x GER_x = { } }", "GER_x", "GER_y");
    assert_eq!(e.len(), 3);
    assert!(e.iter().all(|(_, t)| t == "GER_y"));
}

#[test]
fn variable_references() {
    let e = edits(ReferenceKind::Variable, "set_variable = { var = my_var value = 1 }\ncheck_variable = { variable = other }", "my_var", "v2");
    assert_eq!(e, vec![(Range { start_line: 0, start_col: 23, end_line: 0, end_col: 29 }, "\"v2\"".to_string())]);
}

#[test]
fn ability_references() {
    let e = edits(ReferenceKind::Ability, "has_ability = ab\nab = { }\nother = ab", "ab", "cd");
    assert_eq!(e.len(), 2);
    assert_eq!(e[0].0, Range { start_line: 0, start_col: 14, end_line: 0, end_col: 16 });
    assert_eq!(e[1].0, Range { start_line: 1, start_col: 0, end_line: 1, end_col: 2 });
}

#[test]
fn symbols_map_to_reference_kinds() {
    let s = RenameableSymbol::ScriptedEffect("x".to_string());
    let (k, n) = reference_kind(&s);
    assert_eq!(k, ReferenceKind::Scripted);
    assert_eq!(n, "x");
    assert_eq!(reference_kind(&RenameableSymbol::Variable("v".to_string())).0, ReferenceKind::Variable);
}
