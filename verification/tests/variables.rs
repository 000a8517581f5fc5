//! Variable effects: their kinds and the names they refer to.

use hearts_of_modding::ast::Entry;
use hearts_of_modding::script::parse_script;
use hearts_of_modding::variables::{classify_var_key, extract_var_name, VarRefKind};

#[test]
fn var_keys_are_classified_ignoring_case() {
    assert_eq!(classify_var_key("set_variable"), Some(VarRefKind::Definition));
    assert_eq!(classify_var_key("Change_Variable"), Some(VarRefKind::Definition));
    assert_eq!(classify_var_key("set_local_variable"), Some(VarRefKind::Temp));
    assert_eq!(classify_var_key("has_variable"), Some(VarRefKind::Read));
    assert_eq!(classify_var_key("clamp_variable"), Some(VarRefKind::Mutation));
    assert_eq!(classify_var_key("round_temp_variable"), Some(VarRefKind::Temp));
    assert_eq!(classify_var_key("add_to_array"), Some(VarRefKind::ArrayDef));
    assert_eq!(classify_var_key("ADD_TO_TEMP_ARRAY"), Some(VarRefKind::ArrayTempDef));
    assert_eq!(classify_var_key("for_each_scope_loop"), Some(VarRefKind::Array));
    assert_eq!(classify_var_key("resize_temp_array"), Some(VarRefKind::Array));
    assert_eq!(classify_var_key("set_country_flag"), None);
    assert_eq!(classify_var_key("has_global_flag"), None);
}

fn name_in(script: &str) -> Option<String> {
    let (s, _) = parse_script(script);
    match &s.entries[0] {
        Entry::Assignment(a) => extract_var_name(a, &s.source),
        other => panic!("expected an assignment, got {:?}", other),
    }
}

#[test]
fn var_names_come_from_short_and_long_forms() {
    assert_eq!(name_in("has_variable = my_var").as_deref(), Some("my_var"));
    assert_eq!(name_in("set_variable = { var = counter value = 1 }").as_deref(), Some("counter"));
    assert_eq!(name_in("add_to_array = { ARRAY = \"targets\" value = ROOT }").as_deref(), Some("targets"));
    assert_eq!(name_in("set_variable = { my_var = 5 }").as_deref(), Some("my_var"));
    assert_eq!(name_in("set_variable = { value = 1 value = 2 }"), None);
    assert_eq!(name_in("set_variable = 5"), None);
}
