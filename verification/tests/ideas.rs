use hearts_of_modding::rules::is_idea_structure_key;

#[test]
fn test_idea_structure_keys_are_excluded() {
    let excluded = [
        "ideas",
        "hidden_ideas",
        "designer",
        "law",
        "use_list_view",
        "slot_ledgers",
        "slot",
        "character_slot",
        "picture",
        "targeted_modifier",
        "research_bonus",
        "equipment_bonus",
        "rule",
        "traits",
        "on_add",
        "on_remove",
        "cancel",
        "allowed_civil_war",
        "do_effect",
        "visible",
        "allowed_to_remove",
        "removal_cost",
        "level",
        "ledger",
        "hidden",
        "politics_tab",
    ];
    for key in &excluded {
        assert!(is_idea_structure_key(key), "'{}' should be recognised as a structure key", key);
    }
}

#[test]
fn test_idea_names_are_not_excluded() {
    let names = [
        "my_idea",
        "red_political_purge",
        "red_corrupt_guilds_4",
        "generic_foreign_capital",
        "idea_123",
        "ZZZ_custom_idea",
        "china_designer",
    ];
    for name in &names {
        assert!(!is_idea_structure_key(name), "'{}' should NOT be a structure key", name);
    }
}

#[test]
fn test_idea_structure_key_case_insensitive() {
    assert!(is_idea_structure_key("ON_ADD"));
    assert!(is_idea_structure_key("On_Add"));
    assert!(is_idea_structure_key("on_ADD"));
    assert!(is_idea_structure_key("CANCEL"));
    assert!(is_idea_structure_key("On_Remove"));
    assert!(is_idea_structure_key("DO_EFFECT"));
    assert!(is_idea_structure_key("ALLOWED_CIVIL_WAR"));
}

#[test]
fn test_picture_excluded() {
    assert!(is_idea_structure_key("picture"));
}
