//! The checks on finished event definitions and options.

use hearts_of_modding::ast::Range;
use hearts_of_modding::events::{validate_event, validate_option, EventDef, EventOptionDef};
use hearts_of_modding::findings::{RuleCode, RuleSeverity};

fn at(line: u32) -> Range {
    Range { start_line: line, start_col: 0, end_line: line, end_col: 1 }
}

fn event() -> EventDef {
    EventDef {
        key_range: at(0),
        has_title: true,
        has_desc: true,
        has_picture: false,
        is_hidden: false,
        has_mtth: false,
        has_is_triggered_only: true,
        is_call: false,
        has_option: true,
        option_count: 1,
        options_missing_ai_chance: 0,
        ai_visible_option_count: 1,
        last_missing_ai_chance_range: None,
        title_range: Some(at(2)),
        desc_range: None,
        picture_range: Some(at(4)),
        title_key: Some("ev.1.t".to_string()),
        desc_key: Some("ev.1.d".to_string()),
        picture_sprite: None,
        id: Some("ev.1".to_string()),
        id_range: Some(at(1)),
    }
}

#[test]
fn event_without_title_and_desc() {
    let mut e = event();
    e.has_title = false;
    e.has_desc = false;
    e.title_key = None;
    e.desc_key = None;
    let d = validate_event(&e, &Vec::new(), &Vec::new());
    assert_eq!(d.len(), 1);
    assert_eq!(d[0].code, Some(RuleCode::EventMissingTitle));
    e.is_hidden = true;
    assert!(validate_event(&e, &Vec::new(), &Vec::new()).is_empty());
}

#[test]
fn missing_localisation_and_sprite() {
    let mut e = event();
    e.picture_sprite = Some("GFX_report_event_x".to_string());
    let loc = vec!["ev.1.t".to_string()];
    let d = validate_event(&e, &loc, &Vec::new());
    assert_eq!(d.len(), 2);
    assert_eq!(d[0].message, "Event description localization key 'ev.1.d' not found in any localization file.");
    assert_eq!(d[0].range, at(0));
    assert_eq!(d[1].message, "Event picture sprite 'GFX_report_event_x' not found. Define it in an interface/*.gfx file.");
    assert_eq!(d[1].range, at(4));
    // no localisation known yet: keys are not checked
    assert_eq!(validate_event(&e, &Vec::new(), &vec!["GFX_report_event_x".to_string()]).len(), 0);
}

#[test]
fn ai_chance_only_matters_with_several_visible_options() {
    let mut e = event();
    e.option_count = 3;
    e.options_missing_ai_chance = 2;
    e.ai_visible_option_count = 2;
    e.last_missing_ai_chance_range = Some(at(9));
    let loc = vec!["ev.1.t".to_string(), "ev.1.d".to_string()];
    let d = validate_event(&e, &loc, &Vec::new());
    assert_eq!(d.len(), 1);
    assert_eq!(d[0].severity, RuleSeverity::Information);
    assert_eq!(d[0].message, "2 of 3 option(s) are missing an 'ai_chance' block. The AI may not choose optimally without explicit weights.");
    assert_eq!(d[0].range, at(9));
    e.ai_visible_option_count = 1;
    assert!(validate_event(&e, &loc, &Vec::new()).is_empty());
    e.is_call = true;
    e.has_title = false;
    e.has_desc = false;
    assert!(validate_event(&e, &Vec::new(), &Vec::new()).is_empty());
}

#[test]
fn option_without_name() {
    let o = EventOptionDef { key_range: at(5), has_name: false, has_ai_chance: false, provably_ai_invisible: false };
    let d = validate_option(&o);
    assert_eq!(d.len(), 1);
    assert_eq!(d[0].code, Some(RuleCode::EventMissingOptionName));
    let o = EventOptionDef { has_name: true, ..o };
    assert!(validate_option(&o).is_empty());
}
