//! The checks made after walking a state history file.

use hearts_of_modding::ast::Range;
use hearts_of_modding::findings::{RuleCode, RuleSeverity};
use hearts_of_modding::provinces::Province;
use hearts_of_modding::states::{state_after_walk, ProvincePlacement, StateWalk};

fn at(line: u32) -> Range {
    Range { start_line: line, start_col: 0, end_line: line, end_col: 1 }
}

fn prov(id: u32, kind: &str, coastal: bool) -> Province {
    Province { id, rgb: (0, 0, 0), terrain: "plains".to_string(), is_coastal: coastal, prov_type: kind.to_string(), continent: 1 }
}

fn walk(provinces: Vec<(u32, Range)>) -> StateWalk {
    StateWalk {
        is_state_file: true,
        saw_state: true,
        self_id: Some(1),
        state_key_range: Some(at(0)),
        provinces_key_range: Some(at(3)),
        provinces,
        vp_firsts: Vec::new(),
        placements: Vec::new(),
    }
}

#[test]
fn empty_state_is_reported_at_the_provinces_key() {
    let d = state_after_walk(&walk(Vec::new()), &Vec::new(), &Vec::new(), &Vec::new());
    assert_eq!(d.len(), 1);
    assert_eq!(d[0].code, Some(RuleCode::EmptyState));
    assert_eq!(d[0].message, "State has no provinces");
    assert_eq!(d[0].range, at(3));
    assert_eq!(d[0].severity, RuleSeverity::Warning);
}

#[test]
fn unknown_sea_and_shared_provinces() {
    let w = walk(vec![(10, at(4)), (11, at(4)), (12, at(4)), (10, at(5))]);
    let provs = vec![prov(10, "land", true), prov(11, "sea", true)];
    let states = vec![(1, vec![10, 11, 12]), (2, vec![11, 10])];
    let d = state_after_walk(&w, &provs, &states, &Vec::new());
    let msgs: Vec<&str> = d.iter().map(|x| x.message.as_str()).collect();
    assert_eq!(
        msgs,
        vec![
            "Province 10 is also in state 2",
            "Sea province 11 listed in a state (lakes are legal, sea is not)",
            "Province 11 is also in state 2",
            "Province 12 is not in map/definition.csv",
        ]
    );
}

#[test]
fn duplicate_victory_points_and_placements() {
    let mut w = walk(vec![(10, at(4)), (11, at(4))]);
    w.self_id = None;
    w.vp_firsts = vec![(10, at(6)), (11, at(7)), (10, at(8))];
    w.placements = vec![
        ProvincePlacement { province: 99, building: "naval_base".to_string(), province_range: at(9), building_range: at(9) },
        ProvincePlacement { province: 10, building: "naval_base".to_string(), province_range: at(10), building_range: at(11) },
        ProvincePlacement { province: 11, building: "naval_base".to_string(), province_range: at(12), building_range: at(12) },
    ];
    let provs = vec![prov(10, "land", false), prov(11, "land", true)];
    let coastal = vec![("naval_base".to_string(), true)];
    let d = state_after_walk(&w, &provs, &Vec::new(), &coastal);
    assert_eq!(d.len(), 3);
    assert_eq!(d[0].message, "Duplicate victory_points entry for province 10");
    assert_eq!(d[0].range, at(8));
    assert_eq!(d[1].message, "Building 'naval_base' placed on province 99 which is not in this state");
    assert_eq!(d[2].code, Some(RuleCode::CoastalBuildingOnInland));
    assert_eq!(d[2].message, "Building 'naval_base' requires a coastal province (province 10 is inland)");
    assert_eq!(d[2].range, at(11));
}

#[test]
fn other_files_are_not_checked() {
    let mut w = walk(Vec::new());
    w.is_state_file = false;
    assert!(state_after_walk(&w, &Vec::new(), &Vec::new(), &Vec::new()).is_empty());
}
