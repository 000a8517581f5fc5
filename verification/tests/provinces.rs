use hearts_of_modding::provinces::{parse_province_definitions, parse_province_line};

#[test]
fn full_definition_line() {
    let p = parse_province_line("1;10;20;300;plains;TRUE;land;2").unwrap();
    assert_eq!(p.id, 1);
    assert_eq!(p.rgb, (10, 20, 0));
    assert_eq!(p.terrain, "plains");
    assert!(p.is_coastal);
    assert_eq!(p.prov_type, "land");
    assert_eq!(p.continent, 2);
}

#[test]
fn short_and_bad_lines() {
    let p = parse_province_line("+7;1;2").unwrap();
    assert_eq!(p.id, 7);
    assert_eq!(p.rgb, (0, 0, 0));
    assert!(p.terrain.is_empty());
    assert!(parse_province_line("x;1;2;3;sea;false;sea;0").is_none());
    assert!(parse_province_line("").is_none());
    assert!(parse_province_line("4294967296;1").is_none());
    assert_eq!(parse_province_line("4294967295").unwrap().id, u32::MAX);
    assert!(!parse_province_line("3;1;2;3;ocean;yes;sea;x").unwrap().is_coastal);
    assert_eq!(parse_province_line("3;1;2;3;ocean;yes;sea;x").unwrap().continent, 0);
}

#[test]
fn later_lines_replace_earlier_ones() {
    let ps = parse_province_definitions("0;0;0;0;land;false;unknown;0\r\n1;1;1;1;forest;false;land;1\n1;2;2;2;hills;true;land;3\n");
    assert_eq!(ps.len(), 2);
    assert_eq!(ps[0].id, 0);
    assert_eq!(ps[0].prov_type, "unknown");
    assert_eq!(ps[1].id, 1);
    assert_eq!(ps[1].terrain, "hills");
    assert_eq!(ps[1].continent, 3);
}
