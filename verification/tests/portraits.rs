use hearts_of_modding::portraits::{collect_gfx_references, extract_portraits, scan_portraits, PortraitBlockType};
use hearts_of_modding::script::parse_script;

const SAMPLE: &str = r#"
GER = {
    army = {
        male = { GFX_portrait_ger_1 GFX_portrait_ger_2 }
        female = { GFX_portrait_ger_f }
    }
    political = {
        fascism = { male = { GFX_portrait_ger_pol } }
        communism = { male = { GFX_portrait_ger_1 } }
        fascism = { }
    }
}
continent = {
    name = europe
    navy = { male = { GFX_portrait_eu_navy } }
}
Default = { scientist = { male = { GFX_sci } } }
"#;

#[test]
fn portraits_are_extracted() {
    let ps = scan_portraits(&vec![("portraits/00.txt".to_string(), SAMPLE.to_string())]);
    assert_eq!(ps.len(), 3);
    let ger = &ps[0];
    assert_eq!(ger.name, "GER");
    assert_eq!(ger.block_type, PortraitBlockType::Tag);
    assert!(ger.has_army && ger.has_political);
    assert!(!ger.has_male && !ger.has_navy);
    assert_eq!(ger.ideologies, vec!["fascism".to_string(), "communism".to_string()]);
    assert_eq!(
        ger.gfx_entries,
        vec![
            "GFX_portrait_ger_1".to_string(),
            "GFX_portrait_ger_2".to_string(),
            "GFX_portrait_ger_f".to_string(),
            "GFX_portrait_ger_pol".to_string(),
        ]
    );
    assert_eq!(ger.path, "portraits/00.txt");
    assert_eq!(ger.range.start_line, 1);
    let eu = &ps[1];
    assert_eq!(eu.name, "europe");
    assert_eq!(eu.block_type, PortraitBlockType::Continent);
    assert_eq!(eu.continent_name.as_deref(), Some("europe"));
    assert!(eu.has_navy);
    let def = &ps[2];
    assert_eq!(def.name, "Default");
    assert_eq!(def.block_type, PortraitBlockType::Default);
    assert!(def.has_scientist);
    assert_eq!(def.gfx_entries, vec!["GFX_sci".to_string()]);
}

#[test]
fn later_portraits_replace_earlier() {
    let ps = scan_portraits(&vec![
        ("a.txt".to_string(), "SOV = { army = { } }".to_string()),
        ("b.txt".to_string(), "SOV = { navy = { } }".to_string()),
    ]);
    assert_eq!(ps.len(), 1);
    assert_eq!(ps[0].path, "b.txt");
    assert!(ps[0].has_navy && !ps[0].has_army);
}

#[test]
fn gfx_references_are_collected_once_depth_first() {
    let (script, _) = parse_script("a = GFX_one\nb = { GFX_two c = GFX_one d = tag { GFX_three } }\nGFX_four\nnot_gfx = x");
    let mut list = Vec::new();
    collect_gfx_references(&script.entries, &script.source, &mut list);
    assert_eq!(list, vec!["GFX_one", "GFX_two", "GFX_three", "GFX_four"]);
}

#[test]
fn non_block_entries_are_not_portraits() {
    let (script, _) = parse_script("GER = GFX_x\nITA = { }");
    let mut map = Vec::new();
    extract_portraits(&script.entries, &script.source, "p", &mut map);
    assert_eq!(map.len(), 1);
    assert_eq!(map[0].name, "ITA");
}
