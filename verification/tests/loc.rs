use hearts_of_modding::ast::{DiagnosticSeverity, DiagnosticTag, Range};
use hearts_of_modding::loc::{
    check_unnecessary_version, format_loc_file, parse_loc_file, validate_loc_file_structure,
    validate_unescaped_quotes_in_file, LocEntry,
};

#[test]
fn unescaped_quotes_flag_the_middle_ones() {
    let input = "l_english:\n key:0 \"say \"hi\" now\"\n";
    let ds = validate_unescaped_quotes_in_file(input);
    assert_eq!(ds.len(), 2);
    assert_eq!(ds[0].range, Range { start_line: 1, start_col: 12, end_line: 1, end_col: 13 });
    assert_eq!(ds[1].range, Range { start_line: 1, start_col: 15, end_line: 1, end_col: 16 });
    assert_eq!(ds[0].severity, DiagnosticSeverity::Warning);
    assert_eq!(ds[0].code.as_deref(), Some("unescaped_quote"));
    assert_eq!(
        ds[0].message,
        "Internal unescaped double quote. Use \\\" instead to prevent parsing errors."
    );
}

#[test]
fn unescaped_quotes_ignore_escapes_comments_and_bom() {
    let input = "\u{feff}l_english:\n key:0 \"say \\\"hi\\\" now\"\n # \"a\" \"b\" \"c\"\n k2:0 \"x\" # \"y\" \"z\"\n";
    assert!(validate_unescaped_quotes_in_file(input).is_empty());
}

#[test]
fn unescaped_quote_columns_count_bytes() {
    let input = "k:0 \"é\"x\"\"\n";
    let ds = validate_unescaped_quotes_in_file(input);
    assert_eq!(ds.len(), 2);
    assert_eq!(ds[0].range.start_col, 7);
    assert_eq!(ds[1].range.start_col, 9);
}

#[test]
fn structure_accepts_known_language() {
    assert!(validate_loc_file_structure("# comment\n\nl_english:\n key:0 \"v\"\n").is_empty());
    assert!(validate_loc_file_structure("").is_empty());
    assert!(validate_loc_file_structure("  # only a comment\n").is_empty());
}

#[test]
fn structure_warns_on_unknown_language() {
    let ds = validate_loc_file_structure("  l_klingon:\n");
    assert_eq!(ds.len(), 1);
    assert_eq!(ds[0].range, Range { start_line: 0, start_col: 2, end_line: 0, end_col: 11 });
    assert_eq!(ds[0].severity, DiagnosticSeverity::Warning);
    assert_eq!(ds[0].code.as_deref(), Some("unknown_language"));
    assert_eq!(
        ds[0].message,
        "Unknown Paradox language header: 'l_klingon'. Valid languages are: l_english, l_braz_por, l_french, l_german, l_polish, l_russian, l_spanish, l_japanese, l_simp_chinese, l_korean"
    );
}

#[test]
fn structure_errors_without_header() {
    let ds = validate_loc_file_structure("key:0 \"value\"\n");
    assert_eq!(ds.len(), 1);
    assert_eq!(ds[0].range, Range { start_line: 0, start_col: 0, end_line: 0, end_col: 10 });
    assert_eq!(ds[0].severity, DiagnosticSeverity::Error);
    assert_eq!(ds[0].code.as_deref(), Some("missing_language_header"));
    let ds = validate_loc_file_structure("just text\nmore text\n");
    assert_eq!(ds.len(), 1);
}

fn entry(version: Option<&str>) -> LocEntry {
    LocEntry {
        key: "key".to_string(),
        value: "v".to_string(),
        range: Range { start_line: 1, start_col: 1, end_line: 1, end_col: 4 },
        path: "a.yml".to_string(),
        value_start_col: 8,
        version: version.map(|v| v.to_string()),
        version_range: version.map(|_| Range { start_line: 1, start_col: 5, end_line: 1, end_col: 6 }),
    }
}

#[test]
fn version_numbers_are_flagged() {
    let d = check_unnecessary_version(&entry(Some("1"))).unwrap();
    assert_eq!(d.range, Range { start_line: 1, start_col: 5, end_line: 1, end_col: 6 });
    assert_eq!(d.severity, DiagnosticSeverity::Hint);
    assert_eq!(d.tags, vec![DiagnosticTag::Unnecessary]);
    assert!(d.message.starts_with("Version number '1' is unnecessary."));
    assert!(check_unnecessary_version(&entry(None)).is_none());
}

#[test]
fn parse_loc_file_reads_entries() {
    let input = "\u{feff}l_english:\n key_a:0 \"Alpha \\\"q\\\" end\"\n key_b: \"Beta\"\n bad line\n key_a:1 \"Again\"\n";
    let (entries, diags, lang) = parse_loc_file(input, "loc.yml");
    assert_eq!(lang.as_deref(), Some("l_english"));
    assert!(diags.is_empty(), "{:?}", diags);
    assert_eq!(entries.len(), 2);
    let a = &entries[0];
    assert_eq!(a.key, "key_a");
    assert_eq!(a.value, "Again");
    assert_eq!(a.version.as_deref(), Some("1"));
    assert_eq!(a.range, Range { start_line: 4, start_col: 1, end_line: 4, end_col: 6 });
    assert_eq!(a.version_range, Some(Range { start_line: 4, start_col: 7, end_line: 4, end_col: 8 }));
    assert_eq!(a.value_start_col, 10);
    assert_eq!(a.path, "loc.yml");
    let b = &entries[1];
    assert_eq!(b.key, "key_b");
    assert_eq!(b.value, "Beta");
    assert!(b.version.is_none());
}

#[test]
fn parse_loc_file_keeps_escaped_quotes() {
    let (entries, _, _) = parse_loc_file("l_english:\n k:0 \"a\\\"b\"\n", "p");
    assert_eq!(entries[0].value, "a\\\"b");
}

#[test]
fn parse_loc_file_without_header() {
    let (entries, diags, lang) = parse_loc_file("k:0 \"v\"\n", "p");
    assert!(entries.is_empty());
    assert!(lang.is_none());
    assert_eq!(diags.len(), 1);
}

#[test]
fn format_loc_file_basic() {
    let input = "l_english:\n  key:0 \"Value\"\n  key_DEF:0 \"The Value\"\n# note\n\nother \"x\"\n";
    let out = format_loc_file(input, true);
    assert_eq!(
        out,
        "\u{feff}l_english:\n\tkey:0: \"Value\"\n\t\tkey_DEF:0: \"The Value\"\n\t# note\n\n\tother \"x\"\n"
    );
    let plain = format_loc_file(input, false);
    assert_eq!(
        plain,
        "\u{feff}l_english:\n\tkey:0: \"Value\"\n\tkey_DEF:0: \"The Value\"\n\t# note\n\n\tother \"x\"\n"
    );
}

#[test]
fn format_loc_file_versions() {
    let out = format_loc_file("l_english:\nk: \"v\"\nm:\"w\"\nn:3\"u\"\n", false);
    assert_eq!(out, "\u{feff}l_english:\n\tk:0: \"v\"\n\tm:0: \"w\"\n\tn:3: \"u\"\n");
    // A byte-order mark sits on the first line, which then reads as no header.
    let with_bom = "\u{feff}l_english:\nk: \"v\"\n";
    assert_eq!(format_loc_file(with_bom, false), with_bom);
}

#[test]
fn format_loc_file_without_header_is_unchanged() {
    assert_eq!(format_loc_file("no header here\n", true), "no header here\n");
}
