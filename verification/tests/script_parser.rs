use hearts_of_modding::ast::{self, Entry, Value};
use hearts_of_modding::script::{find_resync_point, parse_script};

#[test]
fn test_parse_basic() {
    let input = r#"
        # This is a test HOI4 script
        country_event = {
            id = test.1
            is_triggered_only = yes
            trigger = {
                tag = GER
                has_war = no
            }
        }
        "#;
    let (script, errors) = parse_script(input);
    assert!(errors.is_empty());
    assert_eq!(script.entries.len(), 2);
}

#[test]
fn test_parse_complex() {
    let input = r#"
        modifier = {
            political_power_factor = 0.15
            stability_factor > -0.1
            tag != "ENG"
            [?my_var] = 10
            array^0 = 1
        }
        "#;
    let (script, errors) = parse_script(input);
    assert!(errors.is_empty());
    assert_eq!(script.entries.len(), 1);
}

#[test]
fn test_parse_quoted_escapes() {
    let input = r#"title = "Event \"The Great War\" Begins""#;
    let (_script, errors) = parse_script(input);
    assert!(errors.is_empty());
}

#[test]
fn test_parse_dots_in_key() {
    let input = r#"title = daw.2.t"#;
    let (script, errors) = parse_script(input);
    assert!(errors.is_empty());
    assert_eq!(script.entries.len(), 1);
    if let Entry::Assignment(ass) = &script.entries[0] {
        let val = ass.value.value.as_str(&script.source);
        assert_eq!(val, Some("daw.2.t"));
    } else {
        panic!("Value should be a string/identifier");
    }
}

#[test]
fn test_parse_pipe_in_value() {
    let input = r#"custom_effect_tooltip = tech_effect|sp_naval_support_ships_pick_a"#;
    let (_script, errors) = parse_script(input);
    assert!(errors.is_empty());
}

#[test]
fn test_byte_span_resolve() {
    let input = "key = hello_world";
    let (script, errors) = parse_script(input);
    assert!(errors.is_empty());
    if let Entry::Assignment(ass) = &script.entries[0] {
        assert_eq!(ass.key_text(&script.source), "key");
        if let Value::String(span) = &ass.value.value {
            assert_eq!(span.resolve(&script.source), "hello_world");
        } else {
            panic!("Expected Value::String");
        }
    }
}

#[test]
fn test_quoted_string_value() {
    let input = r#"name = "hello world""#;
    let (script, errors) = parse_script(input);
    assert!(errors.is_empty());
    if let Entry::Assignment(ass) = &script.entries[0] {
        if let Value::QuotedString(s) = &ass.value.value {
            assert_eq!(s, "hello world");
        } else {
            panic!("Expected Value::QuotedString");
        }
    }
}

#[test]
fn test_byte_span_comment() {
    let input = "# comment text\nkey = val";
    let (script, errors) = parse_script(input);
    assert!(errors.is_empty());
    if let Entry::Comment(bs, _) = &script.entries[0] {
        assert_eq!(bs.resolve(&script.source), " comment text");
    }
}

#[test]
fn test_number_vs_string() {
    let input = "num = 15.0\nstr = test_val";
    let (script, errors) = parse_script(input);
    assert!(errors.is_empty());
    if let Entry::Assignment(ass) = &script.entries[0] {
        assert!(matches!(ass.value.value, Value::Number(_)));
        if let Value::Number(span) = &ass.value.value {
            assert_eq!(span.resolve(&script.source).parse::<f64>().unwrap(), 15.0);
        }
    }
    if let Entry::Assignment(ass) = &script.entries[1] {
        assert!(matches!(ass.value.value, Value::String(_)));
        assert_eq!(ass.value.value.as_str(&script.source), Some("test_val"));
    }
}

#[test]
fn test_tagged_block_tag() {
    let input = "my_tag { inner = val }";
    let (script, errors) = parse_script(input);
    assert!(errors.is_empty());
    if let Entry::Value(nv) = &script.entries[0] {
        if let Value::TaggedBlock(tag, _, _) = &nv.value {
            assert_eq!(tag.resolve(&script.source), "my_tag");
        } else {
            panic!("Expected TaggedBlock, got {:?}", nv.value);
        }
    } else {
        panic!("Expected Entry::Value with TaggedBlock");
    }
}

#[test]
fn test_entry_key_helper() {
    let input = "some_key = 42";
    let (script, errors) = parse_script(input);
    assert!(errors.is_empty());
    if let Entry::Assignment(ass) = &script.entries[0] {
        assert_eq!(ass.key_text(&script.source), "some_key");
    } else {
        panic!("Expected Assignment entry");
    }
}

#[test]
fn parser_test_bom_stripping() {
    let input = "\u{feff}key = val";
    let (script, errors) = parse_script(input);
    assert!(errors.is_empty());
    if let Entry::Assignment(ass) = &script.entries[0] {
        assert_eq!(ass.key_text(&script.source), "key");
    } else {
        panic!("Expected Assignment entry");
    }
    assert!(!script.source.contains('\u{feff}'));
}

#[test]
fn test_multibyte_byte_span_offsets() {
    let input = "äöü_ñ = value\nkey = café\n# naïve comment\ncafé = 42\nname = \"café ｡\"";
    let (script, errors) = parse_script(input);
    assert!(errors.is_empty(), "Parse errors: {:?}", errors);
    if let Entry::Assignment(ass) = &script.entries[0] {
        let key = ass.key_text(&script.source);
        assert_eq!(key, "äöü_ñ", "Got key: {:?}", key);
        let val = ass.value.value.as_str(&script.source);
        assert_eq!(val, Some("value"));
    } else {
        panic!("Entry 0 should be Assignment");
    }
    if let Entry::Assignment(ass) = &script.entries[1] {
        let key = ass.key_text(&script.source);
        assert_eq!(key, "key");
        let val = ass.value.value.as_str(&script.source);
        assert_eq!(val, Some("café"), "Value should be café, got {:?}", val);
    } else {
        panic!("Entry 1 should be Assignment");
    }
    if let Entry::Comment(bs, _) = &script.entries[2] {
        let comment = bs.resolve(&script.source);
        assert_eq!(comment, " naïve comment", "Comment text mismatch: {:?}", comment);
    } else {
        panic!("Entry 2 should be Comment");
    }
    if let Entry::Assignment(ass) = &script.entries[3] {
        let key = ass.key_text(&script.source);
        assert_eq!(key, "café");
    } else {
        panic!("Entry 3 should be Assignment");
    }
    if let Entry::Assignment(ass) = &script.entries[4] {
        let key = ass.key_text(&script.source);
        assert_eq!(key, "name");
        assert!(matches!(ass.value.value, Value::QuotedString(_)));
    } else {
        panic!("Entry 4 should be Assignment");
    }
}

#[test]
fn test_multibyte_bom_stripping() {
    let input = "\u{feff}äöü_ñ = value\nkey = café";
    let (script, errors) = parse_script(input);
    assert!(errors.is_empty(), "Parse errors: {:?}", errors);
    assert!(!script.source.contains('\u{feff}'), "BOM should be stripped from source");
    if let Entry::Assignment(ass) = &script.entries[0] {
        let key = ass.key_text(&script.source);
        assert_eq!(key, "äöü_ñ", "First key after BOM, got {:?}", key);
    } else {
        panic!("Entry 0 should be Assignment");
    }
}

#[test]
fn test_error_recovery_multibyte_offsets() {
    let input = "äöü = first\n~~~~\ncafé = third\n# naïve note\nkey = last";
    let (script, errors) = parse_script(input);
    assert!(!errors.is_empty(), "Should have parse errors from bad line");
    if let Entry::Assignment(ass) = &script.entries[0] {
        assert_eq!(ass.key_text(&script.source), "äöü");
        assert_eq!(ass.value.value.as_str(&script.source), Some("first"));
    } else {
        panic!("Entry 0 should be Assignment");
    }
    let last_entry = script
        .entries
        .iter()
        .find(|e| matches!(e, Entry::Assignment(ass) if ass.key_text(&script.source) == "key"));
    assert!(last_entry.is_some(), "Should have found 'key = last'");
    if let Some(Entry::Assignment(ass)) = last_entry {
        assert_eq!(ass.value.value.as_str(&script.source), Some("last"));
    }
    let comment_entry = script
        .entries
        .iter()
        .find(|e| matches!(e, Entry::Comment(bs, _) if bs.resolve(&script.source) == " naïve note"));
    assert!(comment_entry.is_some(), "Should have found comment");
    let cafe_entry = script
        .entries
        .iter()
        .find(|e| matches!(e, Entry::Assignment(ass) if ass.key_text(&script.source) == "café"));
    assert!(cafe_entry.is_some(), "Should have found 'café = third'");
    if let Some(Entry::Assignment(ass)) = cafe_entry {
        assert_eq!(ass.value.value.as_str(&script.source), Some("third"));
    }
}

#[test]
fn test_find_resync_point_stray_close_brace() {
    assert_eq!(find_resync_point("}", 0), Some(1));
}

#[test]
fn test_find_resync_point_no_resync() {
    assert_eq!(find_resync_point("garbage content without braces", 0), None);
}

#[test]
fn test_find_resync_point_balanced_braces_skipped() {
    assert_eq!(find_resync_point("{ balanced }}", 0), Some(13));
}

#[test]
fn test_find_resync_point_nested_braces() {
    assert_eq!(find_resync_point("{ { { } } }}", 0), Some(12));
}

#[test]
fn test_find_resync_point_start_depth_neg_one() {
    assert_eq!(find_resync_point("stuff { inner } stuff }", -1), Some(23));
}

#[test]
fn test_find_resync_point_skips_comments() {
    let result = find_resync_point("# this has a { and a } in it\n}", 0);
    assert!(result.is_some(), "Should find resync after comment");
    assert_eq!(result, Some(30), "Should consume comment + newline + stray brace");
}

#[test]
fn test_find_resync_point_skips_quoted_strings() {
    let result = find_resync_point("\"quote with { braces }\" }", 0);
    assert!(result.is_some(), "Should find resync after quoted string");
    assert_eq!(result, Some(25));
}

#[test]
fn test_find_resync_point_skips_quoted_with_escapes() {
    let result = find_resync_point("\"escaped \\\" quote\" }", 0);
    assert!(result.is_some(), "Should find resync after escaped quote");
}

#[test]
fn test_error_recovery_stray_close_brace() {
    let input = "key = value\n}";
    let (script, errors) = parse_script(input);
    assert_eq!(script.entries.len(), 1, "Should have one entry");
    assert!(!errors.is_empty(), "Should report parse error");
    if let Entry::Assignment(ass) = &script.entries[0] {
        assert_eq!(ass.key_text(&script.source), "key");
    }
}

#[test]
fn test_error_recovery_content_after_stray_brace() {
    let input = "first = one\n}\nsecond = two";
    let (script, errors) = parse_script(input);
    assert_eq!(
        script.entries.len(),
        2,
        "Should have two entries, got {:?}",
        script.entries.iter().map(|e| format!("{:?}", e)).collect::<Vec<_>>()
    );
    if let Entry::Assignment(ass) = &script.entries[0] {
        assert_eq!(ass.key_text(&script.source), "first");
        assert_eq!(ass.value.value.as_str(&script.source), Some("one"));
    }
    if let Entry::Assignment(ass) = &script.entries[1] {
        assert_eq!(ass.key_text(&script.source), "second");
        assert_eq!(ass.value.value.as_str(&script.source), Some("two"));
    }
    assert!(!errors.is_empty(), "Should report parse error for stray brace");
}

#[test]
fn test_error_recovery_balanced_braces_then_stray() {
    let input = "first = \"value\"\n{ inner = val }\n}\nsecond = two";
    let (script, errors) = parse_script(input);
    assert_eq!(
        script.entries.len(),
        3,
        "Should have three entries: assignment, block, assignment, got {:?}",
        script.entries.iter().map(|e| format!("{:?}", e)).collect::<Vec<_>>()
    );
    assert!(!errors.is_empty(), "Should report parse error for stray brace");
}

#[test]
fn test_error_recovery_garbage_no_braces() {
    let input = "first = one\n~~~~\nsecond = two";
    let (script, errors) = parse_script(input);
    assert_eq!(script.entries.len(), 2);
    assert!(!errors.is_empty(), "Should report parse error for garbage");
    let last = script
        .entries
        .iter()
        .find(|e| matches!(e, Entry::Assignment(ass) if ass.key_text(&script.source) == "second"));
    assert!(last.is_some(), "Should have 'second' entry");
}

#[test]
fn test_error_recovery_comment_with_braces() {
    let input = "key = val\n# stray } in comment\nsecond = two";
    let (script, errors) = parse_script(input);
    assert_eq!(script.entries.len(), 3, "Should have 3 entries: assignment, comment, assignment");
    assert!(errors.is_empty(), "Braces inside comments should not trigger parse errors");
}

#[test]
fn test_error_recovery_multiple_stray_braces() {
    let input = "first = one\n}\n}\nsecond = two";
    let (script, errors) = parse_script(input);
    assert_eq!(script.entries.len(), 2, "Should have two entries (stray braces consumed)");
    assert_eq!(errors.len(), 2, "Should report two parse errors");
}

#[test]
fn test_error_recovery_line_skip_fallback() {
    let input = "valid = yes\n~~~\nstill_valid = working";
    let (script, errors) = parse_script(input);
    assert_eq!(script.entries.len(), 2);
    assert!(!errors.is_empty(), "Should report parse error for garbage");
    if let Entry::Assignment(ass) = &script.entries[1] {
        assert_eq!(ass.key_text(&script.source), "still_valid");
        assert_eq!(ass.value.value.as_str(&script.source), Some("working"));
    }
}

#[test]
fn test_error_recovery_missing_block_close() {
    let input = "outer = {\n    inner = val\n    missing_brace = yes\n";
    let (script, errors) = parse_script(input);
    assert!(!errors.is_empty(), "Missing brace should produce error");
    println!("Missing block close test — {} entries, {} errors", script.entries.len(), errors.len());
}

// Further cases of this library's own.

#[test]
fn parse_error_message_and_range() {
    let (script, errors) = parse_script("a = 1\n   ~~~ bad line here\nb = 2");
    assert_eq!(script.entries.len(), 2);
    assert_eq!(errors.len(), 1);
    assert_eq!(errors[0].0, "Parsing error near: '~~~ bad line here'");
    assert_eq!(errors[0].1, ast::Range { start_line: 1, start_col: 3, end_line: 1, end_col: 20 });
}

#[test]
fn parse_error_snippet_is_cut_after_thirty_characters() {
    let (_script, errors) = parse_script("~123456789012345678901234567890123456789");
    assert_eq!(errors.len(), 1);
    assert_eq!(errors[0].0, "Parsing error near: '~12345678901234567890123456789...'");
    assert_eq!(errors[0].1, ast::Range { start_line: 0, start_col: 0, end_line: 0, end_col: 20 });
}

#[test]
fn parse_ranges_count_bytes_before_and_characters_inside() {
    let (script, errors) = parse_script("é = {\n  x = \"q\"\n}");
    assert!(errors.is_empty());
    if let Entry::Assignment(ass) = &script.entries[0] {
        assert_eq!(ass.key_range, ast::Range { start_line: 0, start_col: 0, end_line: 0, end_col: 1 });
        assert_eq!(ass.operator_range, ast::Range { start_line: 0, start_col: 3, end_line: 0, end_col: 4 });
        assert_eq!(ass.value.range, ast::Range { start_line: 0, start_col: 5, end_line: 2, end_col: 1 });
        if let Value::Block(inner) = &ass.value.value {
            if let Entry::Assignment(x) = &inner[0] {
                assert_eq!(x.value.range, ast::Range { start_line: 1, start_col: 6, end_line: 1, end_col: 9 });
            } else {
                panic!("expected an assignment inside");
            }
        } else {
            panic!("expected a block");
        }
    } else {
        panic!("expected an assignment");
    }
}

#[test]
fn parse_signed_and_special_numbers() {
    let (script, errors) = parse_script("a = +5\nb = -inf\nc = 1e3\nd = yes_please");
    assert_eq!(errors.len(), 0);
    let kinds: Vec<String> = script
        .entries
        .iter()
        .map(|e| match e {
            Entry::Assignment(a) => match &a.value.value {
                Value::Number(s) => format!("num {}", s.resolve(&script.source)),
                Value::String(s) => format!("str {}", s.resolve(&script.source)),
                Value::Boolean(b) => format!("bool {}", b),
                other => format!("{:?}", other),
            },
            Entry::Value(v) => match &v.value {
                Value::String(s) => format!("value {}", s.resolve(&script.source)),
                other => format!("{:?}", other),
            },
            other => format!("{:?}", other),
        })
        .collect();
    assert_eq!(kinds, vec!["num +5", "str -inf", "num 1e3", "bool true", "value _please"]);
}

#[test]
fn find_resync_point_counts_bytes() {
    assert_eq!(find_resync_point("é}", 0), Some(3));
}
