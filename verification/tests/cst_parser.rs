//! Concrete parser tests: the nodes and diagnostics of small scripts.

use hearts_of_modding::cst::lexer::tokenize;
use hearts_of_modding::cst::parser::parse_cst;
use hearts_of_modding::cst::token::TokenKind;
use hearts_of_modding::cst::types::{CloseBrace, CstNode, CstScript, CstValue};

fn parse(input: &str) -> CstScript {
    let (tokens, _) = tokenize(input);
    parse_cst(tokens)
}

#[test]
fn empty_input() {
    let script = parse("");
    assert_eq!(script.nodes.len(), 0, "empty input should have 0 nodes");
    assert_eq!(
        script.diagnostics.len(),
        0,
        "empty input should have 0 diagnostics"
    );
}

#[test]
fn simple_assignment() {
    let script = parse("key = val");
    assert_eq!(script.nodes.len(), 1);
    match &script.nodes[0] {
        CstNode::Assignment(assign) => {
            assert_eq!(assign.key.text, "key");
            assert!(matches!(assign.operator.kind, TokenKind::OpEquals));
            match &assign.value {
                CstValue::Ident(v) => assert_eq!(v.text, "val"),
                _ => panic!("Expected Ident value"),
            }
        }
        other => panic!("Expected Assignment, got {:?}", other),
    }
    assert_eq!(script.diagnostics.len(), 0, "no diagnostics expected");
}

#[test]
fn block_assignment() {
    let script = parse("country_event = { id = test.1 }");
    assert_eq!(script.nodes.len(), 1);
    match &script.nodes[0] {
        CstNode::Assignment(assign) => {
            assert_eq!(assign.key.text, "country_event");
            match &assign.value {
                CstValue::Block(block) => {
                    assert_eq!(block.entries.len(), 1);
                    match &block.entries[0] {
                        CstNode::Assignment(inner) => {
                            assert_eq!(inner.key.text, "id");
                            match &inner.value {
                                CstValue::Ident(v) => {
                                    assert_eq!(v.text, "test.1");
                                }
                                _ => panic!("Expected Ident value"),
                            }
                        }
                        other => panic!("Expected inner Assignment, got {:?}", other),
                    }
                }
                other => panic!("Expected Block value, got {:?}", other),
            }
        }
        other => panic!("Expected Assignment, got {:?}", other),
    }
    assert_eq!(script.diagnostics.len(), 0, "no diagnostics expected");
}

#[test]
fn tagged_block() {
    let script = parse("modifier = my_tag { factor = 0.5 }");
    assert_eq!(script.nodes.len(), 1);
    match &script.nodes[0] {
        CstNode::Assignment(assign) => {
            assert_eq!(assign.key.text, "modifier");
            match &assign.value {
                CstValue::TaggedBlock { tag, block } => {
                    assert_eq!(tag.text, "my_tag");
                    assert_eq!(block.entries.len(), 1);
                    match &block.entries[0] {
                        CstNode::Assignment(inner) => {
                            assert_eq!(inner.key.text, "factor");
                            match &inner.value {
                                CstValue::Number(n) => assert_eq!(n.text, "0.5"),
                                _ => panic!("Expected Number value"),
                            }
                        }
                        other => panic!("Expected inner Assignment, got {:?}", other),
                    }
                }
                other => panic!("Expected TaggedBlock, got {:?}", other),
            }
        }
        other => panic!("Expected Assignment, got {:?}", other),
    }
    assert_eq!(script.diagnostics.len(), 0, "no diagnostics expected");
}

#[test]
fn bare_value() {
    let script = parse("{ key = val }");
    assert_eq!(script.nodes.len(), 1);
    match &script.nodes[0] {
        CstNode::EntryValue(entry) => match &*entry.value {
            CstValue::Block(block) => {
                assert_eq!(block.entries.len(), 1);
                match &block.entries[0] {
                    CstNode::Assignment(inner) => {
                        assert_eq!(inner.key.text, "key");
                    }
                    other => panic!("Expected Assignment, got {:?}", other),
                }
            }
            other => panic!("Expected Block, got {:?}", other),
        },
        other => panic!("Expected EntryValue, got {:?}", other),
    }
    assert_eq!(script.diagnostics.len(), 0, "no diagnostics expected");
}

#[test]
fn bare_ident() {
    let script = parse("yes");
    assert_eq!(script.nodes.len(), 1);
    match &script.nodes[0] {
        CstNode::EntryValue(entry) => match &*entry.value {
            CstValue::Boolean(b) => assert_eq!(b.text, "yes"),
            other => panic!("Expected Boolean, got {:?}", other),
        },
        other => panic!("Expected EntryValue, got {:?}", other),
    }
    assert_eq!(script.diagnostics.len(), 0, "no diagnostics expected");
}

#[test]
fn multiple_entries() {
    let script = parse("a = 1\nb = 2");
    assert_eq!(script.nodes.len(), 2);
    match &script.nodes[0] {
        CstNode::Assignment(assign) => assert_eq!(assign.key.text, "a"),
        other => panic!("Expected Assignment, got {:?}", other),
    }
    match &script.nodes[1] {
        CstNode::Assignment(assign) => assert_eq!(assign.key.text, "b"),
        other => panic!("Expected Assignment, got {:?}", other),
    }
    assert_eq!(script.diagnostics.len(), 0, "no diagnostics expected");
}

#[test]
fn number_fallback() {
    let script = parse("42");
    assert_eq!(script.nodes.len(), 1);
    match &script.nodes[0] {
        CstNode::EntryValue(entry) => match &*entry.value {
            CstValue::Number(n) => {
                assert_eq!(n.text, "42");
            }
            other => panic!("Expected Number, got {:?}", other),
        },
        other => panic!("Expected EntryValue, got {:?}", other),
    }
    assert_eq!(script.diagnostics.len(), 0, "no diagnostics expected");
}

#[test]
fn boolean_ident_assignment() {
    let script = parse("key = yes");
    assert_eq!(script.nodes.len(), 1);
    match &script.nodes[0] {
        CstNode::Assignment(assign) => {
            assert_eq!(assign.key.text, "key");
            match &assign.value {
                CstValue::Boolean(b) => assert_eq!(b.text, "yes"),
                other => panic!("Expected Boolean, got {:?}", other),
            }
        }
        other => panic!("Expected Assignment, got {:?}", other),
    }
    assert_eq!(script.diagnostics.len(), 0, "no diagnostics expected");
}

#[test]
fn string_value() {
    let script = parse("key = \"hello\"");
    assert_eq!(script.nodes.len(), 1);
    match &script.nodes[0] {
        CstNode::Assignment(assign) => {
            assert_eq!(assign.key.text, "key");
            match &assign.value {
                CstValue::String(s) => assert_eq!(s.text, "\"hello\""),
                other => panic!("Expected String, got {:?}", other),
            }
        }
        other => panic!("Expected Assignment, got {:?}", other),
    }
    // The tokenizer preserves the quotes in the text; the string value
    // inside the quotes is the token kind's inner String.
    assert_eq!(script.diagnostics.len(), 0, "no diagnostics expected");
}

#[test]
fn missing_close_brace() {
    let script = parse("x = { y = 1");
    assert_eq!(script.nodes.len(), 1);
    match &script.nodes[0] {
        CstNode::Assignment(assign) => {
            assert_eq!(assign.key.text, "x");
            match &assign.value {
                CstValue::Block(block) => {
                    assert_eq!(block.entries.len(), 1);
                    match &block.close_brace {
                        CloseBrace::Missing(diag) => {
                            assert!(
                                diag.message.contains("Expected '}'"),
                                "Diagnostic message: {}",
                                diag.message
                            );
                        }
                        other => panic!("Expected Missing close brace, got {:?}", other),
                    }
                }
                other => panic!("Expected Block, got {:?}", other),
            }
        }
        other => panic!("Expected Assignment, got {:?}", other),
    }
    // Should have at least one diagnostic about the missing brace
    assert!(
        script.diagnostics.len() >= 1,
        "expected diagnostic about missing close brace"
    );
}

#[test]
fn extra_close_brace() {
    let script = parse("x = { } }");
    assert_eq!(script.nodes.len(), 1);
    match &script.nodes[0] {
        CstNode::Assignment(assign) => {
            assert_eq!(assign.key.text, "x");
            match &assign.value {
                CstValue::Block(block) => {
                    assert!(matches!(block.close_brace, CloseBrace::Present(_)));
                }
                other => panic!("Expected Block, got {:?}", other),
            }
        }
        other => panic!("Expected Assignment, got {:?}", other),
    }
    // The extra `}` should produce a diagnostic
    assert!(
        script.diagnostics.len() >= 1,
        "expected diagnostic about extra closing brace"
    );
}

#[test]
fn dots_in_key() {
    let script = parse("title = daw.2.t");
    assert_eq!(script.nodes.len(), 1);
    match &script.nodes[0] {
        CstNode::Assignment(assign) => {
            assert_eq!(assign.key.text, "title");
            match &assign.value {
                CstValue::Ident(v) => assert_eq!(v.text, "daw.2.t"),
                other => panic!("Expected Ident, got {:?}", other),
            }
        }
        other => panic!("Expected Assignment, got {:?}", other),
    }
    assert_eq!(script.diagnostics.len(), 0);
}

#[test]
fn pipe_in_value() {
    let script = parse("custom_effect_tooltip = tech_effect|sp_main");
    assert_eq!(script.nodes.len(), 1);
    match &script.nodes[0] {
        CstNode::Assignment(assign) => {
            assert_eq!(assign.key.text, "custom_effect_tooltip");
            match &assign.value {
                CstValue::Ident(v) => assert_eq!(v.text, "tech_effect|sp_main"),
                other => panic!("Expected Ident, got {:?}", other),
            }
        }
        other => panic!("Expected Assignment, got {:?}", other),
    }
    assert_eq!(script.diagnostics.len(), 0);
}

#[test]
fn special_idents() {
    let script = parse("[?my_var] = 10");
    assert_eq!(script.nodes.len(), 1);
    match &script.nodes[0] {
        CstNode::Assignment(assign) => {
            assert_eq!(assign.key.text, "[?my_var]");
            match &assign.value {
                CstValue::Number(n) => assert_eq!(n.text, "10"),
                other => panic!("Expected Number, got {:?}", other),
            }
        }
        other => panic!("Expected Assignment, got {:?}", other),
    }
    assert_eq!(script.diagnostics.len(), 0);
}

#[test]
fn nested_blocks() {
    let script = parse("a = { b = { c = 1 } }");
    assert_eq!(script.nodes.len(), 1);
    match &script.nodes[0] {
        CstNode::Assignment(outer) => {
            assert_eq!(outer.key.text, "a");
            match &outer.value {
                CstValue::Block(outer_block) => {
                    assert_eq!(outer_block.entries.len(), 1);
                    match &outer_block.entries[0] {
                        CstNode::Assignment(mid) => {
                            assert_eq!(mid.key.text, "b");
                            match &mid.value {
                                CstValue::Block(inner_block) => {
                                    assert_eq!(inner_block.entries.len(), 1);
                                    match &inner_block.entries[0] {
                                        CstNode::Assignment(inner) => {
                                            assert_eq!(inner.key.text, "c");
                                            match &inner.value {
                                                CstValue::Number(n) => {
                                                    assert_eq!(n.text, "1");
                                                }
                                                other => {
                                                    panic!("Expected Number, got {:?}", other)
                                                }
                                            }
                                        }
                                        other => panic!("Expected Assignment, got {:?}", other),
                                    }
                                }
                                other => panic!("Expected Block, got {:?}", other),
                            }
                        }
                        other => panic!("Expected Assignment, got {:?}", other),
                    }
                }
                other => panic!("Expected Block, got {:?}", other),
            }
        }
        other => panic!("Expected Assignment, got {:?}", other),
    }
    assert_eq!(script.diagnostics.len(), 0);
}

#[test]
fn string_value_text() {
    // Verify that the token text for strings includes quotes
    let script = parse("key = \"hello world\"");
    match &script.nodes[0] {
        CstNode::Assignment(assign) => match &assign.value {
            CstValue::String(s) => {
                // The tokenizer preserves quotes
                assert_eq!(s.text, "\"hello world\"");
            }
            other => panic!("Expected String, got {:?}", other),
        },
        other => panic!("Expected Assignment, got {:?}", other),
    }
}

#[test]
fn negative_number() {
    let script = parse("x = -42");
    assert_eq!(script.nodes.len(), 1);
    match &script.nodes[0] {
        CstNode::Assignment(assign) => {
            assert_eq!(assign.key.text, "x");
            match &assign.value {
                CstValue::Number(n) => assert_eq!(n.text, "-42"),
                other => panic!("Expected Number, got {:?}", other),
            }
        }
        other => panic!("Expected Assignment, got {:?}", other),
    }
}

#[test]
fn all_operators() {
    let inputs = [
        ("a = 1", TokenKind::OpEquals, "1"),
        ("a < 1", TokenKind::OpLessThan, "1"),
        ("a > 1", TokenKind::OpGreaterThan, "1"),
        ("a != 1", TokenKind::OpNotEquals, "1"),
        ("a <= 1", TokenKind::OpLessOrEqual, "1"),
        ("a >= 1", TokenKind::OpGreaterOrEqual, "1"),
    ];
    for (input, expected_op, expected_val) in &inputs {
        let script = parse(input);
        assert_eq!(script.nodes.len(), 1, "input: {}", input);
        match &script.nodes[0] {
            CstNode::Assignment(assign) => {
                assert_eq!(assign.key.text, "a", "input: {}", input);
                assert!(
                    std::mem::discriminant(&assign.operator.kind)
                        == std::mem::discriminant(expected_op),
                    "input: {}, expected operator {:?}",
                    input,
                    expected_op
                );
                match &assign.value {
                    CstValue::Number(n) => assert_eq!(n.text, *expected_val),
                    other => panic!("Expected Number, got {:?}", other),
                }
            }
            other => panic!("Expected Assignment, got {:?}", other),
        }
    }
}

#[test]
fn tagged_block_bare() {
    // A bare tagged block at the top level
    let script = parse("my_tag { }");
    assert_eq!(script.nodes.len(), 1);
    match &script.nodes[0] {
        CstNode::EntryValue(entry) => match &*entry.value {
            CstValue::TaggedBlock { tag, block } => {
                assert_eq!(tag.text, "my_tag");
                assert_eq!(block.entries.len(), 0);
            }
            other => panic!("Expected TaggedBlock, got {:?}", other),
        },
        other => panic!("Expected EntryValue, got {:?}", other),
    }
}

#[test]
fn bare_no_ident() {
    let script = parse("no");
    match &script.nodes[0] {
        CstNode::EntryValue(entry) => match &*entry.value {
            CstValue::Boolean(b) => assert_eq!(b.text, "no"),
            other => panic!("Expected Boolean, got {:?}", other),
        },
        other => panic!("Expected EntryValue, got {:?}", other),
    }
    assert_eq!(script.diagnostics.len(), 0);
}

#[test]
fn boolean_number_string_literals() {
    let script = parse("yes = yes\nno = no\ntrue_val = true");
    assert_eq!(script.nodes.len(), 3);

    // yes = yes → key=Boolean(true), value=Boolean(true)
    match &script.nodes[0] {
        CstNode::Assignment(assign) => {
            assert_eq!(assign.key.text, "yes");
            assert!(matches!(assign.value, CstValue::Boolean(_)));
        }
        other => panic!("Expected Assignment, got {:?}", other),
    }
    // no = no → key=Boolean(false)? Actually "no" is parsed as a bare ident
    // and classified as Boolean. But the key is just an Ident token? No,
    // the key token is preserved as-is — it's a CstToken with text "no".
    // The operator and value are separate.
    match &script.nodes[0] {
        CstNode::Assignment(assign) => {
            // The `yes` key token is just an Ident token — we don't classify keys
            assert_eq!(assign.key.text, "yes");
        }
        _ => {}
    }
}

#[test]
fn empty_block() {
    let script = parse("x = { }");
    assert_eq!(script.nodes.len(), 1);
    match &script.nodes[0] {
        CstNode::Assignment(assign) => match &assign.value {
            CstValue::Block(block) => {
                assert_eq!(block.entries.len(), 0);
                assert!(matches!(block.close_brace, CloseBrace::Present(_)));
            }
            other => panic!("Expected Block, got {:?}", other),
        },
        other => panic!("Expected Assignment, got {:?}", other),
    }
    assert_eq!(script.diagnostics.len(), 0);
}

#[test]
fn eof_after_open_brace_recovery() {
    let script = parse("x = {");
    // Should recover with a missing close brace diagnostic
    assert_eq!(script.nodes.len(), 1);
    match &script.nodes[0] {
        CstNode::Assignment(assign) => match &assign.value {
            CstValue::Block(block) => {
                assert!(matches!(block.close_brace, CloseBrace::Missing(_)));
            }
            other => panic!("Expected Block, got {:?}", other),
        },
        other => panic!("Expected Assignment, got {:?}", other),
    }
    assert!(
        script.diagnostics.len() >= 1,
        "expected diagnostic for missing close brace"
    );
}

#[test]
fn multiple_blocks() {
    let script = parse("a = { 1 }\nb = { 2 }");
    assert_eq!(script.nodes.len(), 2);
    for node in &script.nodes {
        match node {
            CstNode::Assignment(assign) => match &assign.value {
                CstValue::Block(b) => {
                    assert_eq!(b.entries.len(), 1);
                    match &b.entries[0] {
                        CstNode::EntryValue(entry) => match &*entry.value {
                            CstValue::Number(n) => {
                                assert!(
                                    n.text == "1" || n.text == "2",
                                    "unexpected number: {}",
                                    n.text
                                );
                            }
                            other => panic!("Expected Number, got {:?}", other),
                        },
                        other => panic!("Expected EntryValue, got {:?}", other),
                    }
                }
                other => panic!("Expected Block, got {:?}", other),
            },
            other => panic!("Expected Assignment, got {:?}", other),
        }
    }
}

#[test]
fn numeric_key_assignment() {
    let script = parse("588 = { naval_base = 3 }");
    assert_eq!(script.nodes.len(), 1, "should have 1 node");
    assert_eq!(script.diagnostics.len(), 0, "no diagnostics expected");
    match &script.nodes[0] {
        CstNode::Assignment(assign) => {
            assert_eq!(assign.key.text, "588", "numeric key text should be '588'");
            assert!(matches!(assign.value, CstValue::Block(_)), "value should be a block");
        }
        other => panic!("Expected Assignment with numeric key, got {:?}", other),
    }
}

#[test]
fn state_history_numeric_keys() {
    let input = r#"state = {
	id = 11
	name = "STATE_11"
	manpower = 3031124
	state_category = large_city
	provinces = {
		588 1646 1978
	}
	resources = {
		wood = 2
		coal = 1
	}
	history = {
		owner = SPE
		add_core_of = SPE
		victory_points = { 5259 20 }
		victory_points = { 1978 10 }
		buildings = {
			infrastructure = 3
			arms_factory = 1
			588 = { naval_base = 3 }
		}
	}
}
"#;
    let script = parse(input);
    assert_eq!(
        script.diagnostics.len(), 0,
        "state history should parse with 0 diagnostics, got {}",
        script.diagnostics.iter().map(|d| format!("{}", d.message)).collect::<Vec<_>>().join(", ")
    );
    assert_eq!(script.nodes.len(), 1, "should have 1 top-level node");
}
