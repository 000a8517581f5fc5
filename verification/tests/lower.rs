//! Lowering tests: tokenize, parse and lower a script, then read the AST.

use hearts_of_modding::ast::{ByteSpan, Entry, Operator, Range, Script, Value};
use hearts_of_modding::cst::diagnostic::{CstDiagnostic, TextRange};
use hearts_of_modding::cst::lexer::tokenize;
use hearts_of_modding::cst::lower::lower;
use hearts_of_modding::cst::parser::parse_cst;
use hearts_of_modding::cst::token::{Trivia, TriviaKind};
use hearts_of_modding::cst::types::{CstNode, CstScript};

fn lower_str(input: &str) -> (Script, Vec<(String, Range)>) {
    let (tokens, _) = tokenize(input);
    let cst = parse_cst(tokens);
    lower(cst, input)
}

fn text<'a>(span: &ByteSpan, script: &'a Script) -> &'a str {
    span.resolve(&script.source)
}

fn span_number(span: &ByteSpan, script: &Script) -> f64 {
    text(span, script).parse::<f64>().unwrap()
}

#[test]
fn lower_test_empty_input() {
    let (script, errors) = lower_str("");
    assert_eq!(script.entries.len(), 0, "empty input should have 0 entries");
    assert_eq!(errors.len(), 0, "empty input should have 0 errors");
}

#[test]
fn test_simple_assignment() {
    let (script, errors) = lower_str("key = val");
    assert_eq!(errors.len(), 0);
    assert_eq!(script.entries.len(), 1);
    match &script.entries[0] {
        Entry::Assignment(assign) => {
            assert_eq!(text(&assign.key, &script), "key");
            assert!(matches!(assign.operator, Operator::Equals));
            match &assign.value.value {
                Value::String(s) => assert_eq!(text(s, &script), "val"),
                other => panic!("Expected String value, got {:?}", other),
            }
        },
        other => panic!("Expected Assignment, got {:?}", other),
    }
}

#[test]
fn test_block_assignment() {
    let (script, errors) = lower_str("e = { id = 1 }");
    assert_eq!(errors.len(), 0);
    assert_eq!(script.entries.len(), 1);
    match &script.entries[0] {
        Entry::Assignment(assign) => {
            assert_eq!(text(&assign.key, &script), "e");
            match &assign.value.value {
                Value::Block(entries) => {
                    assert_eq!(entries.len(), 1);
                    match &entries[0] {
                        Entry::Assignment(inner) => {
                            assert_eq!(text(&inner.key, &script), "id");
                            match &inner.value.value {
                                Value::Number(n) => assert_eq!(span_number(n, &script), 1.0),
                                other => panic!("Expected Number, got {:?}", other),
                            }
                        },
                        other => panic!("Expected inner Assignment, got {:?}", other),
                    }
                },
                other => panic!("Expected Block, got {:?}", other),
            }
        },
        other => panic!("Expected Assignment, got {:?}", other),
    }
}

#[test]
fn test_tagged_block() {
    let (script, errors) = lower_str("modifier = my_tag { f = 0.5 }");
    assert_eq!(errors.len(), 0);
    assert_eq!(script.entries.len(), 1);
    match &script.entries[0] {
        Entry::Assignment(assign) => {
            assert_eq!(text(&assign.key, &script), "modifier");
            match &assign.value.value {
                Value::TaggedBlock(tag, entries, _range) => {
                    assert_eq!(text(tag, &script), "my_tag");
                    assert_eq!(entries.len(), 1);
                    match &entries[0] {
                        Entry::Assignment(inner) => {
                            assert_eq!(text(&inner.key, &script), "f");
                            match &inner.value.value {
                                Value::Number(n) => assert!((span_number(n, &script) - 0.5).abs() < 1e-10),
                                other => panic!("Expected Number, got {:?}", other),
                            }
                        },
                        other => panic!("Expected Assignment, got {:?}", other),
                    }
                },
                other => panic!("Expected TaggedBlock, got {:?}", other),
            }
        },
        other => panic!("Expected Assignment, got {:?}", other),
    }
}

#[test]
fn test_boolean_values() {
    let (script, errors) = lower_str("a = yes\nb = no");
    assert_eq!(errors.len(), 0);
    assert_eq!(script.entries.len(), 2);
    match &script.entries[0] {
        Entry::Assignment(a) => match &a.value.value {
            Value::Boolean(b) => assert!(*b, "expected true"),
            other => panic!("Expected Boolean, got {:?}", other),
        },
        other => panic!("Expected Assignment, got {:?}", other),
    }
    match &script.entries[1] {
        Entry::Assignment(b) => match &b.value.value {
            Value::Boolean(v) => assert!(!*v, "expected false"),
            other => panic!("Expected Boolean, got {:?}", other),
        },
        other => panic!("Expected Assignment, got {:?}", other),
    }
}

#[test]
fn test_string_value() {
    let (script, errors) = lower_str("a = \"hello\"");
    assert_eq!(errors.len(), 0);
    assert_eq!(script.entries.len(), 1);
    match &script.entries[0] {
        Entry::Assignment(a) => assert_eq!(a.value.value.as_str(&script.source), Some("hello")),
        other => panic!("Expected Assignment, got {:?}", other),
    }
}

#[test]
fn test_number_values() {
    let (script, errors) = lower_str("a = 42\nb = -0.15");
    assert_eq!(errors.len(), 0);
    assert_eq!(script.entries.len(), 2);
    match &script.entries[0] {
        Entry::Assignment(a) => match &a.value.value {
            Value::Number(n) => assert_eq!(span_number(n, &script), 42.0),
            other => panic!("Expected Number, got {:?}", other),
        },
        other => panic!("Expected Assignment, got {:?}", other),
    }
    match &script.entries[1] {
        Entry::Assignment(b) => match &b.value.value {
            Value::Number(n) => assert!((span_number(n, &script) - (-0.15)).abs() < 1e-10),
            other => panic!("Expected Number, got {:?}", other),
        },
        other => panic!("Expected Assignment, got {:?}", other),
    }
}

#[test]
fn test_special_idents() {
    let (script, errors) = lower_str("title = daw.2.t");
    assert_eq!(errors.len(), 0);
    assert_eq!(script.entries.len(), 1);
    match &script.entries[0] {
        Entry::Assignment(a) => {
            assert_eq!(text(&a.key, &script), "title");
            match &a.value.value {
                Value::String(s) => assert_eq!(text(s, &script), "daw.2.t"),
                other => panic!("Expected String, got {:?}", other),
            }
        },
        other => panic!("Expected Assignment, got {:?}", other),
    }
}

#[test]
fn lower_test_missing_close_brace() {
    let (script, errors) = lower_str("e = { id = 1");
    assert!(script.entries.len() >= 1, "expected at least one entry despite missing close brace");
    assert!(errors.len() >= 1, "expected diagnostic for missing close brace");
}

#[test]
fn test_multiple_entries() {
    let (script, errors) = lower_str("a = 1\nb = 2\nc = 3");
    assert_eq!(errors.len(), 0);
    assert_eq!(script.entries.len(), 3);
}

#[test]
fn test_bare_value() {
    let (script, errors) = lower_str("{ a = 1 }");
    assert_eq!(errors.len(), 0);
    assert_eq!(script.entries.len(), 1);
    match &script.entries[0] {
        Entry::Value(nodeed) => match &nodeed.value {
            Value::Block(entries) => {
                assert_eq!(entries.len(), 1);
                match &entries[0] {
                    Entry::Assignment(inner) => {
                        assert_eq!(text(&inner.key, &script), "a");
                        match &inner.value.value {
                            Value::Number(n) => assert_eq!(span_number(n, &script), 1.0),
                            other => panic!("Expected Number, got {:?}", other),
                        }
                    },
                    other => panic!("Expected Assignment, got {:?}", other),
                }
            },
            other => panic!("Expected Block, got {:?}", other),
        },
        other => panic!("Expected Value, got {:?}", other),
    }
}

#[test]
fn test_all_operators() {
    let cases = [
        ("a = 1", Operator::Equals),
        ("a < 1", Operator::LessThan),
        ("a > 1", Operator::GreaterThan),
        ("a != 1", Operator::NotEquals),
        ("a <= 1", Operator::LessOrEqual),
        ("a >= 1", Operator::GreaterOrEqual),
    ];
    for (input, expected_op) in &cases {
        let (script, errors) = lower_str(input);
        assert_eq!(errors.len(), 0, "input: {input}");
        assert_eq!(script.entries.len(), 1, "input: {input}");
        match &script.entries[0] {
            Entry::Assignment(assign) => {
                assert_eq!(text(&assign.key, &script), "a");
                assert_eq!(assign.operator, *expected_op, "input: {input}");
            },
            other => panic!("Expected Assignment, got {:?}", other),
        }
    }
}

#[test]
fn test_nested_blocks() {
    let (script, errors) = lower_str("a = { b = { c = 1 } }");
    assert_eq!(errors.len(), 0);
    assert_eq!(script.entries.len(), 1);
    let Entry::Assignment(a) = &script.entries[0] else { panic!("Expected Assignment") };
    let Value::Block(outer) = &a.value.value else { panic!("Expected Block") };
    assert_eq!(outer.len(), 1);
    let Entry::Assignment(b) = &outer[0] else { panic!("Expected Assignment") };
    let Value::Block(inner) = &b.value.value else { panic!("Expected Block") };
    assert_eq!(inner.len(), 1);
    let Entry::Assignment(c) = &inner[0] else { panic!("Expected Assignment") };
    assert_eq!(text(&c.key, &script), "c");
    match &c.value.value {
        Value::Number(n) => assert_eq!(span_number(n, &script), 1.0),
        other => panic!("Expected Number, got {:?}", other),
    }
}

/// Lowers one node against `source`.
fn lower_one(node: CstNode, source: &str) -> Script {
    let cst = CstScript { nodes: vec![node], diagnostics: Vec::new(), trailing_trivia: Vec::new() };
    lower(cst, source).0
}

#[test]
fn test_entry_comment() {
    let source = "#   a comment with extra spacing   ";
    let mut trivia = Trivia::new(
        TriviaKind::Comment,
        source.to_string(),
        Range { start_line: 0, start_col: 0, end_line: 0, end_col: 1 },
    );
    trivia.byte_range = TextRange::new(0, source.len());
    let script = lower_one(CstNode::EntryComment(trivia), source);
    match &script.entries[..] {
        [Entry::Comment(span, range)] => {
            assert_eq!(text(span, &script), "   a comment with extra spacing   ");
            assert_eq!(range.start_line, 0);
        },
        other => panic!("Expected Comment entry, got {:?}", other),
    }
}

#[test]
fn test_entry_comment_minimal() {
    let source = "#comment";
    let mut trivia = Trivia::new(
        TriviaKind::Comment,
        source.to_string(),
        Range { start_line: 1, start_col: 0, end_line: 1, end_col: 8 },
    );
    trivia.byte_range = TextRange::new(0, source.len());
    let script = lower_one(CstNode::EntryComment(trivia), source);
    match &script.entries[..] {
        [Entry::Comment(span, range)] => {
            assert_eq!(text(span, &script), "comment");
            assert_eq!(range.start_line, 1);
        },
        other => panic!("Expected Comment entry, got {:?}", other),
    }
}

#[test]
fn test_error_node_skipped() {
    let diag = CstDiagnostic::error(
        "test error".to_string(),
        Range { start_line: 0, start_col: 0, end_line: 0, end_col: 0 },
    );
    let script = lower_one(CstNode::Error(diag), "");
    assert!(script.entries.is_empty(), "Error node should be skipped");
}

// ---------------------------------------------------------------------------
// Ranges, unclosed blocks and diagnostics
// ---------------------------------------------------------------------------

#[test]
fn lower_block_range_spans_open_to_close() {
    let (script, _) = lower_str("a = {\n b = 1\n}");
    let Entry::Assignment(a) = &script.entries[0] else { panic!("Expected Assignment") };
    let r = a.value.range;
    assert_eq!((r.start_line, r.start_col, r.end_line, r.end_col), (0, 4, 2, 1));
    assert!(!script.closed_by_eof);
}

#[test]
fn lower_unclosed_block_marks_closed_by_eof() {
    let (script, errors) = lower_str("a = { b = 1");
    assert!(script.closed_by_eof);
    assert_eq!(errors.len(), 1);
    assert_eq!(errors[0].0, "Expected '}' to close block opened at line:0");
}

#[test]
fn lower_comment_entry_from_script() {
    let (script, _) = lower_str("# hello\nx = 1");
    assert_eq!(script.entries.len(), 2);
    match &script.entries[0] {
        Entry::Comment(span, _) => assert_eq!(text(span, &script), " hello"),
        other => panic!("Expected Comment, got {:?}", other),
    }
}

#[test]
fn diagnostic_with_fix_keeps_message_and_adds_fix() {
    let range = Range { start_line: 2, start_col: 1, end_line: 2, end_col: 4 };
    let d = CstDiagnostic::warning("odd".to_string(), range).with_fix("even".to_string());
    assert_eq!(d.message, "odd");
    assert_eq!(d.range, range);
    assert_eq!(d.severity, hearts_of_modding::cst::diagnostic::Severity::Warning);
    assert_eq!(d.fix.as_deref(), Some("even"));
}

#[test]
fn default_script_is_empty() {
    let s = Script::default();
    assert!(s.source.is_empty());
    assert!(s.entries.is_empty());
    assert!(!s.closed_by_eof);
}
