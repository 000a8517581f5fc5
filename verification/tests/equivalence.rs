//! Compares the CST pipeline (tokenize, parse_cst, lower) with the script
//! parser: both must give the same abstract syntax tree.

use hearts_of_modding::ast::{Entry, Range, Script, Value};
use hearts_of_modding::cst::lower::parse_and_lower;
use hearts_of_modding::script::parse_script;

fn parse_new(input: &str) -> (Script, Vec<(String, Range)>) {
    parse_and_lower(input)
}

fn parse_old(input: &str) -> (Script, Vec<(String, Range)>) {
    parse_script(input)
}

fn number_of(span: &hearts_of_modding::ast::ByteSpan, source: &str) -> f64 {
    span.resolve(source).parse::<f64>().unwrap()
}

fn entries_eq(old: &Entry, new: &Entry, old_src: &str, new_src: &str, input: &str) {
    match (old, new) {
        (Entry::Assignment(oa), Entry::Assignment(na)) => {
            assert_eq!(oa.key, na.key, "assignment key mismatch for {:?}", input);
            assert_eq!(oa.operator, na.operator, "operator mismatch for {:?}", input);
            values_eq(&oa.value.value, &na.value.value, old_src, new_src, input);
        }
        (Entry::Value(ov), Entry::Value(nv)) => {
            values_eq(&ov.value, &nv.value, old_src, new_src, input);
        }
        (Entry::Comment(ot, _), Entry::Comment(nt, _)) => {
            assert_eq!(ot, nt, "comment text mismatch for {:?}", input);
        }
        (o, n) => panic!("entry type mismatch for {:?}: {:?} vs {:?}", input, o, n),
    }
}

fn values_eq(old: &Value, new: &Value, old_src: &str, new_src: &str, input: &str) {
    match (old, new) {
        (Value::String(os), Value::String(ns)) => {
            assert_eq!(os, ns, "String value mismatch for {:?}", input);
        }
        (Value::QuotedString(os), Value::QuotedString(ns)) => {
            assert_eq!(os, ns, "QuotedString value mismatch for {:?}", input);
        }
        (Value::Number(on), Value::Number(nn)) => {
            let a = number_of(on, old_src);
            let b = number_of(nn, new_src);
            assert!((a - b).abs() < f64::EPSILON, "Number value mismatch for {:?}: {} vs {}", input, a, b);
        }
        (Value::Boolean(ob), Value::Boolean(nb)) => {
            assert_eq!(ob, nb, "Boolean value mismatch for {:?}", input);
        }
        (Value::Block(ob), Value::Block(nb)) => {
            assert_eq!(ob.len(), nb.len(), "Block child count mismatch for {:?}", input);
            for (o, n) in ob.iter().zip(nb.iter()) {
                entries_eq(o, n, old_src, new_src, input);
            }
        }
        (Value::TaggedBlock(ot, ob, _), Value::TaggedBlock(nt, nb, _)) => {
            assert_eq!(ot, nt, "TaggedBlock tag mismatch for {:?}", input);
            assert_eq!(ob.len(), nb.len(), "TaggedBlock child count mismatch for {:?}", input);
            for (o, n) in ob.iter().zip(nb.iter()) {
                entries_eq(o, n, old_src, new_src, input);
            }
        }
        (o, n) => panic!("Value type mismatch for {:?}: {:?} vs {:?}", input, o, n),
    }
}

/// The CST pipeline and the script parser give the same tree, and every
/// error message of the script parser is among those of the pipeline.
fn assert_ast_equivalent(input: &str) {
    let (old_script, old_errors) = parse_old(input);
    let (new_script, new_errors) = parse_new(input);
    assert_eq!(
        old_script.entries.len(),
        new_script.entries.len(),
        "Entry count mismatch for: {:?}\nOld entries: {:#?}\nNew entries: {:#?}",
        input,
        old_script.entries,
        new_script.entries
    );
    for (old, new) in old_script.entries.iter().zip(new_script.entries.iter()) {
        entries_eq(old, new, &old_script.source, &new_script.source, input);
    }
    for (old_msg, _old_range) in &old_errors {
        let found = new_errors.iter().any(|(m, _)| m == old_msg);
        assert!(found, "Direct-parser error not found among token-parser errors: {:?}\nToken-parser errors: {:?}\nInput: {:?}", old_msg, new_errors, input);
    }
}

#[test]
fn test_parse_basic_from_old_parser() {
    let input = r#"
        # This is a test HOI4 script
        country_event = {
            id = test.1
            is_triggered_only = yes
            trigger = {
                tag = GER
                has_war = no
            }
        }
        "#;
    assert_ast_equivalent(input);
}

#[test]
fn test_parse_complex_from_old_parser() {
    let input = r#"
        modifier = {
            political_power_factor = 0.15
            stability_factor > -0.1
            tag != "ENG"
            [?my_var] = 10
            array^0 = 1
        }
        "#;
    assert_ast_equivalent(input);
}

#[test]
fn equiv_empty() {
    assert_ast_equivalent("");
}

#[test]
fn equiv_whitespace_only() {
    assert_ast_equivalent("  \n  ");
}

#[test]
fn equiv_simple_assignment() {
    assert_ast_equivalent("key = val");
}

#[test]
fn equiv_number_assignment() {
    assert_ast_equivalent("x = 42");
}

#[test]
fn equiv_negative_number() {
    assert_ast_equivalent("x = -42");
}

#[test]
fn equiv_float_assignment() {
    assert_ast_equivalent("x = 3.14");
}

#[test]
fn equiv_string_assignment() {
    assert_ast_equivalent(r#"x = "hello""#);
}

#[test]
fn equiv_boolean_yes() {
    assert_ast_equivalent("x = yes");
}

#[test]
fn equiv_boolean_no() {
    assert_ast_equivalent("x = no");
}

#[test]
fn equiv_op_equals() {
    assert_ast_equivalent("a = 1");
}

#[test]
fn equiv_op_less_than() {
    assert_ast_equivalent("a < 1");
}

#[test]
fn equiv_op_greater_than() {
    assert_ast_equivalent("a > 1");
}

#[test]
fn equiv_op_not_equals() {
    assert_ast_equivalent("a != 1");
}

#[test]
fn equiv_op_less_or_equal() {
    assert_ast_equivalent("a <= 1");
}

#[test]
fn equiv_op_greater_or_equal() {
    assert_ast_equivalent("a >= 1");
}

#[test]
fn equiv_empty_block() {
    assert_ast_equivalent("x = { }");
}

#[test]
fn equiv_block_one_entry() {
    assert_ast_equivalent("e = { id = 1 }");
}

#[test]
fn equiv_nested_blocks() {
    assert_ast_equivalent("a = { b = { c = 1 } }");
}

#[test]
fn equiv_bare_block() {
    assert_ast_equivalent("{ key = val }");
}

#[test]
fn equiv_tagged_block() {
    assert_ast_equivalent("modifier = my_tag { f = 0.5 }");
}

#[test]
fn equiv_bare_tagged_block() {
    assert_ast_equivalent("my_tag { }");
}

#[test]
fn equiv_two_assignments() {
    assert_ast_equivalent("a = 1\nb = 2");
}

#[test]
fn equiv_three_assignments() {
    assert_ast_equivalent("a = 1\nb = 2\nc = 3");
}

#[test]
fn equiv_dots_in_value() {
    assert_ast_equivalent("title = daw.2.t");
}

#[test]
fn equiv_pipe_in_value() {
    assert_ast_equivalent("custom_effect_tooltip = tech_effect|sp_main");
}

#[test]
fn equiv_special_key() {
    assert_ast_equivalent("[?my_var] = 10");
}

#[test]
fn equiv_escaped_quotes() {
    assert_ast_equivalent(r#"title = "Event \"The Great War\" Begins""#);
}

#[test]
fn equiv_plain_string() {
    assert_ast_equivalent(r#"title = "plain text""#);
}

#[test]
fn equiv_comment_only() {
    assert_ast_equivalent("# just a comment");
}

#[test]
fn equiv_comment_before_entry() {
    assert_ast_equivalent("# This is a test HOI4 script\ncountry_event = { }");
}

#[test]
fn equiv_comment_between_entries() {
    assert_ast_equivalent("a = 1\n# comment between\nb = 2");
}

#[test]
fn equiv_comment_after_entry() {
    assert_ast_equivalent("a = 1\n# trailing comment");
}

#[test]
fn equiv_multiple_comments() {
    assert_ast_equivalent("# first\n# second\nkey = val");
}

#[test]
fn equiv_comment_at_eof() {
    assert_ast_equivalent("key = val\n# comment at end");
}

#[test]
fn equiv_comment_after_block() {
    assert_ast_equivalent("a = { }\n# comment after block");
}

#[test]
fn equiv_comment_with_spaces() {
    assert_ast_equivalent("#   spaced out comment   ");
}

#[test]
fn equiv_comments_and_operators() {
    assert_ast_equivalent("# comment\na < 1\n# another\nb = 2");
}

#[test]
fn test_extra_close_brace() {
    let (old_script, _old_errors) = parse_old("x = { } }");
    let (new_script, _new_errors) = parse_new("x = { } }");
    assert_eq!(old_script.entries.len(), new_script.entries.len(), "Entry count mismatch for extra close brace");
    for (old, new) in old_script.entries.iter().zip(new_script.entries.iter()) {
        entries_eq(old, new, &old_script.source, &new_script.source, "x = { } }");
    }
}

#[test]
fn equivalence_test_missing_close_brace() {
    let (old_script, _old_errors) = parse_old("e = { id = 1");
    let (new_script, new_errors) = parse_new("e = { id = 1");
    assert!(old_script.entries.len() >= 1, "direct parser should produce at least 1 entry");
    assert!(new_script.entries.len() >= 1, "token parser should produce at least 1 entry");
    assert!(!new_errors.is_empty(), "expected diagnostic for missing close brace");
}
