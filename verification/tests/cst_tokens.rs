//! A parse that reports nothing keeps every input token and every piece of
//! trivia: the comments in order, and the tokens with the other trivia in
//! order.

use hearts_of_modding::cst::lexer::tokenize;
use hearts_of_modding::cst::parser::parse_cst;
use hearts_of_modding::cst::token::{CstToken, Trivia, TriviaKind};
use hearts_of_modding::cst::types::{CloseBrace, CstBlock, CstNode, CstValue};

fn value_texts(v: &CstValue, out: &mut Vec<String>) {
    match v {
        CstValue::Ident(t) | CstValue::String(t) | CstValue::Number(t) | CstValue::Boolean(t) => {
            out.push(t.text.clone())
        }
        CstValue::Block(b) => block_texts(b, out),
        CstValue::TaggedBlock { tag, block } => {
            out.push(tag.text.clone());
            block_texts(block, out);
        }
        CstValue::Error(_) => {}
    }
}

fn block_texts(b: &CstBlock, out: &mut Vec<String>) {
    out.push(b.open_brace.text.clone());
    nodes_texts(&b.entries, out);
    if let CloseBrace::Present(t) = &b.close_brace {
        out.push(t.text.clone());
    }
}

fn nodes_texts(ns: &[CstNode], out: &mut Vec<String>) {
    for n in ns {
        match n {
            CstNode::Assignment(a) => {
                out.push(a.key.text.clone());
                out.push(a.operator.text.clone());
                value_texts(&a.value, out);
            }
            CstNode::EntryValue(e) => value_texts(&e.value, out),
            _ => {}
        }
    }
}

fn input_texts(tokens: &[CstToken]) -> Vec<String> {
    tokens[..tokens.len() - 1].iter().map(|t| t.text.clone()).collect()
}

#[test]
fn clean_parse_keeps_token_order() {
    let input = "# header\nfocus = { id = a cost >= 5 prerequisite = { focus = b } }\nx y \"z\" tag { 1 2 }\n";
    let (tokens, _) = tokenize(input);
    let expected = input_texts(&tokens);
    let script = parse_cst(tokens);
    assert!(script.diagnostics.is_empty());
    let mut got = Vec::new();
    nodes_texts(&script.nodes, &mut got);
    assert_eq!(got, expected);
    assert_eq!(got.first().map(String::as_str), Some("focus"));
    assert_eq!(got.last().map(String::as_str), Some("}"));
}

#[test]
fn unclosed_block_is_reported_not_silent() {
    let (tokens, _) = tokenize("a = { b = c");
    let script = parse_cst(tokens);
    assert_eq!(script.diagnostics.len(), 1);
}

/// The comments and the other pieces (trivia texts and token texts) of a
/// token, in order.
fn token_pieces(t: &CstToken, comments: &mut Vec<String>, layout: &mut Vec<String>) {
    trivia_pieces(&t.leading_trivia, comments, layout);
    layout.push(t.text.clone());
}

fn trivia_pieces(tr: &[Trivia], comments: &mut Vec<String>, layout: &mut Vec<String>) {
    for x in tr {
        if x.kind == TriviaKind::Comment {
            comments.push(x.text.clone());
        } else {
            layout.push(x.text.clone());
        }
    }
}

fn value_pieces(v: &CstValue, c: &mut Vec<String>, l: &mut Vec<String>) {
    match v {
        CstValue::Ident(t) | CstValue::String(t) | CstValue::Number(t) | CstValue::Boolean(t) => {
            token_pieces(t, c, l)
        }
        CstValue::Block(b) => block_pieces(b, c, l),
        CstValue::TaggedBlock { tag, block } => {
            token_pieces(tag, c, l);
            block_pieces(block, c, l);
        }
        CstValue::Error(_) => {}
    }
}

fn block_pieces(b: &CstBlock, c: &mut Vec<String>, l: &mut Vec<String>) {
    token_pieces(&b.open_brace, c, l);
    nodes_pieces(&b.entries, c, l);
    if let CloseBrace::Present(t) = &b.close_brace {
        token_pieces(t, c, l);
    }
}

fn nodes_pieces(ns: &[CstNode], c: &mut Vec<String>, l: &mut Vec<String>) {
    for n in ns {
        match n {
            CstNode::Assignment(a) => {
                token_pieces(&a.key, c, l);
                token_pieces(&a.operator, c, l);
                value_pieces(&a.value, c, l);
            }
            CstNode::EntryValue(e) => value_pieces(&e.value, c, l),
            CstNode::EntryComment(t) => c.push(t.text.clone()),
            CstNode::Error(_) => {}
        }
    }
}

#[test]
fn clean_parse_keeps_comments_and_layout() {
    let input = "# top\n  a = { # inside\n b = c # after c\n } # after block\nx # before eof\n";
    let (tokens, _) = tokenize(input);
    let mut want_c = Vec::new();
    let mut want_l = Vec::new();
    for t in &tokens[..tokens.len() - 1] {
        token_pieces(t, &mut want_c, &mut want_l);
    }
    trivia_pieces(&tokens[tokens.len() - 1].leading_trivia, &mut want_c, &mut want_l);
    let script = parse_cst(tokens);
    assert!(script.diagnostics.is_empty());
    let mut got_c = Vec::new();
    let mut got_l = Vec::new();
    nodes_pieces(&script.nodes, &mut got_c, &mut got_l);
    trivia_pieces(&script.trailing_trivia, &mut got_c, &mut got_l);
    assert_eq!(got_c, want_c);
    assert_eq!(got_l, want_l);
    assert_eq!(got_c, vec!["# top", "# inside", "# after c", "# after block", "# before eof"]);
    let text: String = got_l.concat();
    assert_eq!(text, "\n  a = { \n b = c \n } \nx \n");
}
