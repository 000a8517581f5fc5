//! Tokenizer tests: token kinds, trivia, texts and byte ranges.

use hearts_of_modding::cst::diagnostic::{CstDiagnostic, TextRange};
use hearts_of_modding::cst::lexer::tokenize;
use hearts_of_modding::cst::token::{CstToken, TokenKind, TriviaKind};

fn kinds(tokens: &[CstToken]) -> Vec<&TokenKind> {
    tokens.iter().map(|t| &t.kind).collect()
}

fn diag_msgs(diags: &[CstDiagnostic]) -> Vec<&str> {
    diags.iter().map(|d| d.message.as_str()).collect()
}

fn trivia_kinds(tok: &CstToken) -> Vec<&TriviaKind> {
    tok.leading_trivia.iter().map(|t| &t.kind).collect()
}

/// A number token's value: its text read as a float.
fn token_number(tok: &CstToken) -> f64 {
    assert_eq!(tok.kind, TokenKind::Number, "expected a number, got {:?}", tok.kind);
    tok.text.parse::<f64>().unwrap()
}

#[test]
fn lexer_test_empty_input() {
    let (tokens, diags) = tokenize("");
    assert!(diags.is_empty());
    assert_eq!(tokens.len(), 1);
    assert_eq!(tokens[0].kind, TokenKind::Eof);
}

#[test]
fn test_whitespace_only() {
    let (tokens, diags) = tokenize("  \n  ");
    assert!(diags.is_empty());
    assert_eq!(tokens.len(), 1);
    assert_eq!(tokens[0].kind, TokenKind::Eof);
    assert_eq!(trivia_kinds(&tokens[0]), &[&TriviaKind::Whitespace, &TriviaKind::Newline, &TriviaKind::Whitespace]);
}

#[test]
fn test_basic_tokens() {
    let (tokens, diags) = tokenize("{}");
    assert!(diags.is_empty());
    assert_eq!(kinds(&tokens), &[&TokenKind::OpenBrace, &TokenKind::CloseBrace, &TokenKind::Eof]);
}

#[test]
fn test_operators() {
    let (tokens, diags) = tokenize("= < > <= >= !=");
    assert!(diags.is_empty());
    assert_eq!(
        kinds(&tokens),
        &[
            &TokenKind::OpEquals,
            &TokenKind::OpLessThan,
            &TokenKind::OpGreaterThan,
            &TokenKind::OpLessOrEqual,
            &TokenKind::OpGreaterOrEqual,
            &TokenKind::OpNotEquals,
            &TokenKind::Eof,
        ]
    );
}

#[test]
fn test_identifiers() {
    let (tokens, diags) = tokenize("hello world.test[?var] array^0");
    assert!(diags.is_empty());
    assert_eq!(
        kinds(&tokens),
        &[
            &TokenKind::Ident("hello".into()),
            &TokenKind::Ident("world.test[?var]".into()),
            &TokenKind::Ident("array^0".into()),
            &TokenKind::Eof,
        ]
    );
}

#[test]
fn test_pipe_in_ident() {
    let (tokens, diags) = tokenize("tech_effect|sp_main");
    assert!(diags.is_empty());
    assert_eq!(kinds(&tokens), &[&TokenKind::Ident("tech_effect|sp_main".into()), &TokenKind::Eof]);
}

#[test]
fn test_quoted_strings() {
    let (tokens, diags) = tokenize("\"hello world\"");
    assert!(diags.is_empty());
    assert_eq!(kinds(&tokens), &[&TokenKind::String("hello world".into()), &TokenKind::Eof]);
}

#[test]
fn test_escaped_quotes() {
    let (tokens, diags) = tokenize("\"say \\\"hi\\\"\"");
    assert!(diags.is_empty());
    assert_eq!(tokens.len(), 2);
    match &tokens[0].kind {
        TokenKind::String(s) => assert_eq!(s, "say \"hi\""),
        other => panic!("expected String, got {:?}", other),
    }
}

#[test]
fn test_unterminated_string() {
    let (tokens, diags) = tokenize("\"hello");
    assert_eq!(diags.len(), 1);
    assert_eq!(diag_msgs(&diags)[0], "Unterminated string literal");
    assert_eq!(tokens.len(), 2);
    match &tokens[0].kind {
        TokenKind::String(s) => assert_eq!(s, "hello"),
        other => panic!("expected String, got {:?}", other),
    }
    assert_eq!(tokens[1].kind, TokenKind::Eof);
}

#[test]
fn test_numbers() {
    let (tokens, diags) = tokenize("42 -0.15 .5");
    assert!(diags.is_empty());
    assert_eq!(tokens.len(), 4);
    assert_eq!(token_number(&tokens[0]), 42.0);
    assert_eq!(token_number(&tokens[1]), -0.15);
    assert_eq!(token_number(&tokens[2]), 0.5);
    assert_eq!(tokens[3].kind, TokenKind::Eof);
}

#[test]
fn test_number_boundary() {
    let (tokens, diags) = tokenize("42abc");
    assert!(diags.is_empty());
    assert_eq!(kinds(&tokens), &[&TokenKind::Ident("42abc".into()), &TokenKind::Eof]);
}

#[test]
fn test_number_with_percent() {
    let (tokens, diags) = tokenize("0.5%");
    assert!(diags.is_empty());
    assert_eq!(tokens.len(), 3);
    assert_eq!(token_number(&tokens[0]), 0.5);
    assert_eq!(tokens[1].kind, TokenKind::Ident("%".into()));
    assert_eq!(tokens[2].kind, TokenKind::Eof);
}

#[test]
fn test_comments() {
    let (tokens, diags) = tokenize("# comment\nkey = val");
    assert!(diags.is_empty());
    assert!(tokens.len() >= 4);
    let first_content = &tokens[0];
    assert_eq!(first_content.kind, TokenKind::Ident("key".into()));
    assert_eq!(trivia_kinds(first_content), &[&TriviaKind::Comment, &TriviaKind::Newline]);
    assert_eq!(first_content.leading_trivia[0].text, "# comment");
    assert_eq!(tokens[1].kind, TokenKind::OpEquals);
    assert_eq!(tokens[2].kind, TokenKind::Ident("val".into()));
    assert_eq!(tokens[3].kind, TokenKind::Eof);
}

#[test]
fn lexer_test_bom_stripping() {
    let input = format!("\u{feff}key = val");
    let (tokens, diags) = tokenize(&input);
    assert!(diags.is_empty());
    assert_eq!(
        kinds(&tokens),
        &[&TokenKind::Ident("key".into()), &TokenKind::OpEquals, &TokenKind::Ident("val".into()), &TokenKind::Eof]
    );
}

#[test]
fn test_yes_no_as_ident() {
    let (tokens, diags) = tokenize("yes no");
    assert!(diags.is_empty());
    assert_eq!(kinds(&tokens), &[&TokenKind::Ident("yes".into()), &TokenKind::Ident("no".into()), &TokenKind::Eof]);
}

#[test]
fn test_utf8_multibyte() {
    let (tokens, diags) = tokenize("§test = 1");
    assert_eq!(diags.len(), 1);
    assert!(diag_msgs(&diags)[0].contains("Unexpected character"));
    assert_eq!(tokens.len(), 4);
    assert_eq!(tokens[0].kind, TokenKind::Ident("test".into()));
    assert_eq!(tokens[1].kind, TokenKind::OpEquals);
    assert_eq!(token_number(&tokens[2]), 1.0);
    assert_eq!(tokens[3].kind, TokenKind::Eof);
}

#[test]
fn test_text_field_preserves_source() {
    let (tokens, _) = tokenize("{ = \"hello\" 42 }");
    assert_eq!(tokens[0].text, "{");
    assert_eq!(tokens[1].text, "=");
    assert_eq!(tokens[2].text, "\"hello\"");
    assert_eq!(tokens[3].text, "42");
    assert_eq!(tokens[4].text, "}");
}

#[test]
fn test_byte_range() {
    let (tokens, _) = tokenize("ab {");
    assert_eq!(tokens[0].byte_range, TextRange::new(0, 2));
    assert_eq!(tokens[1].byte_range, TextRange::new(3, 4));
}

#[test]
fn test_comment_only() {
    let (tokens, diags) = tokenize("# just a comment");
    assert!(diags.is_empty());
    assert_eq!(tokens.len(), 1);
    assert_eq!(tokens[0].kind, TokenKind::Eof);
    assert_eq!(trivia_kinds(&tokens[0]), &[&TriviaKind::Comment]);
    assert_eq!(tokens[0].leading_trivia[0].text, "# just a comment");
}

#[test]
fn test_crlf_newline() {
    let (tokens, diags) = tokenize("a\r\nb");
    assert!(diags.is_empty());
    assert_eq!(kinds(&tokens), &[&TokenKind::Ident("a".into()), &TokenKind::Ident("b".into()), &TokenKind::Eof]);
    assert_eq!(tokens[1].leading_trivia.len(), 1);
    assert_eq!(tokens[1].leading_trivia[0].kind, TriviaKind::Newline);
    assert_eq!(tokens[1].leading_trivia[0].text, "\r\n");
}

// ---------------------------------------------------------------------------
// Positions, recovery and the end-of-file token
// ---------------------------------------------------------------------------

#[test]
fn lexer_ranges_count_lines_and_columns() {
    let (tokens, diags) = tokenize("a = 1\n  b");
    assert!(diags.is_empty());
    let b = &tokens[3];
    assert_eq!(b.kind, TokenKind::Ident("b".into()));
    assert_eq!((b.range.start_line, b.range.start_col, b.range.end_line, b.range.end_col), (1, 2, 1, 3));
    assert_eq!(b.byte_range, TextRange::new(8, 9));
}

#[test]
fn lexer_comment_columns_count_bytes() {
    let (tokens, _) = tokenize("#é\nx");
    let c = &tokens[0].leading_trivia[0];
    assert_eq!(c.kind, TriviaKind::Comment);
    assert_eq!(c.range.end_col, 3);
    assert_eq!(c.byte_range, TextRange::new(0, 3));
}

#[test]
fn lexer_lone_bang_is_reported_and_dropped() {
    let (tokens, diags) = tokenize("! x");
    assert_eq!(diags.len(), 1);
    assert_eq!(diags[0].message, "Unexpected character: '!'");
    assert_eq!(kinds(&tokens), &[&TokenKind::Ident("x".into()), &TokenKind::Eof]);
}

#[test]
fn lexer_eof_carries_trailing_trivia_and_end_offset() {
    let (tokens, _) = tokenize("a  # tail");
    let eof = tokens.last().unwrap();
    assert_eq!(eof.kind, TokenKind::Eof);
    assert_eq!(trivia_kinds(eof), &[&TriviaKind::Whitespace, &TriviaKind::Comment]);
    assert_eq!(eof.byte_range, TextRange::new(9, 9));
}

/// The tokens' trivia and texts, in order.
fn spelled(tokens: &[CstToken]) -> String {
    let mut s = String::new();
    for t in tokens {
        for tr in &t.leading_trivia {
            s.push_str(&tr.text);
        }
        s.push_str(&t.text);
    }
    s
}

#[test]
fn lexer_tokens_spell_input_with_unicode_outside_comments() {
    let input = "\u{feff}stadt_é = \"grüße\"\r\n# plain comment\n\tx = { 1 }";
    let (tokens, diags) = tokenize(input);
    assert!(diags.is_empty());
    assert_eq!(spelled(&tokens), &input['\u{feff}'.len_utf8()..]);
}

#[test]
fn lexer_unterminated_string_keeps_its_text() {
    let input = "a = \"open";
    let (tokens, diags) = tokenize(input);
    assert_eq!(diags.len(), 1);
    assert_eq!(spelled(&tokens), input);
}

#[test]
fn lexer_non_ascii_comment_text_is_source_text() {
    let input = "# naïve\nx";
    let (tokens, diags) = tokenize(input);
    assert!(diags.is_empty());
    assert_eq!(tokens[0].text, "x");
    assert_eq!(tokens[0].leading_trivia[0].kind, TriviaKind::Comment);
    assert_eq!(tokens[0].leading_trivia[0].text, "# naïve");
    assert_eq!(spelled(&tokens), input);
}

#[test]
fn a_leading_bom_only_moves_byte_offsets() {
    let plain = "key = \"v\" # c\n§x = 1\n";
    let marked = format!("\u{feff}{}", plain);
    let (a, da) = tokenize(&marked);
    let (b, db) = tokenize(plain);
    assert_eq!(a.len(), b.len());
    for (x, y) in a.iter().zip(b.iter()) {
        assert_eq!(x.kind, y.kind);
        assert_eq!(x.text, y.text);
        assert_eq!(x.range, y.range);
        assert_eq!(x.byte_range.start, y.byte_range.start + 3);
        assert_eq!(x.byte_range.end, y.byte_range.end + 3);
        assert_eq!(x.leading_trivia.len(), y.leading_trivia.len());
        for (s, t) in x.leading_trivia.iter().zip(y.leading_trivia.iter()) {
            assert_eq!(s.text, t.text);
            assert_eq!(s.byte_range.start, t.byte_range.start + 3);
        }
    }
    assert_eq!(diag_msgs(&da), diag_msgs(&db));
    assert_eq!(da.len(), 1);
    assert_eq!(da[0].range, db[0].range);
}
