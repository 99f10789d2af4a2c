use marlowe_sexpr::lexer::{identifier, lexer, positive_or_negative_number, quoted_string};
use marlowe_sexpr::types::{Diagnostic, LexToken, LexTokenType, Span};

fn kinds(input: &str) -> Vec<String> {
    lexer(input)
        .unwrap()
        .iter()
        .map(|t| format!("{:?}", t.kind))
        .collect()
}

fn spans(input: &str) -> Vec<(usize, usize)> {
    lexer(input)
        .unwrap()
        .iter()
        .map(|t| (t.span.start, t.span.end))
        .collect()
}

fn chars(s: &str) -> Vec<char> {
    s.chars().collect()
}

#[test]
fn lexes_a_when_contract() {
    assert_eq!(
        kinds("When [] 0 Close"),
        vec![
            "Identifier(\"When\")",
            "OpenBracket",
            "CloseBracket",
            "Number(\"0\")",
            "Identifier(\"Close\")"
        ]
    );
    assert_eq!(spans("When [] 0 Close"), vec![(0, 5), (5, 6), (6, 8), (8, 10), (10, 15)]);
}

#[test]
fn identifier_runs_to_the_next_space() {
    assert_eq!(kinds("Close)"), vec!["Identifier(\"Close)\")"]);
    assert_eq!(
        kinds("Close\nWhen x"),
        vec!["Identifier(\"Close\\nWhen\")", "Identifier(\"x\")"]
    );
}

#[test]
fn numbers_are_integers_without_leading_zeros() {
    assert_eq!(
        kinds("-12 007"),
        vec!["Number(\"-12\")", "Number(\"0\")", "Number(\"0\")", "Number(\"7\")"]
    );
    assert_eq!(spans("-12 007"), vec![(0, 4), (4, 5), (5, 6), (6, 7)]);
    assert_eq!(kinds("- x"), vec!["Unexpected('-')", "Identifier(\"x\")"]);
}

#[test]
fn strings_keep_their_quotes() {
    assert_eq!(kinds("\"a b\""), vec!["String(\"\\\"a b\\\"\")"]);
    assert_eq!(kinds("\"ab"), vec!["Unexpected('\"')", "Identifier(\"ab\")"]);
    assert_eq!(
        kinds("\"a\\b\""),
        vec!["Unexpected('\"')", "Identifier(\"a\\\\b\\\"\")"]
    );
}

#[test]
fn keywords_start_with_non_ascii_letters() {
    assert_eq!(kinds("é x"), vec!["Keyword(\"é\")", "Identifier(\"x\")"]);
    assert_eq!(spans("é x"), vec![(0, 3), (3, 4)]);
    assert_eq!(kinds("_x"), vec!["Unexpected('_')", "Identifier(\"x\")"]);
    assert_eq!(kinds("λ2_b+"), vec!["Keyword(\"λ2_b\")", "Unexpected('+')"]);
}

#[test]
fn punctuation_is_one_token_each() {
    assert_eq!(kinds("(,)"), vec!["OpenParen", "Comma", "CloseParen"]);
    assert_eq!(kinds("@"), vec!["Unexpected('@')"]);
}

#[test]
fn blank_input_expects_a_token() {
    match lexer("  \n") {
        Err(Diagnostic::ExpectedToken { span }) => assert_eq!((span.start, span.end), (3, 3)),
        other => panic!("unexpected {:?}", other),
    }
    match lexer("\u{3000}") {
        Err(Diagnostic::ExpectedToken { span }) => assert_eq!((span.start, span.end), (3, 3)),
        other => panic!("unexpected {:?}", other),
    }
    assert_eq!(lexer("").unwrap().len(), 0);
}

#[test]
fn spans_count_bytes_and_surrounding_whitespace() {
    assert_eq!(spans("  Close"), vec![(0, 7)]);
    assert_eq!(spans("\u{3000}Close"), vec![(0, 8)]);
    assert_eq!(spans("\t[ ]\n"), vec![(0, 3), (3, 5)]);
}

#[test]
fn token_spans_tile_the_input() {
    let input = "When [ x, \"s\" ] -3 (Close) é";
    let toks: Vec<LexToken> = lexer(input).unwrap();
    assert_eq!(toks[0].span.start, 0);
    for w in toks.windows(2) {
        assert_eq!(w[0].span.end, w[1].span.start);
    }
    assert_eq!(toks.last().unwrap().span.end, input.len());
}

#[test]
fn recognizers_return_where_the_lexeme_ends() {
    let s = chars("-120 x");
    assert_eq!(positive_or_negative_number(&s, 0), Some(4));
    assert_eq!(positive_or_negative_number(&s, 5), None);
    assert_eq!(positive_or_negative_number(&chars("0123"), 0), Some(1));
    assert_eq!(positive_or_negative_number(&chars("-"), 0), None);
    assert_eq!(quoted_string(&chars("\"ab\" c"), 0), Some(4));
    assert_eq!(quoted_string(&chars("\"a\\b\""), 0), None);
    assert_eq!(quoted_string(&chars("\"ab"), 0), None);
    assert_eq!(identifier(&chars("Close) x"), 0), Some(6));
    assert_eq!(identifier(&chars("9abc"), 0), None);
}

#[test]
fn token_kinds_compare_by_debug_form() {
    let t = LexToken { kind: LexTokenType::Comma, span: Span::new(1, 2) };
    assert_eq!(format!("{:?}", t), "LexToken { kind: Comma, span: Span { start: 1, end: 2 } }");
}

fn kind_text(k: &LexTokenType) -> String {
    match k {
        LexTokenType::Identifier(x)
        | LexTokenType::Keyword(x)
        | LexTokenType::Number(x)
        | LexTokenType::String(x) => x.clone(),
        LexTokenType::OpenParen => "(".to_string(),
        LexTokenType::CloseParen => ")".to_string(),
        LexTokenType::OpenBracket => "[".to_string(),
        LexTokenType::CloseBracket => "]".to_string(),
        LexTokenType::Comma => ",".to_string(),
        LexTokenType::Unexpected(c) => c.to_string(),
    }
}

#[test]
fn tokens_read_back_from_their_spans() {
    let input = "  When [ x,\t\"s t\" ] -3 (Close)\n\u{3000}é @ 0";
    for t in lexer(input).unwrap() {
        let w = input[t.span.start..t.span.end].trim();
        assert_eq!(w, kind_text(&t.kind));
    }
}

#[test]
fn first_character_decides_the_kind() {
    let input = "a1 9 -4 - 5 x-y";
    for t in lexer(input).unwrap() {
        let w = input[t.span.start..t.span.end].trim();
        let c: Vec<char> = w.chars().collect();
        let starts_number = c[0].is_ascii_digit()
            || (c[0] == '-' && c.len() > 1 && c[1].is_ascii_digit());
        assert_eq!(matches!(t.kind, LexTokenType::Identifier(_)), c[0].is_ascii_alphabetic());
        assert_eq!(matches!(t.kind, LexTokenType::Number(_)), starts_number);
    }
    assert_eq!(
        kinds("a1 9 -4 - 5 x-y"),
        vec![
            "Identifier(\"a1\")",
            "Number(\"9\")",
            "Number(\"-4\")",
            "Unexpected('-')",
            "Number(\"5\")",
            "Identifier(\"x-y\")"
        ]
    );
}

#[test]
fn quoted_string_takes_a_whole_text() {
    assert_eq!(quoted_string(&chars("\"\""), 0), Some(2));
    assert_eq!(quoted_string(&chars("\"a b\""), 0), Some(5));
    assert_eq!(quoted_string(&chars("\"a\"b\""), 0), Some(3));
    assert_eq!(quoted_string(&chars("\""), 0), None);
    assert_eq!(quoted_string(&chars("x\"a\""), 1), Some(4));
}

#[test]
fn identifier_runs_to_a_space_or_the_end() {
    assert_eq!(identifier(&chars("Ab,c)\n"), 0), Some(6));
    assert_eq!(identifier(&chars("Ab c"), 0), Some(2));
    assert_eq!(identifier(&chars(" Ab"), 1), Some(3));
    assert_eq!(identifier(&chars("éb"), 0), None);
    assert_eq!(identifier(&chars("_b"), 0), None);
    assert_eq!(identifier(&chars(""), 0), None);
}

#[test]
fn number_takes_a_whole_text() {
    assert_eq!(positive_or_negative_number(&chars("-105"), 0), Some(4));
    assert_eq!(positive_or_negative_number(&chars("0"), 0), Some(1));
    assert_eq!(positive_or_negative_number(&chars("-0"), 0), Some(2));
    assert_eq!(positive_or_negative_number(&chars("05"), 0), Some(1));
    assert_eq!(positive_or_negative_number(&chars("12a"), 0), Some(2));
    assert_eq!(positive_or_negative_number(&chars("--1"), 0), None);
}
