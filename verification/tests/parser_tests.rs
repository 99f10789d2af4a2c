use marlowe_sexpr::lexer::lexer;
use marlowe_sexpr::main_parser::{
    identifier_with_lextok, parser_of_lextoks, positive_or_negative_number_lextok,
};
use marlowe_sexpr::types::{Diagnostic, LexToken, LexTokenType, SExpr, Span, Spanned};

fn show(e: &Spanned<SExpr>) -> String {
    let body = match &e.0 {
        SExpr::QuotedString(s) => format!("Str({})", s),
        SExpr::Number(n) => format!("Num({})", n),
        SExpr::List(items) => {
            let parts: Vec<String> = items.iter().map(show).collect();
            format!("List[{}]", parts.join(", "))
        }
        SExpr::Object(name, items) => {
            let parts: Vec<String> = items.iter().map(show).collect();
            format!("{}({})", name, parts.join(", "))
        }
        SExpr::Unexpected(tok) => format!("Unexpected({:?})", tok.kind),
    };
    format!("{}@{}..{}", body, e.1.start, e.1.end)
}

fn show_diag(d: &Diagnostic) -> String {
    let s = d.span();
    format!("{}@{}..{}", d.message(), s.start, s.end)
}

fn parse(input: &str) -> (Option<String>, Vec<String>) {
    let toks = lexer(input).unwrap();
    let (r, d) = parser_of_lextoks(&toks);
    (r.as_ref().map(show), d.iter().map(show_diag).collect())
}

fn tok(kind: LexTokenType, start: usize, end: usize) -> LexToken {
    LexToken { kind, span: Span::new(start, end) }
}

#[test]
fn parses_a_when_contract() {
    assert_eq!(
        parse("When [] 0 Close"),
        (
            Some("When(List[]@5..8, Num(0)@8..10, Close()@10..15)@0..15".to_string()),
            vec![]
        )
    );
}

#[test]
fn array_of_only_unexpected_tokens_is_empty() {
    assert_eq!(parse("[@ @]"), (Some("List[]@0..5".to_string()), vec![]));
}

#[test]
fn array_items_are_separated_by_commas() {
    assert_eq!(
        parse("[1, \"a\",, 2]"),
        (
            Some("List[Num(1)@1..2, Str(\"a\")@4..7, Num(2)@10..11]@0..0".to_string()),
            vec![]
        )
    );
}

#[test]
fn array_with_stray_token_before_close_skips_it() {
    assert_eq!(
        parse("[ Close @ ]"),
        (
            Some("List[Close()@2..8]@0..0".to_string()),
            vec!["skipped tokens that were not expected here@2..3".to_string()]
        )
    );
}

#[test]
fn array_item_that_fails_is_skipped() {
    assert_eq!(
        parse("[ @ Close ]"),
        (
            Some("List[]@0..0".to_string()),
            vec!["skipped tokens that were not expected here@1..3".to_string()]
        )
    );
    assert_eq!(
        parse("[ @ 1 ]"),
        (
            Some("List[Num(1)@4..6]@0..0".to_string()),
            vec!["skipped tokens that were not expected here@1..2".to_string()]
        )
    );
}

#[test]
fn array_with_trailing_comma_takes_the_bracket_as_item() {
    assert_eq!(
        parse("[1, 2,,3,]"),
        (
            None,
            vec!["This is crap@0..1".to_string(), "expected end of input@1..1".to_string()]
        )
    );
}

#[test]
fn lower_case_identifier_is_reported() {
    assert_eq!(
        parse("foo"),
        (Some("foo()@0..3".to_string()), vec!["Did you mean Foo?@0..3".to_string()])
    );
}

#[test]
fn invalid_identifier_characters_are_reported() {
    assert_eq!(
        parse("Cl-ose"),
        (
            Some("Cl-ose()@0..6".to_string()),
            vec!["Invalid character in identifier: -@0..6".to_string()]
        )
    );
}

#[test]
fn nothing_parses_at_the_start() {
    assert_eq!(parse("@"), (None, vec!["expected an s-expression@0..0".to_string()]));
}

#[test]
fn tokens_left_over_are_reported() {
    assert_eq!(parse("Close @"), (None, vec!["expected end of input@1..1".to_string()]));
}

#[test]
fn wrapped_object_skips_to_its_closing_paren() {
    assert_eq!(
        parse("( When x @ )"),
        (
            Some("When(x()@7..9)@2..9".to_string()),
            vec![
                "Did you mean X?@7..9".to_string(),
                "skipped tokens that were not expected here@3..4".to_string()
            ]
        )
    );
}

#[test]
fn stray_punctuation_is_an_unexpected_expression() {
    assert_eq!(
        parse("When ]"),
        (
            Some("When(Unexpected(CloseBracket)@5..6)@0..6".to_string()),
            vec!["This is crap@5..6".to_string()]
        )
    );
}

#[test]
fn keywords_are_unexpected_expressions() {
    assert_eq!(
        parse("When é"),
        (
            Some("When(Unexpected(Keyword(\"é\"))@5..7)@0..7".to_string()),
            vec!["This is crap@5..7".to_string()]
        )
    );
}

#[test]
fn identifier_reader_trims_and_suggests() {
    let toks = vec![tok(LexTokenType::Identifier(" éa ".to_string()), 3, 9)];
    let (name, span, d) = identifier_with_lextok(&toks, 0).unwrap();
    assert_eq!(name, "éa");
    assert_eq!((span.start, span.end), (3, 9));
    assert_eq!(d.len(), 1);
    match &d[0] {
        Diagnostic::IdentifierCase { span, suggestion } => {
            assert_eq!((span.start, span.end), (3, 9));
            assert_eq!(suggestion, "Éa");
        }
        other => panic!("unexpected {:?}", other),
    }
    assert!(identifier_with_lextok(&toks, 1).is_none());
    let comma = vec![tok(LexTokenType::Comma, 0, 1)];
    assert!(identifier_with_lextok(&comma, 0).is_none());
}

#[test]
fn identifier_reader_reports_each_bad_character() {
    let toks = vec![tok(LexTokenType::Identifier("ab-c.d".to_string()), 0, 6)];
    let (name, _, d) = identifier_with_lextok(&toks, 0).unwrap();
    assert_eq!(name, "ab-c.d");
    let msgs: Vec<String> = d.iter().map(|x| x.message()).collect();
    assert_eq!(
        msgs,
        vec![
            "Did you mean Ab-c.d?",
            "Invalid character in identifier: -",
            "Invalid character in identifier: ."
        ]
    );
}

#[test]
fn number_reader_reads_only_numbers() {
    let toks = vec![
        tok(LexTokenType::Number("-3".to_string()), 0, 2),
        tok(LexTokenType::Comma, 2, 3),
    ];
    let n = positive_or_negative_number_lextok(&toks, 0).unwrap();
    assert_eq!(n.0, "-3");
    assert_eq!((n.1.start, n.1.end), (0, 2));
    assert!(positive_or_negative_number_lextok(&toks, 1).is_none());
    assert!(positive_or_negative_number_lextok(&toks, 2).is_none());
}

#[test]
fn no_tokens_is_no_expression() {
    let (r, d) = parser_of_lextoks(&vec![]);
    assert!(r.is_none());
    assert_eq!(d.iter().map(show_diag).collect::<Vec<_>>(), vec!["expected an s-expression@0..0"]);
}

#[test]
fn object_arguments_take_a_closing_bracket() {
    assert_eq!(
        parse("[ Close ]"),
        (
            None,
            vec!["This is crap@0..2".to_string(), "expected end of input@1..1".to_string()]
        )
    );
}

#[test]
fn identifier_reports_are_counted_and_on_the_token_span() {
    let toks = vec![tok(LexTokenType::Identifier("\tq-.é2 ".to_string()), 4, 12)];
    let (name, _, d) = identifier_with_lextok(&toks, 0).unwrap();
    assert_eq!(name, "q-.é2");
    assert_eq!(d.len(), 1 + 2);
    for x in &d {
        let s = x.span();
        assert_eq!((s.start, s.end), (4, 12));
    }
    let upper = vec![tok(LexTokenType::Identifier("Q2".to_string()), 0, 2)];
    assert!(identifier_with_lextok(&upper, 0).unwrap().2.is_empty());
}
