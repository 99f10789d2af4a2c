use marlowe_sexpr::ast::{sexpr_into_astnode, Contract};
use marlowe_sexpr::lexer::lexer;
use marlowe_sexpr::main_parser::parser_of_lextoks;
use marlowe_sexpr::types::{Diagnostic, SExpr, Span, Spanned};

fn show_diag(d: &Diagnostic) -> String {
    let s = d.span();
    format!("{}@{}..{}", d.message(), s.start, s.end)
}

fn read(input: &str) -> (Option<(Contract, usize, usize)>, Vec<String>) {
    let toks = lexer(input).unwrap();
    let (e, d) = parser_of_lextoks(&toks);
    assert!(d.is_empty(), "parser reported {:?}", d);
    let (c, d) = sexpr_into_astnode(&e.unwrap());
    (c.map(|c| (c.0, c.1.start, c.1.end)), d.iter().map(show_diag).collect())
}

fn when(c: Contract) -> Contract {
    Contract::When { timeout_continuation: Box::new(c) }
}

fn obj(name: &str, args: Vec<Spanned<SExpr>>, start: usize, end: usize) -> Spanned<SExpr> {
    Spanned(SExpr::Object(name.to_string(), args), Span::new(start, end))
}

#[test]
fn reads_close() {
    assert_eq!(read("Close"), (Some((Contract::Close, 0, 5)), vec![]));
}

#[test]
fn reads_when_with_its_continuation() {
    assert_eq!(read("When [] 0 Close"), (Some((when(Contract::Close), 0, 15)), vec![]));
    assert_eq!(
        read("When [] 0 When [] 0 Close"),
        (Some((when(when(Contract::Close)), 0, 25)), vec![])
    );
}

#[test]
fn close_with_arguments_is_read_and_reported() {
    assert_eq!(
        read("Close 1"),
        (
            Some((Contract::Close, 0, 7)),
            vec!["The 'Close' does not expect any arguments.@0..7".to_string()]
        )
    );
}

#[test]
fn reports_of_the_continuation_are_kept() {
    let inner = obj(
        "Close",
        vec![Spanned(SExpr::Number("1".to_string()), Span::new(16, 17))],
        10,
        17,
    );
    let e = obj(
        "When",
        vec![
            Spanned(SExpr::List(vec![]), Span::new(5, 8)),
            Spanned(SExpr::Number("0".to_string()), Span::new(8, 10)),
            inner,
        ],
        0,
        17,
    );
    let (c, d) = sexpr_into_astnode(&e);
    let c = c.unwrap();
    assert_eq!(c.0, when(Contract::Close));
    assert_eq!((c.1.start, c.1.end), (0, 17));
    assert_eq!(
        d.iter().map(show_diag).collect::<Vec<_>>(),
        vec!["The 'Close' does not expect any arguments.@10..17"]
    );
}

#[test]
fn arguments_after_the_continuation_go_to_it() {
    assert_eq!(
        read("When [] 0 Close 5"),
        (
            Some((when(Contract::Close), 0, 17)),
            vec!["The 'Close' does not expect any arguments.@10..17".to_string()]
        )
    );
}

#[test]
fn when_with_a_bad_continuation_is_no_contract() {
    assert_eq!(read("When [] 0 Foo"), (None, vec!["naww..@0..13".to_string()]));
}

#[test]
fn when_needs_three_arguments() {
    assert_eq!(
        read("When [] 0 [] 5"),
        (None, vec!["Expected 'When' contract with three arguments or 'Close'@0..14".to_string()])
    );
    assert_eq!(
        read("When 0 Close"),
        (None, vec!["Expected 'When' contract with three arguments or 'Close'@0..12".to_string()])
    );
}

#[test]
fn other_names_and_forms_are_no_contract() {
    assert_eq!(
        read("Foo"),
        (None, vec!["Expected 'When' contract with three arguments or 'Close'@0..3".to_string()])
    );
    let (c, d) = sexpr_into_astnode(&Spanned(SExpr::Number("3".to_string()), Span::new(2, 4)));
    assert!(c.is_none());
    assert_eq!(
        d.iter().map(show_diag).collect::<Vec<_>>(),
        vec!["Expected 'When' contract with three arguments or 'Close'@2..4"]
    );
}

#[test]
fn contract_text_reads_back() {
    let c = when(when(when(Contract::Close)));
    let text = "When [] 0 When [] 0 When [] 0 Close";
    let (r, d) = read(text);
    assert_eq!(r.map(|x| x.0), Some(c));
    assert!(d.is_empty());
}

#[test]
fn every_failure_is_reported() {
    for input in ["", "   ", "@", "Close @", "[1, 2,,3,]", "Foo", "When [] 0 Foo", "7"] {
        let toks = match lexer(input) {
            Ok(t) => t,
            Err(e) => {
                assert!(!show_diag(&e).is_empty());
                continue;
            }
        };
        let (e, d1) = parser_of_lextoks(&toks);
        match e {
            None => assert!(!d1.is_empty(), "silent parse failure on {:?}", input),
            Some(e) => {
                let (c, d2) = sexpr_into_astnode(&e);
                if c.is_none() {
                    assert!(!d2.is_empty(), "silent read failure on {:?}", input);
                }
            }
        }
    }
}
