//! Reading a contract out of an s-expression.
use crate::types::{
    diagnostics_view, lemma_diags_push, lemma_items_view_all, sexpr_view, spanned_view,
    Diagnostic, SExpr, Span, Spanned, SpecDiagnostic, SpecSExpr,
};
use crate::chars::is_ws;
use crate::lexer::{lemma_run_end, lex_from, lex_spec, lexeme, run_end, skip_ws, CharClass};
use crate::main_parser::{
    args_spec, array_spec, case_diags, char_diags, expr_spec, ident_spec, number_spec,
    object_spec, parse_spec, trim, trim_end, trim_start, unexpected_run_end, wrapped_spec,
    Parsed,
};
use crate::types::{SpecLexToken, SpecLexTokenType};
use vstd::prelude::*;

verus! {

/// The contracts that the reader builds. A `When` is read with no cases and no timeout:
/// only its continuation is kept.
#[derive(Debug, PartialEq, Eq)]
pub enum Contract {
    Close,
    When { timeout_continuation: Box<Contract> },
}

/// What the reader makes of an s-expression: a contract with the s-expression's span, or
/// none; and the reports. `Close` is read with any arguments, which are reported; `When`
/// needs exactly three arguments, the third of which must read as a contract (its reports
/// are kept); anything else is no contract.
pub open spec fn contract_spec(e: (SpecSExpr, Span)) -> (Option<(Contract, Span)>, Seq<SpecDiagnostic>)
    decreases e.0,
{
    match e.0 {
        SpecSExpr::Object(name, args) => {
            if name == "Close"@ {
                (
                    Some((Contract::Close, e.1)),
                    if args.len() > 0 {
                        seq![SpecDiagnostic::CloseWithArguments { span: e.1 }]
                    } else {
                        Seq::empty()
                    },
                )
            } else if name == "When"@ && args.len() == 3 {
                let (c, d) = contract_spec(args[2]);
                match c {
                    Some((cont, _)) => (
                        Some((Contract::When { timeout_continuation: Box::new(cont) }, e.1)),
                        d,
                    ),
                    None => (None, seq![SpecDiagnostic::InvalidContinuation { span: e.1 }]),
                }
            } else {
                (None, seq![SpecDiagnostic::NotAContract { span: e.1 }])
            }
        },
        _ => (None, seq![SpecDiagnostic::NotAContract { span: e.1 }]),
    }
}

/// Only objects named `Close` or `When` are contracts: a contract read from `e` has `e`'s
/// span, is `Close` only for an object named `Close`, and is a `When` only for an object
/// named `When` with exactly three arguments, whose third argument reads as its
/// continuation. An object named `Close` is always the `Close` contract, reported when it
/// has arguments. Anything else (an object with another name such as `Let`, `If` or `Pay`,
/// or no object at all) gives no contract and one report that it is none.
pub proof fn law_contracts_come_from_close_or_when(e: (SpecSExpr, Span))
    ensures
        contract_spec(e).0 is Some ==> (contract_spec(e).0->0).1 == e.1,
        match (contract_spec(e).0, e.0) {
            (Some((c, _)), SpecSExpr::Object(name, args)) => (c == Contract::Close && name
                == "Close"@) || (name == "When"@ && args.len() == 3 && contract_spec(args[2]).0 is Some
                && c == (Contract::When {
                timeout_continuation: Box::new((contract_spec(args[2]).0->0).0),
            })),
            (Some(_), _) => false,
            (None, _) => true,
        },
        (e.0 matches SpecSExpr::Object(name, _) && name != "Close"@ && name != "When"@)
            ==> contract_spec(e) == (
            None::<(Contract, Span)>,
            seq![SpecDiagnostic::NotAContract { span: e.1 }],
        ),
        match e.0 {
            SpecSExpr::Object(name, args) => name == "Close"@ ==> contract_spec(e) == (
                Some((Contract::Close, e.1)),
                if args.len() > 0 {
                    seq![SpecDiagnostic::CloseWithArguments { span: e.1 }]
                } else {
                    Seq::<SpecDiagnostic>::empty()
                },
            ),
            _ => true,
        },
        !(e.0 is Object) ==> contract_spec(e) == (
            None::<(Contract, Span)>,
            seq![SpecDiagnostic::NotAContract { span: e.1 }],
        ),
{
}

/// The model of the reader's result.
pub open spec fn contract_result_view(r: (Option<Spanned<Contract>>, Vec<Diagnostic>)) -> (
    Option<(Contract, Span)>,
    Seq<SpecDiagnostic>,
) {
    (
        match r.0 {
            Some(c) => Some((c.0, c.1)),
            None => None,
        },
        diagnostics_view(r.1@),
    )
}

fn one_diag(dg: Diagnostic) -> (r: Vec<Diagnostic>)
    ensures
        diagnostics_view(r@) == seq![dg@],
{
    let ghost g = dg;
    let mut d: Vec<Diagnostic> = Vec::new();
    d.push(dg);
    proof {
        lemma_diags_push(Seq::empty(), g);
        assert(Seq::<Diagnostic>::empty().push(g) == d@);
        assert(diagnostics_view(Seq::empty()) =~= Seq::<SpecDiagnostic>::empty());
        assert(Seq::<SpecDiagnostic>::empty().push(g@) =~= seq![g@]);
    }
    d
}

/// Reads a contract out of `e`, as [`contract_spec`] says.
pub fn sexpr_into_astnode(e: &Spanned<SExpr>) -> (r: (Option<Spanned<Contract>>, Vec<Diagnostic>))
    ensures
        contract_result_view(r) == contract_spec(spanned_view(*e)),
    decreases e.0,
{
    let close = String::from_str("Close");
    let when = String::from_str("When");
    match &e.0 {
        SExpr::Object(name, args) => {
            proof {
                lemma_items_view_all(args@);
            }
            if *name == close {
                let d = if args.len() > 0 {
                    one_diag(Diagnostic::CloseWithArguments { span: e.1 })
                } else {
                    let d: Vec<Diagnostic> = Vec::new();
                    assert(diagnostics_view(d@) =~= Seq::<SpecDiagnostic>::empty());
                    d
                };
                (Some(Spanned(Contract::Close, e.1)), d)
            } else if *name == when && args.len() == 3 {
                let (c, d) = sexpr_into_astnode(&args[2]);
                match c {
                    Some(cont) => (
                        Some(
                            Spanned(Contract::When { timeout_continuation: Box::new(cont.0) }, e.1),
                        ),
                        d,
                    ),
                    None => (None, one_diag(Diagnostic::InvalidContinuation { span: e.1 })),
                }
            } else {
                (None, one_diag(Diagnostic::NotAContract { span: e.1 }))
            }
        },
        _ => (None, one_diag(Diagnostic::NotAContract { span: e.1 })),
    }
}

/* Reading back the text of a contract */

/// The text of a contract: `Close`, or `When [] 0 ` followed by the text of the continuation.
pub open spec fn contract_text(c: Contract) -> Seq<char>
    decreases c,
{
    match c {
        Contract::Close => seq!['C', 'l', 'o', 's', 'e'],
        Contract::When { timeout_continuation } => seq!['W', 'h', 'e', 'n', ' ', '[', ']', ' ', '0', ' ']
            + contract_text(*timeout_continuation),
    }
}

/// The kinds of the tokens of the text of a contract.
pub open spec fn contract_kinds(c: Contract) -> Seq<SpecLexTokenType>
    decreases c,
{
    match c {
        Contract::Close => seq![SpecLexTokenType::Identifier(seq!['C', 'l', 'o', 's', 'e'])],
        Contract::When { timeout_continuation } => seq![
            SpecLexTokenType::Identifier(seq!['W', 'h', 'e', 'n']),
            SpecLexTokenType::OpenBracket,
            SpecLexTokenType::CloseBracket,
            SpecLexTokenType::Number(seq!['0']),
        ] + contract_kinds(*timeout_continuation),
    }
}

/// The kinds of a sequence of tokens.
pub open spec fn kinds(t: Seq<SpecLexToken>) -> Seq<SpecLexTokenType> {
    t.map_values(|x: SpecLexToken| x.kind)
}

pub proof fn lemma_contract_text_start(c: Contract)
    ensures
        contract_text(c).len() >= 5,
        contract_text(c)[0] == 'C' || contract_text(c)[0] == 'W',
    decreases c,
{
    match c {
        Contract::Close => {},
        Contract::When { timeout_continuation } => {
            lemma_contract_text_start(*timeout_continuation);
        },
    }
}

/// Lexing the text of a contract, wherever it stands at the end of an input.
pub proof fn lemma_lex_contract_text(s: Seq<char>, i: int, c: Contract)
    requires
        0 <= i <= s.len(),
        s.subrange(i, s.len() as int) == contract_text(c),
    ensures
        kinds(lex_from(s, i)) == contract_kinds(c),
    decreases c,
{
    lemma_contract_text_start(c);
    let x = contract_text(c);
    assert forall|q: int| 0 <= q < x.len() implies s[i + q] == #[trigger] x[q] by {
        assert(s.subrange(i, s.len() as int)[q] == s[i + q]);
    }
    assert(s[i] == x[0]);
    match c {
        Contract::Close => {
            assert(s.len() == i + 5);
            assert(x[0] == 'C');
            assert(x[1] == 'l');
            assert(x[2] == 'o');
            assert(x[3] == 's');
            assert(x[4] == 'e');
            assert(s[i + 1] == 'l' && s[i + 2] == 'o' && s[i + 3] == 's' && s[i + 4] == 'e');
            lemma_run_end(s, i, CharClass::Whitespace);
            assert(skip_ws(s, i) == i);
            lemma_run_end(s, i + 1, CharClass::NotSpace);
            assert(run_end(s, i + 1, CharClass::NotSpace) == i + 5);
            assert(lexeme(s, i).1 == i + 5);
            assert(s.subrange(i, i + 5) =~= seq!['C', 'l', 'o', 's', 'e']);
            lemma_run_end(s, i + 5, CharClass::Whitespace);
            assert(lex_from(s, i + 5) =~= Seq::<SpecLexToken>::empty());
            assert(kinds(lex_from(s, i)) =~= contract_kinds(c));
        },
        Contract::When { timeout_continuation } => {
            let k = *timeout_continuation;
            lemma_contract_text_start(k);
            assert(x[0] == 'W');
            assert(x[1] == 'h');
            assert(x[2] == 'e');
            assert(x[3] == 'n');
            assert(x[4] == ' ');
            assert(x[5] == '[');
            assert(x[6] == ']');
            assert(x[7] == ' ');
            assert(x[8] == '0');
            assert(x[9] == ' ');
            assert(s[i + 1] == 'h' && s[i + 2] == 'e' && s[i + 3] == 'n' && s[i + 4] == ' ');
            assert(s[i + 5] == '[' && s[i + 6] == ']' && s[i + 7] == ' ' && s[i + 8] == '0');
            assert(s[i + 9] == ' ');
            let pre = seq!['W', 'h', 'e', 'n', ' ', '[', ']', ' ', '0', ' '];
            assert(x == pre + contract_text(k));
            assert(s.len() == i + 10 + contract_text(k).len());
            assert forall|q: int| 0 <= q < contract_text(k).len() implies #[trigger] s.subrange(
                i + 10,
                s.len() as int,
            )[q] == contract_text(k)[q] by {
                assert(x[10 + q] == contract_text(k)[q]);
                assert(s[i + (10 + q)] == x[10 + q]);
            }
            assert(s.subrange(i + 10, s.len() as int) =~= contract_text(k));
            assert(s[i + 10] == contract_text(k)[0]);
            lemma_lex_contract_text(s, i + 10, k);
            // `When`
            lemma_run_end(s, i, CharClass::Whitespace);
            lemma_run_end(s, i + 1, CharClass::NotSpace);
            assert(run_end(s, i + 1, CharClass::NotSpace) == i + 4);
            assert(s.subrange(i, i + 4) =~= seq!['W', 'h', 'e', 'n']);
            lemma_run_end(s, i + 4, CharClass::Whitespace);
            lemma_run_end(s, i + 5, CharClass::Whitespace);
            assert(skip_ws(s, i + 4) == i + 5);
            let t = lex_from(s, i);
            let t5 = lex_from(s, i + 5);
            assert(t == seq![t[0]] + t5);
            assert(t[0].kind == SpecLexTokenType::Identifier(seq!['W', 'h', 'e', 'n']));
            // `[`
            lemma_run_end(s, i + 6, CharClass::Whitespace);
            assert(lexeme(s, i + 5) == (SpecLexTokenType::OpenBracket, i + 6));
            let t6 = lex_from(s, i + 6);
            assert(t5 == seq![t5[0]] + t6);
            // `]`
            lemma_run_end(s, i + 7, CharClass::Whitespace);
            lemma_run_end(s, i + 8, CharClass::Whitespace);
            assert(lexeme(s, i + 6) == (SpecLexTokenType::CloseBracket, i + 7));
            assert(skip_ws(s, i + 7) == i + 8);
            let t8 = lex_from(s, i + 8);
            assert(t6 == seq![t6[0]] + t8);
            // `0`
            lemma_run_end(s, i + 9, CharClass::Whitespace);
            lemma_run_end(s, i + 10, CharClass::Whitespace);
            assert(s.subrange(i + 8, i + 9) =~= seq!['0']);
            assert(lexeme(s, i + 8) == (SpecLexTokenType::Number(seq!['0']), i + 9));
            assert(skip_ws(s, i + 9) == i + 10);
            let t10 = lex_from(s, i + 10);
            assert(t8 == seq![t8[0]] + t10);
            assert(kinds(t) =~= contract_kinds(c));
        },
    }
}

/// The name of an identifier made of ASCII letters, the first upper-case, is itself, and
/// nothing is reported on it.
pub proof fn lemma_plain_name(x: Seq<char>, span: Span)
    requires
        x.len() > 0,
        'A' <= x[0] <= 'Z',
        forall|q: int| 0 <= q < x.len() ==> ('a' <= #[trigger] x[q] <= 'z') || ('A' <= x[q] <= 'Z'),
    ensures
        trim(x) == x,
        case_diags(x, span) == Seq::<SpecDiagnostic>::empty(),
        char_diags(x, span, 0) == Seq::<SpecDiagnostic>::empty(),
{
    assert(trim_start(x, 0) == 0);
    assert(trim_end(x, x.len() as int) == x.len());
    assert(x.subrange(0, x.len() as int) =~= x);
    lemma_plain_name_chars(x, span, 0);
}

pub proof fn lemma_plain_name_chars(x: Seq<char>, span: Span, k: int)
    requires
        0 <= k <= x.len(),
        forall|q: int| 0 <= q < x.len() ==> ('a' <= #[trigger] x[q] <= 'z') || ('A' <= x[q] <= 'Z'),
    ensures
        char_diags(x, span, k) == Seq::<SpecDiagnostic>::empty(),
    decreases x.len() - k,
{
    if k < x.len() {
        assert(('a' <= x[k] <= 'z') || ('A' <= x[k] <= 'Z'));
        lemma_plain_name_chars(x, span, k + 1);
    }
}

/// Parsing the tokens of the text of a contract, wherever they stand at the end of the
/// tokens, gives an s-expression that reads as the contract, with nothing reported.
#[verifier::spinoff_prover]
#[verifier::rlimit(40)]
pub proof fn lemma_parse_contract_tokens(t: Seq<SpecLexToken>, p: int, c: Contract)
    requires
        0 <= p <= t.len(),
        kinds(t).subrange(p, t.len() as int) == contract_kinds(c),
    ensures
        expr_spec(t, p) matches Some(r) && r.end == t.len() && r.diags.len() == 0
            && contract_spec(r.item).0 == Some((c, r.item.1)) && contract_spec(r.item).1.len()
            == 0,
    decreases c,
{
    let ks = contract_kinds(c);
    assert forall|q: int| 0 <= q < ks.len() implies #[trigger] t[p + q].kind == ks[q] by {
        assert(kinds(t).subrange(p, t.len() as int)[q] == kinds(t)[p + q]);
    }
    assert(expr_spec(t, t.len() as int) is None);
    assert(args_spec(t, t.len() as int).items.len() == 0);
    match c {
        Contract::Close => {
            reveal_strlit("Close");
            assert(ks[0] == SpecLexTokenType::Identifier(seq!['C', 'l', 'o', 's', 'e']));
            assert(t.len() == p + 1);
            assert(t[p].kind == ks[0]);
            let x = seq!['C', 'l', 'o', 's', 'e'];
            lemma_plain_name(x, t[p].span);
            assert(ident_spec(t, p) == Some((x, t[p].span, Seq::<SpecDiagnostic>::empty())));
            assert(x == "Close"@);
        },
        Contract::When { timeout_continuation } => {
            reveal_strlit("When");
            reveal_strlit("Close");
            let k = *timeout_continuation;
            assert(ks == seq![
                SpecLexTokenType::Identifier(seq!['W', 'h', 'e', 'n']),
                SpecLexTokenType::OpenBracket,
                SpecLexTokenType::CloseBracket,
                SpecLexTokenType::Number(seq!['0']),
            ] + contract_kinds(k));
            assert(t[p].kind == ks[0]);
            assert(t[p + 1].kind == ks[1]);
            assert(t[p + 2].kind == ks[2]);
            assert(t[p + 3].kind == ks[3]);
            assert(kinds(t).subrange(p + 4, t.len() as int) =~= contract_kinds(k)) by {
                assert forall|q: int| 0 <= q < contract_kinds(k).len() implies #[trigger] kinds(t).subrange(p + 4, t.len() as int)[q] == contract_kinds(k)[q] by {
                    assert(ks[4 + q] == contract_kinds(k)[q]);
                    assert(t[p + (4 + q)].kind == ks[4 + q]);
                }
            }
            lemma_parse_contract_tokens(t, p + 4, k);
            let x = seq!['W', 'h', 'e', 'n'];
            lemma_plain_name(x, t[p].span);
            assert(x == "When"@);
            assert(x != "Close"@);
            assert(ident_spec(t, p) == Some((x, t[p].span, Seq::<SpecDiagnostic>::empty())));
            let r4 = expr_spec(t, p + 4)->0;
            let a4 = args_spec(t, p + 4);
            assert(a4.items == seq![r4.item]);
            assert(a4.end == t.len() && a4.diags.len() == 0);
            assert(array_spec(t, p + 3) is None);
            assert(object_spec(t, p + 3) is None);
            assert(wrapped_spec(t, p + 3) is None);
            assert(number_spec(t, p + 3) == Some(
                Parsed {
                    item: (SpecSExpr::Number(seq!['0']), t[p + 3].span),
                    end: p + 4,
                    diags: Seq::empty(),
                },
            ));
            assert(expr_spec(t, p + 3) == number_spec(t, p + 3));
            assert(t.len() >= p + 5);
            let a3 = args_spec(t, p + 3);
            assert(a3.items == seq![(SpecSExpr::Number(seq!['0']), t[p + 3].span)] + a4.items);
            assert(a3.end == t.len() && a3.diags.len() == 0);
            assert(unexpected_run_end(t, p + 2) == p + 2);
            assert(array_spec(t, p + 1) == Some(
                Parsed {
                    item: (SpecSExpr::List(Seq::empty()), Span { start: t[p + 1].span.start, end: t[p + 2].span.end }),
                    end: p + 3,
                    diags: Seq::empty(),
                },
            ));
            assert(expr_spec(t, p + 1) == array_spec(t, p + 1));
            let a1 = args_spec(t, p + 1);
            assert(a1.items[2] == r4.item);
            assert(a1.items.len() == 3);
            assert(a1.end == t.len() && a1.diags.len() == 0);
        },
    }
}

/// Reading a source text through the three stages: the lexer's error, if it fails; the
/// parser's reports, if it makes any (reading stops there); otherwise the contract read out
/// of the s-expression, if any, and the reader's reports.
pub open spec fn read_spec(s: Seq<char>) -> (Option<Contract>, Seq<SpecDiagnostic>) {
    match lex_spec(s) {
        Err(d) => (None, seq![d]),
        Ok(t) => {
            let (e, d1) = parse_spec(t);
            if d1.len() > 0 {
                (None, d1)
            } else {
                match e {
                    Some(e) => {
                        let (c, d2) = contract_spec(e);
                        (
                            match c {
                                Some((c, _)) => Some(c),
                                None => None,
                            },
                            d2,
                        )
                    },
                    None => (None, d1),
                }
            }
        },
    }
}

/// Reading the text of a contract gives back that contract: the text lexes, the tokens
/// parse into one s-expression, and the s-expression reads as the contract, with nothing
/// reported at any stage.
pub proof fn law_contract_text_reads_back(c: Contract)
    ensures
        read_spec(contract_text(c)) == (Some(c), Seq::<SpecDiagnostic>::empty()),
{
    let s = contract_text(c);
    lemma_contract_text_start(c);
    lemma_run_end(s, 0, CharClass::Whitespace);
    assert(skip_ws(s, 0) == 0);
    assert(s.subrange(0, s.len() as int) =~= s);
    lemma_lex_contract_text(s, 0, c);
    let t = lex_from(s, 0);
    assert(kinds(t).subrange(0, t.len() as int) =~= kinds(t));
    lemma_parse_contract_tokens(t, 0, c);
    assert(contract_spec(expr_spec(t, 0)->0.item).1 =~= Seq::<SpecDiagnostic>::empty());
}

/// No failure is silent: when reading a source text gives no contract, something was
/// reported (by the lexer, the parser or the reader).
pub proof fn law_failures_are_reported(s: Seq<char>)
    ensures
        read_spec(s).0 is None ==> read_spec(s).1.len() > 0,
{
    if let Ok(t) = lex_spec(s) {
        let (e, d1) = parse_spec(t);
        if d1.len() == 0 {
            if let Some(e) = e {
                let (c, d2) = contract_spec(e);
                if c is None {
                    assert(d2.len() == 1);
                }
            }
        }
    }
}

} // verus!
