//! The s-expression parser: tokens to one spanned s-expression.
//!
//! The grammar, tried in order at each position:
//! * array: `[`, tokens of kind `Unexpected` only, `]` (an empty list spanning the brackets);
//!   or `[`, items separated by one or more commas (a trailing separator allowed), `]`
//!   (a list whose span is `0..0`). An item that fails to parse is retried after skipping
//!   tokens one at a time; a retry counts only if it reports nothing. A missing `]` is
//!   looked for further on, the tokens before it skipped.
//! * object: an identifier followed by as many s-expressions as parse.
//! * wrapped object: `(`, an identifier, as many s-expressions as parse, `)` (found as `]` is).
//! * number; and otherwise any token that is not of kind `Unexpected`: a string becomes a
//!   quoted string, anything else an `Unexpected` s-expression, which is reported.
use crate::chars::{
    char_is_whitespace, chars_of, is_alnum, is_alphanumeric, is_ascii_upper, is_ws, push_char,
    string_of, to_uppercase, upper_of,
};
use crate::types::{
    copy_token, diagnostics_view, lemma_items_view, items_view, lemma_diags_concat, lemma_diags_push, lemma_items_view_all, sexpr_view, spanned_view, tokens_view, Diagnostic, LexToken,
    LexTokenType, SExpr, Span, Spanned, SpecDiagnostic, SpecLexToken, SpecLexTokenType,
    SpecSExpr, span_of,
};
use vstd::prelude::*;

verus! {

/// The model of a successful parse at some position: what was read, where it ended, and
/// what was reported on the way.
pub struct Parsed {
    pub item: (SpecSExpr, Span),
    pub end: int,
    pub diags: Seq<SpecDiagnostic>,
}

/// The model of a repetition: the items read, where it ended, and what was reported.
pub struct ParsedSeq {
    pub items: Seq<(SpecSExpr, Span)>,
    pub end: int,
    pub diags: Seq<SpecDiagnostic>,
}

/* Identifiers */

/// Where the leading whitespace of `x` ends.
pub open spec fn trim_start(x: Seq<char>, k: int) -> int
    decreases x.len() - k,
{
    if 0 <= k < x.len() && is_ws(x[k]) {
        trim_start(x, k + 1)
    } else {
        k
    }
}

/// Where the trailing whitespace of `x[..k]` starts.
pub open spec fn trim_end(x: Seq<char>, k: int) -> int
    decreases k,
{
    if 0 < k <= x.len() && is_ws(x[k - 1]) {
        trim_end(x, k - 1)
    } else {
        k
    }
}

/// `x` without leading and trailing whitespace, as `str::trim` returns it.
pub open spec fn trim(x: Seq<char>) -> Seq<char> {
    let a = trim_start(x, 0);
    if a >= x.len() {
        Seq::empty()
    } else {
        x.subrange(a, trim_end(x, x.len() as int))
    }
}

pub proof fn lemma_trim_start(x: Seq<char>, k: int)
    requires
        0 <= k <= x.len(),
    ensures
        k <= trim_start(x, k) <= x.len(),
        forall|p: int| k <= p < trim_start(x, k) ==> is_ws(#[trigger] x[p]),
        trim_start(x, k) == x.len() || !is_ws(x[trim_start(x, k)]),
    decreases x.len() - k,
{
    if k < x.len() && is_ws(x[k]) {
        lemma_trim_start(x, k + 1);
    }
}

pub proof fn lemma_trim_end(x: Seq<char>, k: int)
    requires
        0 <= k <= x.len(),
    ensures
        0 <= trim_end(x, k) <= k,
        forall|p: int| trim_end(x, k) <= p < k ==> is_ws(#[trigger] x[p]),
        trim_end(x, k) == 0 || !is_ws(x[trim_end(x, k) - 1]),
    decreases k,
{
    if 0 < k && is_ws(x[k - 1]) {
        lemma_trim_end(x, k - 1);
    }
}

/// Trimming removes exactly the whitespace at both ends: `x` is a run of whitespace, then
/// `trim(x)`, then a run of whitespace; `trim(x)` neither starts nor ends with whitespace,
/// and it is empty only when `x` is all whitespace.
pub proof fn law_trim(x: Seq<char>)
    ensures
        trim(x).len() == 0 <==> forall|p: int| 0 <= p < x.len() ==> is_ws(#[trigger] x[p]),
        trim(x).len() > 0 ==> !is_ws(trim(x)[0]) && !is_ws(trim(x)[trim(x).len() - 1]),
        exists|a: int|
            0 <= a && a + trim(x).len() <= x.len() && #[trigger] x.subrange(a, a + trim(x).len())
                == trim(x) && (forall|p: int| 0 <= p < a ==> is_ws(#[trigger] x[p])) && (forall|p: int|
                a + trim(x).len() <= p < x.len() ==> is_ws(#[trigger] x[p])),
{
    lemma_trim_start(x, 0);
    lemma_trim_end(x, x.len() as int);
    let a = trim_start(x, 0);
    let b = trim_end(x, x.len() as int);
    let y = trim(x);
    if a >= x.len() {
        assert(x.subrange(a, a + y.len()) =~= y);
    } else {
        assert(a < b) by {
            if b <= a {
                assert(is_ws(x[a]));
            }
        }
        assert(y == x.subrange(a, b));
        assert(x.subrange(a, a + y.len()) =~= y);
        assert(!is_ws(x[a]));
    }
}

/// The identifier reader's name is the token's text without its leading and trailing
/// whitespace: the text is whitespace, the name, whitespace, and the name neither starts nor
/// ends with whitespace.
pub proof fn law_identifier_name_trimmed(t: Seq<SpecLexToken>, i: int)
    requires
        0 <= i < t.len(),
        t[i].kind is Identifier,
    ensures
        ident_spec(t, i) matches Some((x, _, _)) && {
            let raw = t[i].kind->Identifier_0;
            &&& x.len() > 0 ==> !is_ws(x[0]) && !is_ws(x[x.len() - 1])
            &&& exists|a: int|
                0 <= a && a + x.len() <= raw.len() && #[trigger] raw.subrange(a, a + x.len()) == x
                    && (forall|p: int| 0 <= p < a ==> is_ws(#[trigger] raw[p])) && (forall|p: int|
                    a + x.len() <= p < raw.len() ==> is_ws(#[trigger] raw[p]))
        },
{
    law_trim(t[i].kind->Identifier_0);
}

/// The report on an identifier that does not start with an upper-case ASCII letter.
pub open spec fn case_diags(x: Seq<char>, span: Span) -> Seq<SpecDiagnostic> {
    if x.len() > 0 && !is_ascii_upper(x[0]) {
        seq![
            SpecDiagnostic::IdentifierCase {
                span,
                suggestion: upper_of(x[0]) + x.subrange(1, x.len() as int),
            },
        ]
    } else {
        Seq::empty()
    }
}

/// One report for each character of `x[k..]` that is not alphanumeric, in order.
pub open spec fn char_diags(x: Seq<char>, span: Span, k: int) -> Seq<SpecDiagnostic>
    decreases x.len() - k,
{
    if 0 <= k < x.len() {
        if is_alnum(x[k]) {
            char_diags(x, span, k + 1)
        } else {
            seq![SpecDiagnostic::InvalidIdentifierChar { span, found: x[k] }] + char_diags(
                x,
                span,
                k + 1,
            )
        }
    } else {
        Seq::empty()
    }
}

pub proof fn lemma_char_diags_step(x: Seq<char>, span: Span, k: int)
    requires
        0 <= k < x.len(),
    ensures
        char_diags(x, span, k) == if is_alnum(x[k]) {
            char_diags(x, span, k + 1)
        } else {
            seq![SpecDiagnostic::InvalidIdentifierChar { span, found: x[k] }] + char_diags(x, span, k + 1)
        },
{
}

/// An identifier token at `i`: its trimmed name, its span, and the reports on its name.
pub open spec fn ident_spec(t: Seq<SpecLexToken>, i: int) -> Option<
    (Seq<char>, Span, Seq<SpecDiagnostic>),
> {
    if 0 <= i < t.len() && t[i].kind is Identifier {
        let x = trim(t[i].kind->Identifier_0);
        Some((x, t[i].span, case_diags(x, t[i].span) + char_diags(x, t[i].span, 0)))
    } else {
        None
    }
}

/// The character at `k`, as a value of type `char`; this tells the solver that it is one.
pub proof fn char_at(x: Seq<char>, k: int) -> (c: char)
    requires
        0 <= k < x.len(),
    ensures
        c == x[k],
{
    x[k]
}

/// How many characters of `x[k..]` are not alphanumeric.
pub open spec fn non_alnum_count(x: Seq<char>, k: int) -> nat
    decreases x.len() - k,
{
    if 0 <= k < x.len() {
        (if is_alnum(x[k]) { 0nat } else { 1nat }) + non_alnum_count(x, k + 1)
    } else {
        0
    }
}

/// The reports on the characters of `x[k..]` are one per character that is not
/// alphanumeric, each on `span`.
pub proof fn lemma_char_diags_count(x: Seq<char>, span: Span, k: int)
    requires
        0 <= k,
    ensures
        char_diags(x, span, k).len() == non_alnum_count(x, k),
        forall|p: int|
            0 <= p < char_diags(x, span, k).len() ==> (#[trigger] char_diags(x, span, k)[p]) is InvalidIdentifierChar
                && span_of(char_diags(x, span, k)[p]) == span,
    decreases x.len() - k,
{
    if k < x.len() {
        lemma_char_diags_count(x, span, k + 1);
        lemma_char_diags_step(x, span, k);
        let rest = char_diags(x, span, k + 1);
        if !is_alnum(x[k]) {
            let all = char_diags(x, span, k);
            let c = char_at(x, k);
            assert(all == seq![SpecDiagnostic::InvalidIdentifierChar { span, found: c }] + rest);
            assert forall|p: int| 0 <= p < all.len() implies (#[trigger] all[p]) is InvalidIdentifierChar
                && span_of(all[p]) == span by {
                if p > 0 {
                    assert(all[p] == rest[p - 1]);
                }
            }
        }
    }
}

/// The identifier reader on an identifier token: the name is the token's text without
/// surrounding whitespace, the span is the token's, and the reports are one if the name
/// does not start with an upper-case ASCII letter plus one per character of the name that
/// is not alphanumeric, all on the token's span.
pub proof fn law_identifier_reports(t: Seq<SpecLexToken>, i: int)
    requires
        0 <= i < t.len(),
        t[i].kind is Identifier,
    ensures
        ident_spec(t, i) matches Some((x, sp, d)) && x == trim(t[i].kind->Identifier_0) && sp
            == t[i].span && d.len() == (if x.len() > 0 && !is_ascii_upper(x[0]) {
            1nat
        } else {
            0nat
        }) + non_alnum_count(x, 0) && forall|p: int| 0 <= p < d.len() ==> span_of(#[trigger] d[p]) == sp,
{
    let x = trim(t[i].kind->Identifier_0);
    let sp = t[i].span;
    lemma_char_diags_count(x, sp, 0);
    let c = case_diags(x, sp);
    let cd = char_diags(x, sp, 0);
    let d = c + cd;
    assert forall|p: int| 0 <= p < d.len() implies span_of(#[trigger] d[p]) == sp by {
        if p >= c.len() {
            assert(d[p] == cd[p - c.len()]);
        }
    }
}

/* Helpers on token kinds */

/// The first position at or after `p` whose token is not of kind `Unexpected`.
pub open spec fn unexpected_run_end(t: Seq<SpecLexToken>, p: int) -> int
    decreases t.len() - p,
{
    if 0 <= p < t.len() && t[p].kind is Unexpected {
        unexpected_run_end(t, p + 1)
    } else {
        p
    }
}

/// The first position at or after `p` whose token is not a comma.
pub open spec fn comma_run_end(t: Seq<SpecLexToken>, p: int) -> int
    decreases t.len() - p,
{
    if 0 <= p < t.len() && t[p].kind is Comma {
        comma_run_end(t, p + 1)
    } else {
        p
    }
}

/// The first position at or after `p` whose token is of kind `kind`, or the end.
pub open spec fn find_kind(t: Seq<SpecLexToken>, p: int, kind: SpecLexTokenType) -> int
    decreases t.len() - p,
{
    if 0 <= p < t.len() && t[p].kind != kind {
        find_kind(t, p + 1, kind)
    } else {
        p
    }
}

/// A closing token of kind `kind` at `p`, or, skipping the tokens before it, further on:
/// the position after it and the report on what was skipped.
pub open spec fn close_spec(t: Seq<SpecLexToken>, p: int, kind: SpecLexTokenType) -> Option<
    (int, Seq<SpecDiagnostic>),
> {
    let y = find_kind(t, p, kind);
    if y >= t.len() || y < 0 {
        None
    } else if y == p {
        Some((p + 1, Seq::empty()))
    } else {
        Some((y + 1, seq![SpecDiagnostic::SkippedTokens { span: Span { start: p as usize, end: y as usize } }]))
    }
}

/// Where an object whose name has span `name` and whose arguments are `args` ends.
pub open spec fn object_end(name: Span, args: Seq<(SpecSExpr, Span)>) -> usize {
    if args.len() > 0 {
        args.last().1.end
    } else {
        name.end
    }
}

/* The grammar */

/// An array at `i`.
pub open spec fn array_spec(t: Seq<SpecLexToken>, i: int) -> Option<Parsed>
    decreases t.len() - i, 0nat,
{
    if 0 <= i < t.len() && t[i].kind is OpenBracket {
        let k = unexpected_run_end(t, i + 1);
        if k < t.len() && t[k].kind is CloseBracket {
            Some(
                Parsed {
                    item: (
                        SpecSExpr::List(Seq::empty()),
                        Span { start: t[i].span.start, end: t[k].span.end },
                    ),
                    end: k + 1,
                    diags: Seq::empty(),
                },
            )
        } else {
            let items = items_spec(t, i + 1);
            match close_spec(t, items.end, SpecLexTokenType::CloseBracket) {
                Some((e, d)) => Some(
                    Parsed {
                        item: (SpecSExpr::List(items.items), Span { start: 0, end: 0 }),
                        end: e,
                        diags: items.diags + d,
                    },
                ),
                None => None,
            }
        }
    } else {
        None
    }
}

/// An object at `i`: an identifier and its arguments.
pub open spec fn object_spec(t: Seq<SpecLexToken>, i: int) -> Option<Parsed>
    decreases t.len() - i, 0nat,
{
    match ident_spec(t, i) {
        Some((x, sp, d0)) => {
            let args = args_spec(t, i + 1);
            Some(
                Parsed {
                    item: (
                        SpecSExpr::Object(x, args.items),
                        Span { start: sp.start, end: object_end(sp, args.items) },
                    ),
                    end: args.end,
                    diags: d0 + args.diags,
                },
            )
        },
        None => None,
    }
}

/// A wrapped object at `i`: `(`, an identifier, its arguments, `)`.
pub open spec fn wrapped_spec(t: Seq<SpecLexToken>, i: int) -> Option<Parsed>
    decreases t.len() - i, 0nat,
{
    if 0 <= i < t.len() && t[i].kind is OpenParen {
        match ident_spec(t, i + 1) {
            Some((x, sp, d0)) => {
                let args = args_spec(t, i + 2);
                match close_spec(t, args.end, SpecLexTokenType::CloseParen) {
                    Some((e, d2)) => Some(
                        Parsed {
                            item: (
                                SpecSExpr::Object(x, args.items),
                                Span { start: sp.start, end: object_end(sp, args.items) },
                            ),
                            end: e,
                            diags: d0 + args.diags + d2,
                        },
                    ),
                    None => None,
                }
            },
            None => None,
        }
    } else {
        None
    }
}

/// A number token at `i`.
pub open spec fn number_spec(t: Seq<SpecLexToken>, i: int) -> Option<Parsed> {
    if 0 <= i < t.len() && t[i].kind is Number {
        Some(
            Parsed {
                item: (SpecSExpr::Number(t[i].kind->Number_0), t[i].span),
                end: i + 1,
                diags: Seq::empty(),
            },
        )
    } else {
        None
    }
}

/// Any token at `i` that is not of kind `Unexpected`.
pub open spec fn fallback_spec(t: Seq<SpecLexToken>, i: int) -> Option<Parsed> {
    if 0 <= i < t.len() && !(t[i].kind is Unexpected) {
        let e = match t[i].kind {
            SpecLexTokenType::String(c) => SpecSExpr::QuotedString(c),
            _ => SpecSExpr::Unexpected(t[i]),
        };
        Some(Parsed { item: (e, t[i].span), end: i + 1, diags: Seq::empty() })
    } else {
        None
    }
}

/// An s-expression at `i`: the first form that parses; an `Unexpected` one is reported.
pub open spec fn expr_spec(t: Seq<SpecLexToken>, i: int) -> Option<Parsed>
    decreases t.len() - i, 1nat,
{
    let r = if array_spec(t, i) is Some {
        array_spec(t, i)
    } else if object_spec(t, i) is Some {
        object_spec(t, i)
    } else if wrapped_spec(t, i) is Some {
        wrapped_spec(t, i)
    } else if number_spec(t, i) is Some {
        number_spec(t, i)
    } else {
        fallback_spec(t, i)
    };
    match r {
        Some(p) => if p.item.0 is Unexpected {
            Some(
                Parsed {
                    diags: p.diags.push(SpecDiagnostic::UnexpectedToken { span: p.item.1 }),
                    ..p
                },
            )
        } else {
            Some(p)
        },
        None => None,
    }
}

/// After a failed array item at `start`, the retries at `x + 1`, `x + 2`, ...: the first
/// that parses and reports nothing is taken, and the skipped tokens are reported.
pub open spec fn retry_spec(t: Seq<SpecLexToken>, start: int, x: int) -> Option<Parsed>
    decreases t.len() - x, 1nat,
{
    if 0 <= x < t.len() {
        match expr_spec(t, x + 1) {
            Some(p) => if p.diags.len() == 0 {
                Some(
                    Parsed {
                        diags: seq![SpecDiagnostic::SkippedTokens { span: Span { start: start as usize, end: (x + 1) as usize } }],
                        ..p
                    },
                )
            } else {
                retry_spec(t, start, x + 1)
            },
            None => retry_spec(t, start, x + 1),
        }
    } else {
        None
    }
}

/// An array item at `p`, retried further on if it fails.
pub open spec fn item_spec(t: Seq<SpecLexToken>, p: int) -> Option<Parsed>
    decreases t.len() - p, 2nat,
{
    match expr_spec(t, p) {
        Some(r) => Some(r),
        None => retry_spec(t, p, p),
    }
}

/// The arguments of an object from `p` on: s-expressions for as long as they parse.
pub open spec fn args_spec(t: Seq<SpecLexToken>, p: int) -> ParsedSeq
    decreases t.len() - p, 2nat,
{
    match expr_spec(t, p) {
        Some(r) => if p < r.end <= t.len() {
            let rest = args_spec(t, r.end);
            ParsedSeq {
                items: seq![r.item] + rest.items,
                end: rest.end,
                diags: r.diags + rest.diags,
            }
        } else {
            ParsedSeq { items: Seq::empty(), end: p, diags: Seq::empty() }
        },
        None => ParsedSeq { items: Seq::empty(), end: p, diags: Seq::empty() },
    }
}

/// The items of an array from `p` on, before any separator.
pub open spec fn items_spec(t: Seq<SpecLexToken>, p: int) -> ParsedSeq
    decreases t.len() - p, 3nat,
{
    match item_spec(t, p) {
        Some(r) => if p < r.end <= t.len() {
            let rest = more_items_spec(t, r.end);
            ParsedSeq {
                items: seq![r.item] + rest.items,
                end: rest.end,
                diags: r.diags + rest.diags,
            }
        } else {
            ParsedSeq { items: Seq::empty(), end: p, diags: Seq::empty() }
        },
        None => ParsedSeq { items: Seq::empty(), end: p, diags: Seq::empty() },
    }
}

/// The further items of an array from `q` on: one or more commas and an item, repeatedly.
/// Commas with no item after them are consumed.
pub open spec fn more_items_spec(t: Seq<SpecLexToken>, q: int) -> ParsedSeq
    decreases t.len() - q, 3nat,
{
    let r = comma_run_end(t, q);
    if r <= q || r > t.len() {
        ParsedSeq { items: Seq::empty(), end: q, diags: Seq::empty() }
    } else {
        match item_spec(t, r) {
            Some(it) => if r < it.end <= t.len() {
                let rest = more_items_spec(t, it.end);
                ParsedSeq {
                    items: seq![it.item] + rest.items,
                    end: rest.end,
                    diags: it.diags + rest.diags,
                }
            } else {
                ParsedSeq { items: Seq::empty(), end: r, diags: Seq::empty() }
            },
            None => ParsedSeq { items: Seq::empty(), end: r, diags: Seq::empty() },
        }
    }
}

/// A number token where an s-expression is expected reads as a number with exactly the
/// token's text (its `-` included) and span, consuming that token and reporting nothing.
pub proof fn law_number_token_reads_as_number(t: Seq<SpecLexToken>, i: int)
    requires
        0 <= i < t.len(),
        t[i].kind is Number,
    ensures
        expr_spec(t, i) == Some(
            Parsed {
                item: (SpecSExpr::Number(t[i].kind->Number_0), t[i].span),
                end: i + 1,
                diags: Seq::empty(),
            },
        ),
        parse_spec(seq![t[i]]) == (
            Some((SpecSExpr::Number(t[i].kind->Number_0), t[i].span)),
            Seq::<SpecDiagnostic>::empty(),
        ),
{
    let one = seq![t[i]];
    assert(one[0] == t[i]);
    assert(ident_spec(t, i) is None);
    assert(ident_spec(one, 0) is None);
}

/// A string token where an s-expression is expected reads as a quoted string with exactly
/// the token's text (quotes included; the empty string `""` too) and span, consuming that
/// token and reporting nothing.
pub proof fn law_string_token_reads_as_quoted_string(t: Seq<SpecLexToken>, i: int)
    requires
        0 <= i < t.len(),
        t[i].kind is String,
    ensures
        expr_spec(t, i) == Some(
            Parsed {
                item: (SpecSExpr::QuotedString(t[i].kind->String_0), t[i].span),
                end: i + 1,
                diags: Seq::empty(),
            },
        ),
        parse_spec(seq![t[i]]) == (
            Some((SpecSExpr::QuotedString(t[i].kind->String_0), t[i].span)),
            Seq::<SpecDiagnostic>::empty(),
        ),
{
    let one = seq![t[i]];
    assert(one[0] == t[i]);
    assert(ident_spec(t, i) is None);
    assert(ident_spec(one, 0) is None);
}

/// A token that starts no s-expression but is not itself unexpected (a keyword, `)`, `]`
/// or `,`) reads as an `Unexpected` s-expression holding that token, with its span, and is
/// reported once; a token of kind `Unexpected` starts nothing at all.
pub proof fn law_stray_tokens(t: Seq<SpecLexToken>, i: int)
    requires
        0 <= i < t.len(),
    ensures
        (t[i].kind is Keyword || t[i].kind is CloseParen || t[i].kind is CloseBracket
            || t[i].kind is Comma) ==> expr_spec(t, i) == Some(
            Parsed {
                item: (SpecSExpr::Unexpected(t[i]), t[i].span),
                end: i + 1,
                diags: seq![SpecDiagnostic::UnexpectedToken { span: t[i].span }],
            },
        ),
        t[i].kind is Unexpected ==> expr_spec(t, i) is None,
{
    if t[i].kind is Keyword || t[i].kind is CloseParen || t[i].kind is CloseBracket
        || t[i].kind is Comma {
        assert(ident_spec(t, i) is None);
        assert(Seq::<SpecDiagnostic>::empty().push(SpecDiagnostic::UnexpectedToken { span: t[i].span })
            =~= seq![SpecDiagnostic::UnexpectedToken { span: t[i].span }]);
    }
    if t[i].kind is Unexpected {
        assert(ident_spec(t, i) is None);
    }
}

/* Every form that parses consumes at least one token and stays within the tokens. */

pub proof fn lemma_runs(t: Seq<SpecLexToken>, p: int, kind: SpecLexTokenType)
    requires
        0 <= p <= t.len(),
    ensures
        p <= unexpected_run_end(t, p) <= t.len(),
        p <= comma_run_end(t, p) <= t.len(),
        p <= find_kind(t, p, kind) <= t.len(),
        forall|q: int| p <= q < comma_run_end(t, p) ==> (#[trigger] t[q]).kind is Comma,
        forall|q: int| p <= q < unexpected_run_end(t, p) ==> (#[trigger] t[q]).kind is Unexpected,
        forall|q: int| p <= q < find_kind(t, p, kind) ==> (#[trigger] t[q]).kind != kind,
        find_kind(t, p, kind) < t.len() ==> t[find_kind(t, p, kind)].kind == kind,
        comma_run_end(t, p) < t.len() ==> !(t[comma_run_end(t, p)].kind is Comma),
        unexpected_run_end(t, p) < t.len() ==> !(t[unexpected_run_end(t, p)].kind is Unexpected),
    decreases t.len() - p,
{
    if p < t.len() {
        lemma_runs(t, p + 1, kind);
    }
}

pub proof fn lemma_array_advances(t: Seq<SpecLexToken>, i: int)
    requires
        0 <= i,
    ensures
        array_spec(t, i) matches Some(r) ==> i < r.end <= t.len(),
    decreases t.len() - i, 0nat,
{
    if 0 <= i < t.len() && t[i].kind is OpenBracket {
        lemma_runs(t, i + 1, SpecLexTokenType::CloseBracket);
        lemma_items_advances(t, i + 1);
        let items = items_spec(t, i + 1);
        lemma_runs(t, items.end, SpecLexTokenType::CloseBracket);
    }
}

pub proof fn lemma_object_advances(t: Seq<SpecLexToken>, i: int)
    requires
        0 <= i,
    ensures
        object_spec(t, i) matches Some(r) ==> i < r.end <= t.len(),
    decreases t.len() - i, 0nat,
{
    if 0 <= i < t.len() {
        lemma_args_advances(t, i + 1);
    }
}

pub proof fn lemma_wrapped_advances(t: Seq<SpecLexToken>, i: int)
    requires
        0 <= i,
    ensures
        wrapped_spec(t, i) matches Some(r) ==> i < r.end <= t.len(),
    decreases t.len() - i, 0nat,
{
    if 0 <= i && i + 1 < t.len() {
        lemma_args_advances(t, i + 2);
        let args = args_spec(t, i + 2);
        lemma_runs(t, args.end, SpecLexTokenType::CloseParen);
    }
}

pub proof fn lemma_expr_advances(t: Seq<SpecLexToken>, i: int)
    requires
        0 <= i,
    ensures
        expr_spec(t, i) matches Some(r) ==> i < r.end <= t.len(),
    decreases t.len() - i, 1nat,
{
    lemma_array_advances(t, i);
    lemma_object_advances(t, i);
    lemma_wrapped_advances(t, i);
}

pub proof fn lemma_retry_advances(t: Seq<SpecLexToken>, start: int, x: int)
    requires
        0 <= start <= x,
    ensures
        retry_spec(t, start, x) matches Some(r) ==> x < r.end <= t.len(),
    decreases t.len() - x, 1nat,
{
    if 0 <= x < t.len() {
        lemma_expr_advances(t, x + 1);
        lemma_retry_advances(t, start, x + 1);
    }
}

pub proof fn lemma_item_advances(t: Seq<SpecLexToken>, p: int)
    requires
        0 <= p,
    ensures
        item_spec(t, p) matches Some(r) ==> p < r.end <= t.len(),
    decreases t.len() - p, 2nat,
{
    lemma_expr_advances(t, p);
    lemma_retry_advances(t, p, p);
}

pub proof fn lemma_args_advances(t: Seq<SpecLexToken>, p: int)
    requires
        0 <= p <= t.len(),
    ensures
        p <= args_spec(t, p).end <= t.len(),
        args_spec(t, p).items.len() > 0 ==> p < args_spec(t, p).end,
    decreases t.len() - p, 2nat,
{
    lemma_expr_advances(t, p);
    if let Some(r) = expr_spec(t, p) {
        if p < r.end <= t.len() {
            lemma_args_advances(t, r.end);
        }
    }
}

pub proof fn lemma_items_advances(t: Seq<SpecLexToken>, p: int)
    requires
        0 <= p <= t.len(),
    ensures
        p <= items_spec(t, p).end <= t.len(),
    decreases t.len() - p, 3nat,
{
    lemma_item_advances(t, p);
    if let Some(r) = item_spec(t, p) {
        if p < r.end <= t.len() {
            lemma_more_items_advances(t, r.end);
        }
    }
}

pub proof fn lemma_more_items_advances(t: Seq<SpecLexToken>, q: int)
    requires
        0 <= q <= t.len(),
    ensures
        q <= more_items_spec(t, q).end <= t.len(),
    decreases t.len() - q, 3nat,
{
    let r = comma_run_end(t, q);
    lemma_runs(t, q, SpecLexTokenType::Comma);
    if q < r <= t.len() {
        lemma_item_advances(t, r);
        if let Some(it) = item_spec(t, r) {
            if r < it.end <= t.len() {
                lemma_more_items_advances(t, it.end);
            }
        }
    }
}

/// What the parser makes of the tokens: an s-expression that covers all of them, or none,
/// and the reports, in the order they were made.
pub open spec fn parse_spec(t: Seq<SpecLexToken>) -> (Option<(SpecSExpr, Span)>, Seq<SpecDiagnostic>) {
    match expr_spec(t, 0) {
        Some(p) => if p.end == t.len() {
            (Some(p.item), p.diags)
        } else {
            (None, p.diags.push(SpecDiagnostic::ExpectedEnd { span: Span { start: p.end as usize, end: p.end as usize } }))
        },
        None => (None, seq![SpecDiagnostic::ExpectedExpression { span: Span { start: 0, end: 0 } }]),
    }
}

/* Executable parser */

/// A successful parse at some position: what was read, where it ended, what was reported.
pub struct Step {
    pub item: Spanned<SExpr>,
    pub end: usize,
    pub diags: Vec<Diagnostic>,
}

/// A repetition: the items read, where it ended, what was reported.
pub struct Steps {
    pub items: Vec<Spanned<SExpr>>,
    pub end: usize,
    pub diags: Vec<Diagnostic>,
}

pub open spec fn step_view(s: Step) -> Parsed {
    Parsed { item: spanned_view(s.item), end: s.end as int, diags: diagnostics_view(s.diags@) }
}

pub open spec fn opt_step_view(s: Option<Step>) -> Option<Parsed> {
    match s {
        Some(s) => Some(step_view(s)),
        None => None,
    }
}

pub open spec fn steps_view(s: Steps) -> ParsedSeq {
    ParsedSeq {
        items: items_view(s.items@, 0),
        end: s.end as int,
        diags: diagnostics_view(s.diags@),
    }
}

/// Removes leading and trailing whitespace, as `str::trim` does.
fn trim_chars(x: &Vec<char>) -> (r: Vec<char>)
    ensures
        r@ == trim(x@),
{
    let mut a: usize = 0;
    while a < x.len() && char_is_whitespace(x[a])
        invariant
            a <= x.len(),
            trim_start(x@, a as int) == trim_start(x@, 0),
            forall|q: int| 0 <= q < a ==> is_ws(#[trigger] x@[q]),
        decreases x.len() - a,
    {
        a = a + 1;
    }
    if a >= x.len() {
        return Vec::new();
    }
    let mut b: usize = x.len();
    while b > 0 && char_is_whitespace(x[b - 1])
        invariant
            b <= x.len(),
            trim_end(x@, b as int) == trim_end(x@, x@.len() as int),
            a < b,
            !is_ws(x@[a as int]),
            trim_start(x@, 0) == a,
        decreases b,
    {
        b = b - 1;
    }
    let mut r: Vec<char> = Vec::new();
    let mut k = a;
    while k < b
        invariant
            a <= k <= b <= x.len(),
            r@ == x@.subrange(a as int, k as int),
        decreases b - k,
    {
        r.push(x[k]);
        k = k + 1;
        assert(r@ =~= x@.subrange(a as int, k as int));
    }
    r
}

pub proof fn lemma_push_concat<A>(a: Seq<A>, v: A, c: Seq<A>)
    ensures
        a.push(v) + c == a + (seq![v] + c),
{
    assert(a.push(v) + c =~= a + (seq![v] + c));
}

proof fn lemma_char_diags_reported(
    before: Seq<Diagnostic>,
    g: Diagnostic,
    x: Seq<char>,
    span: Span,
    k: int,
    start: Seq<SpecDiagnostic>,
)
    requires
        diagnostics_view(before) + char_diags(x, span, k) == start + char_diags(x, span, 0),
        0 <= k < x.len(),
        !is_alnum(x[k]),
        g@ == (SpecDiagnostic::InvalidIdentifierChar { span, found: x[k] }),
    ensures
        diagnostics_view(before.push(g)) + char_diags(x, span, k + 1) == start + char_diags(
            x,
            span,
            0,
        ),
{
    lemma_char_diags_step(x, span, k);
    lemma_diags_push(before, g);
    lemma_push_concat(diagnostics_view(before), g@, char_diags(x, span, k + 1));
}

/// Appends one report for each character of `x` that is not alphanumeric.
fn push_char_diags(x: &Vec<char>, span: Span, d: &mut Vec<Diagnostic>)
    ensures
        diagnostics_view(final(d)@) == diagnostics_view(old(d)@) + char_diags(x@, span, 0),
{
    let ghost start = diagnostics_view(d@);
    let mut k: usize = 0;
    while k < x.len()
        invariant
            k <= x.len(),
            diagnostics_view(d@) + char_diags(x@, span, k as int) == start + char_diags(x@, span, 0),
        decreases x.len() - k,
    {
        let c = x[k];
        if !is_alphanumeric(c) {
            let ghost before = d@;
            let dg = Diagnostic::InvalidIdentifierChar { span, found: c };
            let ghost g = dg;
            d.push(dg);
            proof {
                lemma_char_diags_reported(before, g, x@, span, k as int, start);
            }
        } else {
            proof {
                lemma_char_diags_step(x@, span, k as int);
            }
        }
        k = k + 1;
    }
    assert(char_diags(x@, span, k as int) =~= Seq::<SpecDiagnostic>::empty());
    assert(diagnostics_view(d@) =~= diagnostics_view(d@) + Seq::<SpecDiagnostic>::empty());
}

/// Reads an identifier token at `i`: its name without surrounding whitespace, its span,
/// and the reports on the name: one if it does not start with an upper-case ASCII letter
/// (suggesting the name with that letter upper-cased), then one for each character that
/// is neither alphabetic nor numeric.
pub fn identifier_with_lextok(t: &Vec<LexToken>, i: usize) -> (r: Option<(String, Span, Vec<Diagnostic>)>)
    ensures
        match (r, ident_spec(tokens_view(t@), i as int)) {
            (Some((name, span, d)), Some((x, sp, ds))) => name@ == x && span == sp
                && diagnostics_view(d@) == ds,
            (None, None) => true,
            _ => false,
        },
{
    if i >= t.len() {
        return None;
    }
    let tok = &t[i];
    let span = tok.span;
    match &tok.kind {
        LexTokenType::Identifier(name) => {
            let raw = chars_of(name.as_str());
            let x = trim_chars(&raw);
            let trimmed = string_of(&x, 0, x.len());
            assert(trimmed@ =~= x@);
            let mut d: Vec<Diagnostic> = Vec::new();
            if x.len() > 0 && !('A' <= x[0] && x[0] <= 'Z') {
                let mut sug = to_uppercase(x[0]);
                let mut k: usize = 1;
                while k < x.len()
                    invariant
                        1 <= k <= x.len(),
                        sug@ == upper_of(x@[0]) + x@.subrange(1, k as int),
                    decreases x.len() - k,
                {
                    push_char(&mut sug, x[k]);
                    k = k + 1;
                    assert(sug@ =~= upper_of(x@[0]) + x@.subrange(1, k as int));
                }
                let dg = Diagnostic::IdentifierCase { span, suggestion: sug };
                let ghost g = dg;
                d.push(dg);
                proof {
                    lemma_diags_push(Seq::empty(), g);
                }
            }
            assert(diagnostics_view(d@) =~= case_diags(x@, span));
            push_char_diags(&x, span, &mut d);
            Some((trimmed, span, d))
        },
        _ => None,
    }
}

/* The grammar, executable */

pub open spec fn close_kind(bracket: bool) -> SpecLexTokenType {
    if bracket {
        SpecLexTokenType::CloseBracket
    } else {
        SpecLexTokenType::CloseParen
    }
}

pub proof fn lemma_items_cons(x: Spanned<SExpr>, v: Seq<Spanned<SExpr>>)
    ensures
        items_view(seq![x] + v, 0) == seq![spanned_view(x)] + items_view(v, 0),
{
    lemma_items_view_all(seq![x] + v);
    lemma_items_view_all(v);
    assert forall|k: int| 0 <= k < v.len() + 1 implies #[trigger] items_view(seq![x] + v, 0)[k] == (
    seq![spanned_view(x)] + items_view(v, 0))[k] by {
        if k > 0 {
            assert((seq![x] + v)[k] == v[k - 1]);
        }
    }
    assert(items_view(seq![x] + v, 0) =~= seq![spanned_view(x)] + items_view(v, 0));
}

pub proof fn lemma_items_empty(v: Seq<Spanned<SExpr>>)
    requires
        v.len() == 0,
    ensures
        items_view(v, 0) == Seq::<(SpecSExpr, Span)>::empty(),
{
    lemma_items_view_all(v);
    assert(items_view(v, 0) =~= Seq::<(SpecSExpr, Span)>::empty());
}

/// The first position at or after `p` whose token is not of kind `Unexpected`.
fn unexpected_run(t: &Vec<LexToken>, p: usize) -> (r: usize)
    requires
        p <= t.len(),
    ensures
        r == unexpected_run_end(tokens_view(t@), p as int),
        p <= r <= t.len(),
{
    let mut q = p;
    while q < t.len() && matches!(t[q].kind, LexTokenType::Unexpected(_))
        invariant
            p <= q <= t.len(),
            unexpected_run_end(tokens_view(t@), q as int) == unexpected_run_end(tokens_view(t@), p as int),
        decreases t.len() - q,
    {
        q = q + 1;
    }
    q
}

/// The first position at or after `p` whose token is not a comma.
fn comma_run(t: &Vec<LexToken>, p: usize) -> (r: usize)
    requires
        p <= t.len(),
    ensures
        r == comma_run_end(tokens_view(t@), p as int),
        p <= r <= t.len(),
{
    let mut q = p;
    while q < t.len() && matches!(t[q].kind, LexTokenType::Comma)
        invariant
            p <= q <= t.len(),
            comma_run_end(tokens_view(t@), q as int) == comma_run_end(tokens_view(t@), p as int),
        decreases t.len() - q,
    {
        q = q + 1;
    }
    q
}

fn is_close(k: &LexTokenType, bracket: bool) -> (r: bool)
    ensures
        r == (k@ == close_kind(bracket)),
{
    match k {
        LexTokenType::CloseBracket => bracket,
        LexTokenType::CloseParen => !bracket,
        _ => false,
    }
}

/// A closing bracket (or parenthesis) at `p`, or further on with the tokens before it
/// skipped and reported.
fn close(t: &Vec<LexToken>, p: usize, bracket: bool) -> (r: Option<(usize, Vec<Diagnostic>)>)
    requires
        p <= t.len(),
    ensures
        match (r, close_spec(tokens_view(t@), p as int, close_kind(bracket))) {
            (Some((e, d)), Some((e2, d2))) => e == e2 && diagnostics_view(d@) == d2,
            (None, None) => true,
            _ => false,
        },
{
    let ghost tv = tokens_view(t@);
    let mut y = p;
    while y < t.len() && !is_close(&t[y].kind, bracket)
        invariant
            p <= y <= t.len(),
            tv == tokens_view(t@),
            find_kind(tv, y as int, close_kind(bracket)) == find_kind(tv, p as int, close_kind(bracket)),
        decreases t.len() - y,
    {
        y = y + 1;
    }
    if y >= t.len() {
        None
    } else if y == p {
        let d: Vec<Diagnostic> = Vec::new();
        assert(diagnostics_view(d@) =~= Seq::<SpecDiagnostic>::empty());
        Some((p + 1, d))
    } else {
        let dg = Diagnostic::SkippedTokens { span: Span::new(p, y) };
        let ghost g = dg;
        let mut d: Vec<Diagnostic> = Vec::new();
        d.push(dg);
        proof {
            lemma_diags_push(Seq::empty(), g);
            assert(Seq::<Diagnostic>::empty().push(g) == d@);
        }
        Some((y + 1, d))
    }
}

/// Reads a number token at `i`.
pub fn positive_or_negative_number_lextok(t: &Vec<LexToken>, i: usize) -> (r: Option<Spanned<String>>)
    ensures
        match r {
            Some(n) => 0 <= i < t.len() && t@[i as int]@.kind == SpecLexTokenType::Number(n.0@)
                && n.1 == t@[i as int].span,
            None => !(0 <= i < t.len() && t@[i as int]@.kind is Number),
        },
{
    if i >= t.len() {
        return None;
    }
    match &t[i].kind {
        LexTokenType::Number(n) => Some(Spanned(n.clone(), t[i].span)),
        _ => None,
    }
}

/// No items, ending at `p`.
fn empty_steps(p: usize) -> (r: Steps)
    ensures
        steps_view(r) == (ParsedSeq { items: Seq::empty(), end: p as int, diags: Seq::empty() }),
{
    let items: Vec<Spanned<SExpr>> = Vec::new();
    let diags: Vec<Diagnostic> = Vec::new();
    proof {
        lemma_items_empty(items@);
        assert(diagnostics_view(diags@) =~= Seq::<SpecDiagnostic>::empty());
    }
    Steps { items, end: p, diags }
}

/// `s` followed by `rest`.
fn cons_steps(s: Step, rest: Steps) -> (r: Steps)
    ensures
        steps_view(r) == (ParsedSeq {
            items: seq![step_view(s).item] + steps_view(rest).items,
            end: steps_view(rest).end,
            diags: step_view(s).diags + steps_view(rest).diags,
        }),
{
    let ghost sv = step_view(s);
    let ghost rv = steps_view(rest);
    let Step { item, end: _, diags } = s;
    let Steps { items, end, diags: rest_diags } = rest;
    let ghost it = item;
    let ghost old_items = items@;
    let mut items = items;
    items.insert(0, item);
    let mut d = diags;
    let ghost d0 = d@;
    let mut rd = rest_diags;
    let ghost rd0 = rd@;
    d.append(&mut rd);
    proof {
        assert(items@ =~= seq![it] + old_items);
        lemma_items_cons(it, old_items);
        lemma_diags_concat(d0, rd0);
    }
    Steps { items, end, diags: d }
}

/// `a` followed by `b`.
fn concat_diags(a: Vec<Diagnostic>, b: Vec<Diagnostic>) -> (r: Vec<Diagnostic>)
    ensures
        diagnostics_view(r@) == diagnostics_view(a@) + diagnostics_view(b@),
{
    let ghost a0 = a@;
    let ghost b0 = b@;
    let mut r = a;
    let mut b = b;
    r.append(&mut b);
    proof {
        lemma_diags_concat(a0, b0);
    }
    r
}

fn array(t: &Vec<LexToken>, i: usize) -> (r: Option<Step>)
    requires
        i <= t.len(),
    ensures
        opt_step_view(r) == array_spec(tokens_view(t@), i as int),
    decreases t.len() - i, 0nat,
{
    let ghost tv = tokens_view(t@);
    if i < t.len() && matches!(t[i].kind, LexTokenType::OpenBracket) {
        let k = unexpected_run(t, i + 1);
        if k < t.len() && matches!(t[k].kind, LexTokenType::CloseBracket) {
            let items: Vec<Spanned<SExpr>> = Vec::new();
            let d: Vec<Diagnostic> = Vec::new();
            proof {
                lemma_items_empty(items@);
                assert(diagnostics_view(d@) =~= Seq::<SpecDiagnostic>::empty());
            }
            return Some(
                Step {
                    item: Spanned(SExpr::List(items), Span::new(t[i].span.start, t[k].span.end)),
                    end: k + 1,
                    diags: d,
                },
            );
        }
        let its = items(t, i + 1);
        proof {
            lemma_items_advances(tv, i + 1);
        }
        match close(t, its.end, true) {
            Some((e, d2)) => {
                let Steps { items, end: _, diags } = its;
                let d = concat_diags(diags, d2);
                Some(Step { item: Spanned(SExpr::List(items), Span::new(0, 0)), end: e, diags: d })
            },
            None => None,
        }
    } else {
        None
    }
}

fn object(t: &Vec<LexToken>, i: usize) -> (r: Option<Step>)
    requires
        i <= t.len(),
    ensures
        opt_step_view(r) == object_spec(tokens_view(t@), i as int),
    decreases t.len() - i, 0nat,
{
    match identifier_with_lextok(t, i) {
        Some((x, sp, d0)) => {
            let a = args(t, i + 1);
            proof {
                lemma_items_view_all(a.items@);
            }
            let end = if a.items.len() > 0 {
                a.items[a.items.len() - 1].1.end
            } else {
                sp.end
            };
            let Steps { items, end: aend, diags } = a;
            let d = concat_diags(d0, diags);
            Some(
                Step {
                    item: Spanned(SExpr::Object(x, items), Span::new(sp.start, end)),
                    end: aend,
                    diags: d,
                },
            )
        },
        None => None,
    }
}

fn wrapped(t: &Vec<LexToken>, i: usize) -> (r: Option<Step>)
    requires
        i <= t.len(),
    ensures
        opt_step_view(r) == wrapped_spec(tokens_view(t@), i as int),
    decreases t.len() - i, 0nat,
{
    let ghost tv = tokens_view(t@);
    if i < t.len() && matches!(t[i].kind, LexTokenType::OpenParen) {
        match identifier_with_lextok(t, i + 1) {
            Some((x, sp, d0)) => {
                let a = args(t, i + 2);
                proof {
                    lemma_items_view_all(a.items@);
                    lemma_args_advances(tv, i + 2);
                }
                let end = if a.items.len() > 0 {
                    a.items[a.items.len() - 1].1.end
                } else {
                    sp.end
                };
                match close(t, a.end, false) {
                    Some((e, d2)) => {
                        let Steps { items, end: _, diags } = a;
                        let d = concat_diags(concat_diags(d0, diags), d2);
                        Some(
                            Step {
                                item: Spanned(SExpr::Object(x, items), Span::new(sp.start, end)),
                                end: e,
                                diags: d,
                            },
                        )
                    },
                    None => None,
                }
            },
            None => None,
        }
    } else {
        None
    }
}

fn number_step(t: &Vec<LexToken>, i: usize) -> (r: Option<Step>)
    ensures
        opt_step_view(r) == number_spec(tokens_view(t@), i as int),
{
    match positive_or_negative_number_lextok(t, i) {
        Some(n) => {
            let d: Vec<Diagnostic> = Vec::new();
            proof {
                assert(diagnostics_view(d@) =~= Seq::<SpecDiagnostic>::empty());
            }
            Some(Step { item: Spanned(SExpr::Number(n.0), n.1), end: i + 1, diags: d })
        },
        None => None,
    }
}

fn fallback(t: &Vec<LexToken>, i: usize) -> (r: Option<Step>)
    ensures
        opt_step_view(r) == fallback_spec(tokens_view(t@), i as int),
{
    if i < t.len() && !matches!(t[i].kind, LexTokenType::Unexpected(_)) {
        let e = match &t[i].kind {
            LexTokenType::String(c) => SExpr::QuotedString(c.clone()),
            _ => SExpr::Unexpected(copy_token(&t[i])),
        };
        let d: Vec<Diagnostic> = Vec::new();
        proof {
            assert(diagnostics_view(d@) =~= Seq::<SpecDiagnostic>::empty());
        }
        Some(Step { item: Spanned(e, t[i].span), end: i + 1, diags: d })
    } else {
        None
    }
}

fn expr(t: &Vec<LexToken>, i: usize) -> (r: Option<Step>)
    requires
        i <= t.len(),
    ensures
        opt_step_view(r) == expr_spec(tokens_view(t@), i as int),
    decreases t.len() - i, 1nat,
{
    let r = if let Some(a) = array(t, i) {
        Some(a)
    } else if let Some(o) = object(t, i) {
        Some(o)
    } else if let Some(w) = wrapped(t, i) {
        Some(w)
    } else if let Some(n) = number_step(t, i) {
        Some(n)
    } else {
        fallback(t, i)
    };
    match r {
        Some(s) => {
            let unexpected = match &s.item.0 {
                SExpr::Unexpected(_) => true,
                _ => false,
            };
            if unexpected {
                let Step { item, end, diags } = s;
                let mut d = diags;
                let dg = Diagnostic::UnexpectedToken { span: item.1 };
                let ghost g = dg;
                let ghost before = d@;
                d.push(dg);
                proof {
                    lemma_diags_push(before, g);
                }
                Some(Step { item, end, diags: d })
            } else {
                Some(s)
            }
        },
        None => None,
    }
}

fn retry(t: &Vec<LexToken>, start: usize, x0: usize) -> (r: Option<Step>)
    requires
        start <= x0 <= t.len(),
    ensures
        opt_step_view(r) == retry_spec(tokens_view(t@), start as int, x0 as int),
    decreases t.len() - x0, 1nat,
{
    let ghost tv = tokens_view(t@);
    let mut x = x0;
    while x < t.len()
        invariant
            start <= x0 <= x <= t.len(),
            tv == tokens_view(t@),
            retry_spec(tv, start as int, x as int) == retry_spec(tv, start as int, x0 as int),
        decreases t.len() - x,
    {
        match expr(t, x + 1) {
            Some(s) => {
                if s.diags.len() == 0 {
                    let dg = Diagnostic::SkippedTokens { span: Span::new(start, x + 1) };
                    let ghost g = dg;
                    let mut d: Vec<Diagnostic> = Vec::new();
                    d.push(dg);
                    proof {
                        lemma_diags_push(Seq::empty(), g);
                        assert(Seq::<Diagnostic>::empty().push(g) == d@);
                        assert(diagnostics_view(Seq::empty()) =~= Seq::<SpecDiagnostic>::empty());
                        assert(diagnostics_view(d@) =~= seq![g@]);
                        assert(diagnostics_view(s.diags@).len() == 0);
                    }
                    return Some(Step { item: s.item, end: s.end, diags: d });
                }
            },
            None => {},
        }
        x = x + 1;
    }
    None
}

fn item(t: &Vec<LexToken>, p: usize) -> (r: Option<Step>)
    requires
        p <= t.len(),
    ensures
        opt_step_view(r) == item_spec(tokens_view(t@), p as int),
    decreases t.len() - p, 2nat,
{
    match expr(t, p) {
        Some(s) => Some(s),
        None => retry(t, p, p),
    }
}

fn args(t: &Vec<LexToken>, p: usize) -> (r: Steps)
    requires
        p <= t.len(),
    ensures
        steps_view(r) == args_spec(tokens_view(t@), p as int),
    decreases t.len() - p, 2nat,
{
    match expr(t, p) {
        Some(s) => {
            if p < s.end && s.end <= t.len() {
                let rest = args(t, s.end);
                cons_steps(s, rest)
            } else {
                empty_steps(p)
            }
        },
        None => empty_steps(p),
    }
}

fn items(t: &Vec<LexToken>, p: usize) -> (r: Steps)
    requires
        p <= t.len(),
    ensures
        steps_view(r) == items_spec(tokens_view(t@), p as int),
    decreases t.len() - p, 3nat,
{
    match item(t, p) {
        Some(s) => {
            if p < s.end && s.end <= t.len() {
                let rest = more_items(t, s.end);
                cons_steps(s, rest)
            } else {
                empty_steps(p)
            }
        },
        None => empty_steps(p),
    }
}

fn more_items(t: &Vec<LexToken>, q: usize) -> (r: Steps)
    requires
        q <= t.len(),
    ensures
        steps_view(r) == more_items_spec(tokens_view(t@), q as int),
    decreases t.len() - q, 3nat,
{
    let r = comma_run(t, q);
    if r <= q {
        return empty_steps(q);
    }
    match item(t, r) {
        Some(s) => {
            if r < s.end && s.end <= t.len() {
                let rest = more_items(t, s.end);
                cons_steps(s, rest)
            } else {
                empty_steps(r)
            }
        },
        None => empty_steps(r),
    }
}

/// The model of the parser's result.
pub open spec fn parse_result_view(r: (Option<Spanned<SExpr>>, Vec<Diagnostic>)) -> (
    Option<(SpecSExpr, Span)>,
    Seq<SpecDiagnostic>,
) {
    (
        match r.0 {
            Some(e) => Some(spanned_view(e)),
            None => None,
        },
        diagnostics_view(r.1@),
    )
}

/// Reads one s-expression that covers all of `t`. When it does not (nothing parses at
/// the start, or tokens are left over), there is no result, and the last report says where
/// parsing stopped. The reports are in the order they were made.
pub fn parser_of_lextoks(t: &Vec<LexToken>) -> (r: (Option<Spanned<SExpr>>, Vec<Diagnostic>))
    ensures
        parse_result_view(r) == parse_spec(tokens_view(t@)),
{
    match expr(t, 0) {
        Some(s) => {
            if s.end == t.len() {
                (Some(s.item), s.diags)
            } else {
                let Step { item: _, end, diags } = s;
                let mut d = diags;
                let dg = Diagnostic::ExpectedEnd { span: Span::new(end, end) };
                let ghost g = dg;
                let ghost before = d@;
                d.push(dg);
                proof {
                    lemma_diags_push(before, g);
                }
                (None, d)
            }
        },
        None => {
            let dg = Diagnostic::ExpectedExpression { span: Span::new(0, 0) };
            let ghost g = dg;
            let mut d: Vec<Diagnostic> = Vec::new();
            d.push(dg);
            proof {
                lemma_diags_push(Seq::empty(), g);
                assert(Seq::<Diagnostic>::empty().push(g) == d@);
                assert(diagnostics_view(Seq::empty()) =~= Seq::<SpecDiagnostic>::empty());
            }
            (None, d)
        },
    }
}

/* Laws of the parser */

/// Whether `e` holds, at any depth, an `Unexpected` s-expression with span `sp`.
pub open spec fn has_unexpected(e: (SpecSExpr, Span), sp: Span) -> bool
    decreases e.0, 0int,
{
    match e.0 {
        SpecSExpr::Unexpected(_) => e.1 == sp,
        SpecSExpr::List(items) => any_unexpected(items, sp, 0),
        SpecSExpr::Object(_, items) => any_unexpected(items, sp, 0),
        _ => false,
    }
}

/// Whether one of `items[k..]` holds an `Unexpected` s-expression with span `sp`.
pub open spec fn any_unexpected(items: Seq<(SpecSExpr, Span)>, sp: Span, k: int) -> bool
    decreases items, items.len() - k,
{
    if 0 <= k < items.len() {
        has_unexpected(items[k], sp) || any_unexpected(items, sp, k + 1)
    } else {
        false
    }
}

pub proof fn lemma_any_unexpected(items: Seq<(SpecSExpr, Span)>, sp: Span, k: int)
    requires
        0 <= k,
    ensures
        any_unexpected(items, sp, k) <==> exists|j: int|
            k <= j < items.len() && #[trigger] has_unexpected(items[j], sp),
    decreases items.len() - k,
{
    if k < items.len() {
        assert(any_unexpected(items, sp, k) == (has_unexpected(items[k], sp) || any_unexpected(items, sp, k + 1)));
        lemma_any_unexpected(items, sp, k + 1);
        if has_unexpected(items[k], sp) {
            assert(k <= k < items.len() && has_unexpected(items[k], sp));
        }
        if any_unexpected(items, sp, k + 1) {
            let j = choose|j: int| k + 1 <= j < items.len() && #[trigger] has_unexpected(items[j], sp);
            assert(k <= j < items.len() && has_unexpected(items[j], sp));
        }
        if exists|j: int| k <= j < items.len() && #[trigger] has_unexpected(items[j], sp) {
            let j = choose|j: int| k <= j < items.len() && #[trigger] has_unexpected(items[j], sp);
            if j > k {
                assert(k + 1 <= j < items.len() && has_unexpected(items[j], sp));
            }
        }
    }
}

/// Every `Unexpected` s-expression in `e` is among the reports `d`.
pub open spec fn reported_in(e: (SpecSExpr, Span), d: Seq<SpecDiagnostic>) -> bool {
    forall|sp: Span|
        #[trigger] has_unexpected(e, sp) ==> d.contains(SpecDiagnostic::UnexpectedToken { span: sp })
}

/// Every `Unexpected` s-expression in `r` is reported.
pub open spec fn reports_unexpected(r: Parsed) -> bool {
    reported_in(r.item, r.diags)
}

/// Every `Unexpected` s-expression in the items of `r` is reported.
pub open spec fn reports_unexpected_seq(r: ParsedSeq) -> bool {
    forall|k: int, sp: Span|
        0 <= k < r.items.len() && #[trigger] has_unexpected(r.items[k], sp) ==> r.diags.contains(
            SpecDiagnostic::UnexpectedToken { span: sp },
        )
}

pub proof fn lemma_cons_reports(r: Parsed, rest: ParsedSeq)
    requires
        reports_unexpected(r),
        reports_unexpected_seq(rest),
    ensures
        reports_unexpected_seq(
            ParsedSeq {
                items: seq![r.item] + rest.items,
                end: rest.end,
                diags: r.diags + rest.diags,
            },
        ),
{
    let all = seq![r.item] + rest.items;
    let d = r.diags + rest.diags;
    assert forall|k: int, sp: Span|
        0 <= k < all.len() && #[trigger] has_unexpected(all[k], sp) implies d.contains(
        SpecDiagnostic::UnexpectedToken { span: sp },
    ) by {
        let u = SpecDiagnostic::UnexpectedToken { span: sp };
        if k == 0 {
            assert(all[0] == r.item);
            let w = choose|w: int| 0 <= w < r.diags.len() && r.diags[w] == u;
            assert(d[w] == u);
        } else {
            assert(all[k] == rest.items[k - 1]);
            let w = choose|w: int| 0 <= w < rest.diags.len() && rest.diags[w] == u;
            assert(d[r.diags.len() + w] == u);
        }
    }
}

/// The reports of a sequence, with more reports after them.
pub proof fn lemma_contains_prefix(a: Seq<SpecDiagnostic>, b: Seq<SpecDiagnostic>, u: SpecDiagnostic)
    requires
        a.contains(u),
    ensures
        (a + b).contains(u),
        (b + a).contains(u),
{
    let w = choose|w: int| 0 <= w < a.len() && a[w] == u;
    assert((a + b)[w] == u);
    assert((b + a)[b.len() + w] == u);
}

pub proof fn lemma_list_reports(items: ParsedSeq, sp: Span, d: Seq<SpecDiagnostic>)
    requires
        reports_unexpected_seq(items),
    ensures
        reported_in((SpecSExpr::List(items.items), sp), items.diags + d),
{
    let e = (SpecSExpr::List(items.items), sp);
    assert forall|s2: Span| #[trigger] has_unexpected(e, s2) implies (items.diags + d).contains(
        SpecDiagnostic::UnexpectedToken { span: s2 },
    ) by {
        lemma_any_unexpected(items.items, s2, 0);
        let k = choose|k: int| 0 <= k < items.items.len() && #[trigger] has_unexpected(items.items[k], s2);
        assert(items.diags.contains(SpecDiagnostic::UnexpectedToken { span: s2 }));
        lemma_contains_prefix(items.diags, d, SpecDiagnostic::UnexpectedToken { span: s2 });
    }
}

pub proof fn lemma_object_reports(x: Seq<char>, items: ParsedSeq, sp: Span, d0: Seq<SpecDiagnostic>, d: Seq<SpecDiagnostic>)
    requires
        reports_unexpected_seq(items),
    ensures
        reported_in((SpecSExpr::Object(x, items.items), sp), d0 + items.diags + d),
{
    let e = (SpecSExpr::Object(x, items.items), sp);
    assert forall|s2: Span| #[trigger] has_unexpected(e, s2) implies (d0 + items.diags + d).contains(
        SpecDiagnostic::UnexpectedToken { span: s2 },
    ) by {
        lemma_any_unexpected(items.items, s2, 0);
        let k = choose|k: int| 0 <= k < items.items.len() && #[trigger] has_unexpected(items.items[k], s2);
        let u = SpecDiagnostic::UnexpectedToken { span: s2 };
        assert(items.diags.contains(u));
        lemma_contains_prefix(items.diags, d, u);
        lemma_contains_prefix(items.diags + d, d0, u);
        assert(d0 + (items.diags + d) =~= d0 + items.diags + d);
    }
}

/// A parse that reports nothing holds no `Unexpected` s-expression.
pub proof fn lemma_silent_has_none(r: Parsed, sp: Span)
    requires
        reports_unexpected(r),
        r.diags.len() == 0,
    ensures
        !has_unexpected(r.item, sp),
{
    if has_unexpected(r.item, sp) {
        assert(r.diags.contains(SpecDiagnostic::UnexpectedToken { span: sp }));
    }
}

pub proof fn lemma_array_reports(t: Seq<SpecLexToken>, i: int)
    requires
        0 <= i,
    ensures
        array_spec(t, i) matches Some(r) ==> reports_unexpected(r),
    decreases t.len() - i, 0nat,
{
    if 0 <= i < t.len() && t[i].kind is OpenBracket {
        let k = unexpected_run_end(t, i + 1);
        if !(k < t.len() && t[k].kind is CloseBracket) {
            lemma_items_reports(t, i + 1);
            let items = items_spec(t, i + 1);
            if let Some((e, d)) = close_spec(t, items.end, SpecLexTokenType::CloseBracket) {
                lemma_list_reports(items, Span { start: 0, end: 0 }, d);
            }
        }
    }
}

pub proof fn lemma_object_reports_at(t: Seq<SpecLexToken>, i: int)
    requires
        0 <= i,
    ensures
        object_spec(t, i) matches Some(r) ==> reports_unexpected(r),
    decreases t.len() - i, 0nat,
{
    if let Some((x, sp, d0)) = ident_spec(t, i) {
        lemma_args_reports(t, i + 1);
        let args = args_spec(t, i + 1);
        lemma_object_reports(x, args, Span { start: sp.start, end: object_end(sp, args.items) }, d0, Seq::empty());
        assert(d0 + args.diags + Seq::<SpecDiagnostic>::empty() =~= d0 + args.diags);
    }
}

pub proof fn lemma_wrapped_reports(t: Seq<SpecLexToken>, i: int)
    requires
        0 <= i,
    ensures
        wrapped_spec(t, i) matches Some(r) ==> reports_unexpected(r),
    decreases t.len() - i, 0nat,
{
    if 0 <= i < t.len() && t[i].kind is OpenParen {
        if let Some((x, sp, d0)) = ident_spec(t, i + 1) {
            lemma_args_reports(t, i + 2);
            let args = args_spec(t, i + 2);
            if let Some((e, d2)) = close_spec(t, args.end, SpecLexTokenType::CloseParen) {
                lemma_object_reports(x, args, Span { start: sp.start, end: object_end(sp, args.items) }, d0, d2);
            }
        }
    }
}

pub proof fn lemma_expr_reports(t: Seq<SpecLexToken>, i: int)
    requires
        0 <= i,
    ensures
        expr_spec(t, i) matches Some(r) ==> reports_unexpected(r),
    decreases t.len() - i, 1nat,
{
    lemma_array_reports(t, i);
    lemma_object_reports_at(t, i);
    lemma_wrapped_reports(t, i);
    let r0 = if array_spec(t, i) is Some {
        array_spec(t, i)
    } else if object_spec(t, i) is Some {
        object_spec(t, i)
    } else if wrapped_spec(t, i) is Some {
        wrapped_spec(t, i)
    } else if number_spec(t, i) is Some {
        number_spec(t, i)
    } else {
        fallback_spec(t, i)
    };
    if let Some(p) = r0 {
        if p.item.0 is Unexpected {
            let d = p.diags.push(SpecDiagnostic::UnexpectedToken { span: p.item.1 });
            assert forall|sp: Span| #[trigger] has_unexpected(p.item, sp) implies d.contains(
                SpecDiagnostic::UnexpectedToken { span: sp },
            ) by {
                assert(d[p.diags.len() as int] == SpecDiagnostic::UnexpectedToken { span: p.item.1 });
            }
        }
    }
}

pub proof fn lemma_retry_reports(t: Seq<SpecLexToken>, start: int, x: int)
    requires
        0 <= start <= x,
    ensures
        retry_spec(t, start, x) matches Some(r) ==> reports_unexpected(r),
    decreases t.len() - x, 1nat,
{
    if 0 <= x < t.len() {
        lemma_expr_reports(t, x + 1);
        lemma_retry_reports(t, start, x + 1);
        if let Some(p) = expr_spec(t, x + 1) {
            if p.diags.len() == 0 {
                assert forall|sp: Span| !#[trigger] has_unexpected(p.item, sp) by {
                    lemma_silent_has_none(p, sp);
                }
            }
        }
    }
}

pub proof fn lemma_item_reports(t: Seq<SpecLexToken>, p: int)
    requires
        0 <= p,
    ensures
        item_spec(t, p) matches Some(r) ==> reports_unexpected(r),
    decreases t.len() - p, 2nat,
{
    lemma_expr_reports(t, p);
    lemma_retry_reports(t, p, p);
}

pub proof fn lemma_args_reports(t: Seq<SpecLexToken>, p: int)
    requires
        0 <= p,
    ensures
        reports_unexpected_seq(args_spec(t, p)),
    decreases t.len() - p, 2nat,
{
    lemma_expr_reports(t, p);
    if let Some(r) = expr_spec(t, p) {
        if p < r.end <= t.len() {
            lemma_args_reports(t, r.end);
            lemma_cons_reports(r, args_spec(t, r.end));
        }
    }
}

pub proof fn lemma_items_reports(t: Seq<SpecLexToken>, p: int)
    requires
        0 <= p,
    ensures
        reports_unexpected_seq(items_spec(t, p)),
    decreases t.len() - p, 3nat,
{
    lemma_item_reports(t, p);
    if let Some(r) = item_spec(t, p) {
        if p < r.end <= t.len() {
            lemma_more_items_reports(t, r.end);
            lemma_cons_reports(r, more_items_spec(t, r.end));
        }
    }
}

pub proof fn lemma_more_items_reports(t: Seq<SpecLexToken>, q: int)
    requires
        0 <= q,
    ensures
        reports_unexpected_seq(more_items_spec(t, q)),
    decreases t.len() - q, 3nat,
{
    let r = comma_run_end(t, q);
    if q < r <= t.len() {
        lemma_item_reports(t, r);
        if let Some(it) = item_spec(t, r) {
            if r < it.end <= t.len() {
                lemma_more_items_reports(t, it.end);
                lemma_cons_reports(it, more_items_spec(t, it.end));
            }
        }
    }
}

/// No token is read as an `Unexpected` s-expression without being reported: every
/// `Unexpected` s-expression, at any depth of the parser's result, has a report with its span.
pub proof fn law_unexpected_tokens_are_reported(t: Seq<SpecLexToken>, sp: Span)
    ensures
        parse_spec(t).0 matches Some(e) && has_unexpected(e, sp) ==> parse_spec(t).1.contains(
            SpecDiagnostic::UnexpectedToken { span: sp },
        ),
{
    lemma_expr_reports(t, 0);
}

} // verus!
