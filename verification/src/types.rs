//! Tokens, s-expressions and positions shared by every stage.
use crate::chars::push_char;
use vstd::prelude::*;

verus! {

/// A half-open range `start..end` of positions in the input.
#[derive(Clone, Copy, Debug, PartialEq, Eq, Structural)]
pub struct Span {
    pub start: usize,
    pub end: usize,
}

impl Span {
    pub fn new(start: usize, end: usize) -> (r: Span)
        ensures
            r == (Span { start, end }),
    {
        Span { start, end }
    }
}

/// A value together with the span of input it was read from.
#[derive(Clone, Debug, PartialEq)]
pub struct Spanned<T>(pub T, pub Span);

/// What kind of lexeme a token is, with the text it carries.
#[derive(Clone, Debug, PartialEq)]
pub enum LexTokenType {
    Identifier(String),
    Keyword(String),
    /// The literal text of an optionally negative decimal integer.
    Number(String),
    /// A quoted string, quotes included.
    String(String),
    OpenParen,
    CloseParen,
    OpenBracket,
    CloseBracket,
    Comma,
    Unexpected(char),
}

/// A lexeme and the bytes of input (leading and trailing whitespace included) it covers.
#[derive(Clone, Debug, PartialEq)]
pub struct LexToken {
    pub kind: LexTokenType,
    pub span: Span,
}

/// The model of a [`LexTokenType`]: strings are seen as their characters.
pub enum SpecLexTokenType {
    Identifier(Seq<char>),
    Keyword(Seq<char>),
    Number(Seq<char>),
    String(Seq<char>),
    OpenParen,
    CloseParen,
    OpenBracket,
    CloseBracket,
    Comma,
    Unexpected(char),
}

/// The model of a [`LexToken`].
pub struct SpecLexToken {
    pub kind: SpecLexTokenType,
    pub span: Span,
}

impl View for LexTokenType {
    type V = SpecLexTokenType;

    open spec fn view(&self) -> SpecLexTokenType {
        match self {
            LexTokenType::Identifier(s) => SpecLexTokenType::Identifier(s@),
            LexTokenType::Keyword(s) => SpecLexTokenType::Keyword(s@),
            LexTokenType::Number(s) => SpecLexTokenType::Number(s@),
            LexTokenType::String(s) => SpecLexTokenType::String(s@),
            LexTokenType::OpenParen => SpecLexTokenType::OpenParen,
            LexTokenType::CloseParen => SpecLexTokenType::CloseParen,
            LexTokenType::OpenBracket => SpecLexTokenType::OpenBracket,
            LexTokenType::CloseBracket => SpecLexTokenType::CloseBracket,
            LexTokenType::Comma => SpecLexTokenType::Comma,
            LexTokenType::Unexpected(c) => SpecLexTokenType::Unexpected(*c),
        }
    }
}

impl View for LexToken {
    type V = SpecLexToken;

    open spec fn view(&self) -> SpecLexToken {
        SpecLexToken { kind: self.kind@, span: self.span }
    }
}

/// The models of a sequence of tokens.
pub open spec fn tokens_view(t: Seq<LexToken>) -> Seq<SpecLexToken> {
    t.map_values(|x: LexToken| x@)
}

/// An s-expression read from the tokens.
#[derive(Debug, PartialEq)]
pub enum SExpr {
    QuotedString(String),
    /// The literal text of an optionally negative decimal integer.
    Number(String),
    List(Vec<Spanned<SExpr>>),
    Object(String, Vec<Spanned<SExpr>>),
    /// A token that starts no s-expression; it is reported as an error.
    Unexpected(LexToken),
}

/// The model of an [`SExpr`].
pub enum SpecSExpr {
    QuotedString(Seq<char>),
    Number(Seq<char>),
    List(Seq<(SpecSExpr, Span)>),
    Object(Seq<char>, Seq<(SpecSExpr, Span)>),
    Unexpected(SpecLexToken),
}

/// The model of a spanned s-expression.
pub open spec fn spanned_view(e: Spanned<SExpr>) -> (SpecSExpr, Span)
    decreases e, 1nat,
{
    (sexpr_view(e.0), e.1)
}

/// The models of the items of `s` from index `i` on.
pub open spec fn items_view(s: Seq<Spanned<SExpr>>, i: int) -> Seq<(SpecSExpr, Span)>
    decreases s, s.len() - i,
{
    if i < 0 || i >= s.len() {
        Seq::empty()
    } else {
        seq![spanned_view(s[i])] + items_view(s, i + 1)
    }
}

/// The model of an s-expression.
pub open spec fn sexpr_view(e: SExpr) -> SpecSExpr
    decreases e, 0nat,
{
    match e {
        SExpr::QuotedString(s) => SpecSExpr::QuotedString(s@),
        SExpr::Number(s) => SpecSExpr::Number(s@),
        SExpr::List(v) => SpecSExpr::List(items_view(v@, 0)),
        SExpr::Object(n, v) => SpecSExpr::Object(n@, items_view(v@, 0)),
        SExpr::Unexpected(t) => SpecSExpr::Unexpected(t@),
    }
}

pub proof fn lemma_items_view(s: Seq<Spanned<SExpr>>, i: int)
    requires
        0 <= i <= s.len(),
    ensures
        items_view(s, i).len() == s.len() - i,
        forall|k: int| 0 <= k < s.len() - i ==> #[trigger] items_view(s, i)[k] == spanned_view(s[i + k]),
    decreases s.len() - i,
{
    if i < s.len() {
        lemma_items_view(s, i + 1);
        assert forall|k: int| 0 <= k < s.len() - i implies #[trigger] items_view(s, i)[k] == spanned_view(s[i + k]) by {
            if k > 0 {
                assert(items_view(s, i)[k] == items_view(s, i + 1)[k - 1]);
            }
        }
    }
}

/// The models of the items of `s`, one for each.
pub proof fn lemma_items_view_all(s: Seq<Spanned<SExpr>>)
    ensures
        items_view(s, 0).len() == s.len(),
        forall|k: int| 0 <= k < s.len() ==> #[trigger] items_view(s, 0)[k] == spanned_view(s[k]),
{
    lemma_items_view(s, 0);
    assert forall|k: int| 0 <= k < s.len() implies #[trigger] items_view(s, 0)[k] == spanned_view(s[k]) by {
        assert(s[0 + k] == s[k]);
    }
}

/// A copy of a token.
pub fn copy_token(tok: &LexToken) -> (r: LexToken)
    ensures
        r@ == tok@,
{
    let kind = match &tok.kind {
        LexTokenType::Identifier(s) => LexTokenType::Identifier(s.clone()),
        LexTokenType::Keyword(s) => LexTokenType::Keyword(s.clone()),
        LexTokenType::Number(s) => LexTokenType::Number(s.clone()),
        LexTokenType::String(s) => LexTokenType::String(s.clone()),
        LexTokenType::OpenParen => LexTokenType::OpenParen,
        LexTokenType::CloseParen => LexTokenType::CloseParen,
        LexTokenType::OpenBracket => LexTokenType::OpenBracket,
        LexTokenType::CloseBracket => LexTokenType::CloseBracket,
        LexTokenType::Comma => LexTokenType::Comma,
        LexTokenType::Unexpected(c) => LexTokenType::Unexpected(*c),
    };
    LexToken { kind, span: tok.span }
}

/// A problem found while reading the input. Spans of the lexer and of the
/// s-expression parser are byte offsets into the source text, except where a
/// variant says that it counts token positions.
#[derive(Clone, Debug, PartialEq)]
pub enum Diagnostic {
    /// The input is not empty but holds only whitespace: a token was expected before its end.
    ExpectedToken { span: Span },
    /// A token that starts no s-expression, read as `SExpr::Unexpected`.
    UnexpectedToken { span: Span },
    /// An identifier whose first character is not an upper-case ASCII letter; `suggestion`
    /// is the identifier with that character upper-cased.
    IdentifierCase { span: Span, suggestion: String },
    /// A character of an identifier that is neither alphabetic nor numeric.
    InvalidIdentifierChar { span: Span, found: char },
    /// The tokens at positions `span.start..span.end` were skipped to reach what was expected.
    SkippedTokens { span: Span },
    /// No s-expression starts at token position `span.start`.
    ExpectedExpression { span: Span },
    /// An s-expression ended at token position `span.start`, before the last token.
    ExpectedEnd { span: Span },
    /// A `Close` contract that was given arguments.
    CloseWithArguments { span: Span },
    /// An s-expression that is neither `Close` nor `When` with three arguments.
    NotAContract { span: Span },
    /// A `When` whose third argument is not a contract.
    InvalidContinuation { span: Span },
}

/// The model of a [`Diagnostic`].
pub enum SpecDiagnostic {
    ExpectedToken { span: Span },
    UnexpectedToken { span: Span },
    IdentifierCase { span: Span, suggestion: Seq<char> },
    InvalidIdentifierChar { span: Span, found: char },
    SkippedTokens { span: Span },
    ExpectedExpression { span: Span },
    ExpectedEnd { span: Span },
    CloseWithArguments { span: Span },
    NotAContract { span: Span },
    InvalidContinuation { span: Span },
}

impl View for Diagnostic {
    type V = SpecDiagnostic;

    open spec fn view(&self) -> SpecDiagnostic {
        match self {
            Diagnostic::ExpectedToken { span } => SpecDiagnostic::ExpectedToken { span: *span },
            Diagnostic::UnexpectedToken { span } => SpecDiagnostic::UnexpectedToken { span: *span },
            Diagnostic::IdentifierCase { span, suggestion } => SpecDiagnostic::IdentifierCase {
                span: *span,
                suggestion: suggestion@,
            },
            Diagnostic::InvalidIdentifierChar { span, found } =>
                SpecDiagnostic::InvalidIdentifierChar { span: *span, found: *found },
            Diagnostic::SkippedTokens { span } => SpecDiagnostic::SkippedTokens { span: *span },
            Diagnostic::ExpectedExpression { span } => SpecDiagnostic::ExpectedExpression {
                span: *span,
            },
            Diagnostic::ExpectedEnd { span } => SpecDiagnostic::ExpectedEnd { span: *span },
            Diagnostic::CloseWithArguments { span } => SpecDiagnostic::CloseWithArguments {
                span: *span,
            },
            Diagnostic::NotAContract { span } => SpecDiagnostic::NotAContract { span: *span },
            Diagnostic::InvalidContinuation { span } => SpecDiagnostic::InvalidContinuation {
                span: *span,
            },
        }
    }
}

/// Where the problem that `d` describes is.
pub open spec fn span_of(d: SpecDiagnostic) -> Span {
    match d {
        SpecDiagnostic::ExpectedToken { span } => span,
        SpecDiagnostic::UnexpectedToken { span } => span,
        SpecDiagnostic::IdentifierCase { span, .. } => span,
        SpecDiagnostic::InvalidIdentifierChar { span, .. } => span,
        SpecDiagnostic::SkippedTokens { span } => span,
        SpecDiagnostic::ExpectedExpression { span } => span,
        SpecDiagnostic::ExpectedEnd { span } => span,
        SpecDiagnostic::CloseWithArguments { span } => span,
        SpecDiagnostic::NotAContract { span } => span,
        SpecDiagnostic::InvalidContinuation { span } => span,
    }
}

/// The message of a diagnostic, as the reader prints it.
pub open spec fn message_spec(d: SpecDiagnostic) -> Seq<char> {
    match d {
        SpecDiagnostic::ExpectedToken { .. } => "found end of input expected a token"@,
        SpecDiagnostic::UnexpectedToken { .. } => "This is crap"@,
        SpecDiagnostic::IdentifierCase { suggestion, .. } => "Did you mean "@ + suggestion + "?"@,
        SpecDiagnostic::InvalidIdentifierChar { found, .. } => "Invalid character in identifier: "@.push(found),
        SpecDiagnostic::SkippedTokens { .. } => "skipped tokens that were not expected here"@,
        SpecDiagnostic::ExpectedExpression { .. } => "expected an s-expression"@,
        SpecDiagnostic::ExpectedEnd { .. } => "expected end of input"@,
        SpecDiagnostic::CloseWithArguments { .. } => "The 'Close' does not expect any arguments."@,
        SpecDiagnostic::NotAContract { .. } => "Expected 'When' contract with three arguments or 'Close'"@,
        SpecDiagnostic::InvalidContinuation { .. } => "naww.."@,
    }
}

impl Diagnostic {
    /// Where the problem is.
    pub fn span(&self) -> (r: Span)
        ensures
            r == match self@ {
                SpecDiagnostic::ExpectedToken { span } => span,
                SpecDiagnostic::UnexpectedToken { span } => span,
                SpecDiagnostic::IdentifierCase { span, .. } => span,
                SpecDiagnostic::InvalidIdentifierChar { span, .. } => span,
                SpecDiagnostic::SkippedTokens { span } => span,
                SpecDiagnostic::ExpectedExpression { span } => span,
                SpecDiagnostic::ExpectedEnd { span } => span,
                SpecDiagnostic::CloseWithArguments { span } => span,
                SpecDiagnostic::NotAContract { span } => span,
                SpecDiagnostic::InvalidContinuation { span } => span,
            },
    {
        match self {
            Diagnostic::ExpectedToken { span } => *span,
            Diagnostic::UnexpectedToken { span } => *span,
            Diagnostic::IdentifierCase { span, .. } => *span,
            Diagnostic::InvalidIdentifierChar { span, .. } => *span,
            Diagnostic::SkippedTokens { span } => *span,
            Diagnostic::ExpectedExpression { span } => *span,
            Diagnostic::ExpectedEnd { span } => *span,
            Diagnostic::CloseWithArguments { span } => *span,
            Diagnostic::NotAContract { span } => *span,
            Diagnostic::InvalidContinuation { span } => *span,
        }
    }

    /// The message that describes the problem.
    pub fn message(&self) -> (r: String)
        ensures
            r@ == message_spec(self@),
    {
        match self {
            Diagnostic::ExpectedToken { .. } => String::from_str("found end of input expected a token"),
            Diagnostic::UnexpectedToken { .. } => String::from_str("This is crap"),
            Diagnostic::IdentifierCase { suggestion, .. } => {
                let mut r = String::from_str("Did you mean ");
                r.append(suggestion.as_str());
                r.append("?");
                r
            },
            Diagnostic::InvalidIdentifierChar { found, .. } => {
                let mut r = String::from_str("Invalid character in identifier: ");
                push_char(&mut r, *found);
                r
            },
            Diagnostic::SkippedTokens { .. } => String::from_str("skipped tokens that were not expected here"),
            Diagnostic::ExpectedExpression { .. } => String::from_str("expected an s-expression"),
            Diagnostic::ExpectedEnd { .. } => String::from_str("expected end of input"),
            Diagnostic::CloseWithArguments { .. } => String::from_str(
                "The 'Close' does not expect any arguments.",
            ),
            Diagnostic::NotAContract { .. } => String::from_str(
                "Expected 'When' contract with three arguments or 'Close'",
            ),
            Diagnostic::InvalidContinuation { .. } => String::from_str("naww.."),
        }
    }
}

/// The models of a sequence of diagnostics.
pub open spec fn diagnostics_view(d: Seq<Diagnostic>) -> Seq<SpecDiagnostic> {
    d.map_values(|x: Diagnostic| x@)
}

pub proof fn lemma_diags_push(s: Seq<Diagnostic>, x: Diagnostic)
    ensures
        diagnostics_view(s.push(x)) == diagnostics_view(s).push(x@),
{
    assert(diagnostics_view(s.push(x)) =~= diagnostics_view(s).push(x@));
}

pub proof fn lemma_diags_concat(s: Seq<Diagnostic>, u: Seq<Diagnostic>)
    ensures
        diagnostics_view(s + u) == diagnostics_view(s) + diagnostics_view(u),
{
    assert(diagnostics_view(s + u) =~= diagnostics_view(s) + diagnostics_view(u));
}

} // verus!
