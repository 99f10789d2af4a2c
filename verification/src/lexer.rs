//! The lexer: source text to tokens.
use crate::chars::{
    byte_len, byte_offset, char_is_whitespace, char_utf8_width, chars_of, is_ascii_char, is_ascii_digit,
    ident_continue, ident_start, is_ascii_letter, is_ws, is_xid_continue, is_xid_start,
    lemma_byte_offset_fits,
    lemma_byte_offset_mono, lemma_byte_offset_total, string_of,
};
use crate::types::{
    tokens_view, Diagnostic, LexToken, LexTokenType, Span, SpecDiagnostic, SpecLexToken,
    SpecLexTokenType,
};
use vstd::prelude::*;
use vstd::utf8::encode_utf8;

verus! {

/// The classes of characters that the lexer scans runs of.
pub enum CharClass {
    /// `char::is_whitespace`.
    Whitespace,
    /// Anything but the space character `' '`.
    NotSpace,
    /// Characters that may continue a keyword (see [`ident_continue`]).
    XidContinue,
    /// `'0'..='9'`.
    Digit,
    /// Anything but `"` and `\`.
    StringBody,
}

pub open spec fn in_class(cls: CharClass, c: char) -> bool {
    match cls {
        CharClass::Whitespace => is_ws(c),
        CharClass::NotSpace => c != ' ',
        CharClass::XidContinue => ident_continue(c),
        CharClass::Digit => is_ascii_digit(c),
        CharClass::StringBody => c != '"' && c != '\\',
    }
}

/// Tests [`in_class`].
pub fn char_in_class(cls: &CharClass, c: char) -> (r: bool)
    ensures
        r == in_class(*cls, c),
{
    match cls {
        CharClass::Whitespace => char_is_whitespace(c),
        CharClass::NotSpace => c != ' ',
        CharClass::XidContinue => is_xid_continue(c),
        CharClass::Digit => '0' <= c && c <= '9',
        CharClass::StringBody => c != '"' && c != '\\',
    }
}

/// The end of the run of characters of class `cls` that starts at `k`.
pub open spec fn run_end(s: Seq<char>, k: int, cls: CharClass) -> int
    decreases s.len() - k,
{
    if 0 <= k < s.len() && in_class(cls, s[k]) {
        run_end(s, k + 1, cls)
    } else {
        k
    }
}

pub proof fn lemma_run_end(s: Seq<char>, k: int, cls: CharClass)
    requires
        0 <= k <= s.len(),
    ensures
        k <= run_end(s, k, cls) <= s.len(),
        forall|p: int| k <= p < run_end(s, k, cls) ==> in_class(cls, #[trigger] s[p]),
        run_end(s, k, cls) == s.len() || !in_class(cls, s[run_end(s, k, cls)]),
    decreases s.len() - k,
{
    if k < s.len() && in_class(cls, s[k]) {
        lemma_run_end(s, k + 1, cls);
    }
}

/// Computes [`run_end`].
pub fn scan(v: &Vec<char>, k: usize, cls: &CharClass) -> (r: usize)
    requires
        k <= v.len(),
    ensures
        r == run_end(v@, k as int, *cls),
        k <= r <= v.len(),
{
    let mut p = k;
    while p < v.len() && char_in_class(cls, v[p])
        invariant
            k <= p <= v.len(),
            run_end(v@, p as int, *cls) == run_end(v@, k as int, *cls),
        decreases v.len() - p,
    {
        p = p + 1;
    }
    p
}

/// Where the whitespace that starts at `i` ends.
pub open spec fn skip_ws(s: Seq<char>, i: int) -> int {
    run_end(s, i, CharClass::Whitespace)
}

/// The end of a decimal integer that starts at `p`: a non-zero digit followed by digits, or
/// a single `0`.
pub open spec fn int_end(s: Seq<char>, p: int) -> Option<int> {
    if 0 <= p < s.len() && '1' <= s[p] && s[p] <= '9' {
        Some(run_end(s, p + 1, CharClass::Digit))
    } else if 0 <= p < s.len() && s[p] == '0' {
        Some(p + 1)
    } else {
        None
    }
}

/// The end of a number that starts at `j`: an optional `-` and a decimal integer.
pub open spec fn number_end(s: Seq<char>, j: int) -> Option<int> {
    if 0 <= j < s.len() && s[j] == '-' {
        int_end(s, j + 1)
    } else {
        int_end(s, j)
    }
}

/// The end of a string that starts at `j`: `"`, characters other than `"` and `\`, and `"`.
pub open spec fn string_end(s: Seq<char>, j: int) -> Option<int> {
    if 0 <= j < s.len() && s[j] == '"' {
        let k = run_end(s, j + 1, CharClass::StringBody);
        if k < s.len() && s[k] == '"' {
            Some(k + 1)
        } else {
            None
        }
    } else {
        None
    }
}

/// The end of an identifier that starts at `j`: an ASCII letter followed by anything up to the
/// next space character or the end of input.
pub open spec fn identifier_end(s: Seq<char>, j: int) -> Option<int> {
    if 0 <= j < s.len() && is_ascii_letter(s[j]) {
        Some(run_end(s, j + 1, CharClass::NotSpace))
    } else {
        None
    }
}

/// The end of a keyword that starts at `j`: a character that may start one (see
/// [`ident_start`]) followed by characters that may continue one.
pub open spec fn keyword_end(s: Seq<char>, j: int) -> Option<int> {
    if 0 <= j < s.len() && ident_start(s[j]) {
        Some(run_end(s, j + 1, CharClass::XidContinue))
    } else {
        None
    }
}

/// The lexeme that starts at `j`, with its end. The forms are tried in this order:
/// identifier, keyword, number, string, the five punctuation characters, and
/// otherwise the single character as an unexpected one.
pub open spec fn lexeme(s: Seq<char>, j: int) -> (SpecLexTokenType, int) {
    if identifier_end(s, j) is Some {
        let k = identifier_end(s, j)->0;
        (SpecLexTokenType::Identifier(s.subrange(j, k)), k)
    } else if keyword_end(s, j) is Some {
        let k = keyword_end(s, j)->0;
        (SpecLexTokenType::Keyword(s.subrange(j, k)), k)
    } else if number_end(s, j) is Some {
        let k = number_end(s, j)->0;
        (SpecLexTokenType::Number(s.subrange(j, k)), k)
    } else if string_end(s, j) is Some {
        let k = string_end(s, j)->0;
        (SpecLexTokenType::String(s.subrange(j, k)), k)
    } else if s[j] == '(' {
        (SpecLexTokenType::OpenParen, j + 1)
    } else if s[j] == ')' {
        (SpecLexTokenType::CloseParen, j + 1)
    } else if s[j] == '[' {
        (SpecLexTokenType::OpenBracket, j + 1)
    } else if s[j] == ']' {
        (SpecLexTokenType::CloseBracket, j + 1)
    } else if s[j] == ',' {
        (SpecLexTokenType::Comma, j + 1)
    } else {
        (SpecLexTokenType::Unexpected(s[j]), j + 1)
    }
}

pub proof fn lemma_lexeme_advances(s: Seq<char>, j: int)
    requires
        0 <= j < s.len(),
    ensures
        j < lexeme(s, j).1 <= s.len(),
{
    lemma_run_end(s, j + 1, CharClass::NotSpace);
    lemma_run_end(s, j + 1, CharClass::XidContinue);
    lemma_run_end(s, j + 1, CharClass::StringBody);
    if j + 1 < s.len() {
        lemma_run_end(s, j + 2, CharClass::Digit);
    }
    if j < s.len() {
        lemma_run_end(s, j + 1, CharClass::Digit);
    }
}

/// The tokens read from position `i` on. Each token's span runs from where the
/// whitespace before it starts to where the whitespace after it ends, in bytes.
pub open spec fn lex_from(s: Seq<char>, i: int) -> Seq<SpecLexToken>
    decreases s.len() - i,
{
    if 0 <= i <= s.len() {
        let j = skip_ws(s, i);
        proof {
            lemma_run_end(s, i, CharClass::Whitespace);
        }
        if j >= s.len() {
            Seq::empty()
        } else {
            let (kind, k) = lexeme(s, j);
            proof {
                lemma_lexeme_advances(s, j);
                lemma_run_end(s, k, CharClass::Whitespace);
            }
            let m = skip_ws(s, k);
            seq![
                SpecLexToken {
                    kind,
                    span: Span { start: byte_offset(s, i) as usize, end: byte_offset(s, m) as usize },
                },
            ] + lex_from(s, m)
        }
    } else {
        Seq::empty()
    }
}

/// What the lexer makes of `s`: its tokens, or, for an input that is not empty and holds only
/// whitespace, the error that a token was expected at its end.
pub open spec fn lex_spec(s: Seq<char>) -> Result<Seq<SpecLexToken>, SpecDiagnostic> {
    if s.len() > 0 && skip_ws(s, 0) == s.len() {
        let b = byte_offset(s, s.len() as int) as usize;
        Err(SpecDiagnostic::ExpectedToken { span: Span { start: b, end: b } })
    } else {
        Ok(lex_from(s, 0))
    }
}

/// The model of the lexer's result.
pub open spec fn lex_result_view(r: Result<Vec<LexToken>, Diagnostic>) -> Result<
    Seq<SpecLexToken>,
    SpecDiagnostic,
> {
    match r {
        Ok(v) => Ok(tokens_view(v@)),
        Err(d) => Err(d@),
    }
}

/// Recognizes a number at `j`: an optional `-` and a decimal integer (a non-zero digit and
/// digits, or a single `0`). Returns where it ends.
pub fn positive_or_negative_number(s: &Vec<char>, j: usize) -> (r: Option<usize>)
    requires
        j <= s.len(),
    ensures
        match r {
            Some(k) => number_end(s@, j as int) == Some(k as int),
            None => number_end(s@, j as int) is None,
        },
{
    let p = if j < s.len() && s[j] == '-' {
        j + 1
    } else {
        j
    };
    if p < s.len() && '1' <= s[p] && s[p] <= '9' {
        Some(scan(s, p + 1, &CharClass::Digit))
    } else if p < s.len() && s[p] == '0' {
        Some(p + 1)
    } else {
        None
    }
}

/// Recognizes a quoted string at `j`: `"`, characters other than `"` and `\`, and `"`.
/// Returns where it ends.
pub fn quoted_string(s: &Vec<char>, j: usize) -> (r: Option<usize>)
    requires
        j <= s.len(),
    ensures
        match r {
            Some(k) => string_end(s@, j as int) == Some(k as int),
            None => string_end(s@, j as int) is None,
        },
{
    if j < s.len() && s[j] == '"' {
        let k = scan(s, j + 1, &CharClass::StringBody);
        if k < s.len() && s[k] == '"' {
            Some(k + 1)
        } else {
            None
        }
    } else {
        None
    }
}

/// Recognizes an identifier at `j`: an ASCII letter and everything up to the next space
/// character or the end of input. Returns where it ends.
pub fn identifier(s: &Vec<char>, j: usize) -> (r: Option<usize>)
    requires
        j <= s.len(),
    ensures
        match r {
            Some(k) => identifier_end(s@, j as int) == Some(k as int),
            None => identifier_end(s@, j as int) is None,
        },
{
    if j < s.len() && (('a' <= s[j] && s[j] <= 'z') || ('A' <= s[j] && s[j] <= 'Z')) {
        Some(scan(s, j + 1, &CharClass::NotSpace))
    } else {
        None
    }
}

/// Recognizes a keyword at `j`: an XID_Start character and XID_Continue characters.
fn keyword(s: &Vec<char>, j: usize) -> (r: Option<usize>)
    requires
        j <= s.len(),
    ensures
        match r {
            Some(k) => keyword_end(s@, j as int) == Some(k as int),
            None => keyword_end(s@, j as int) is None,
        },
{
    if j < s.len() && is_xid_start(s[j]) {
        Some(scan(s, j + 1, &CharClass::XidContinue))
    } else {
        None
    }
}

/// Reads the lexeme at `j`.
fn read_lexeme(s: &Vec<char>, j: usize) -> (r: (LexTokenType, usize))
    requires
        j < s.len(),
    ensures
        (r.0@, r.1 as int) == lexeme(s@, j as int),
{
    proof {
        lemma_lexeme_advances(s@, j as int);
        lemma_run_end(s@, j + 1, CharClass::NotSpace);
        lemma_run_end(s@, j + 1, CharClass::XidContinue);
    }
    if let Some(k) = identifier(s, j) {
        (LexTokenType::Identifier(string_of(s, j, k)), k)
    } else if let Some(k) = keyword(s, j) {
        (LexTokenType::Keyword(string_of(s, j, k)), k)
    } else if let Some(k) = positive_or_negative_number(s, j) {
        proof {
            lemma_lexeme_advances(s@, j as int);
        }
        (LexTokenType::Number(string_of(s, j, k)), k)
    } else if let Some(k) = quoted_string(s, j) {
        proof {
            lemma_lexeme_advances(s@, j as int);
        }
        (LexTokenType::String(string_of(s, j, k)), k)
    } else {
        let c = s[j];
        let kind = if c == '(' {
            LexTokenType::OpenParen
        } else if c == ')' {
            LexTokenType::CloseParen
        } else if c == '[' {
            LexTokenType::OpenBracket
        } else if c == ']' {
            LexTokenType::CloseBracket
        } else if c == ',' {
            LexTokenType::Comma
        } else {
            LexTokenType::Unexpected(c)
        };
        (kind, j + 1)
    }
}

/// Advances a byte offset from character position `from` to `to`.
fn advance_bytes(s: &Vec<char>, from: usize, b: usize, to: usize) -> (r: usize)
    requires
        from <= to <= s.len(),
        b == byte_offset(s@, from as int),
        byte_offset(s@, s.len() as int) <= usize::MAX,
    ensures
        r == byte_offset(s@, to as int),
{
    let mut p = from;
    let mut r = b;
    while p < to
        invariant
            from <= p <= to <= s.len(),
            r == byte_offset(s@, p as int),
            byte_offset(s@, s.len() as int) <= usize::MAX,
        decreases to - p,
    {
        proof {
            lemma_byte_offset_mono(s@, p + 1, s.len() as int);
        }
        r = r + char_utf8_width(s[p]);
        p = p + 1;
    }
    r
}

/// Splits `input` into tokens. Between tokens, whitespace is skipped and counted in the
/// spans of the tokens around it. An input that is not empty but holds only whitespace
/// yields the error that a token was expected at its end.
pub fn lexer(input: &str) -> (r: Result<Vec<LexToken>, Diagnostic>)
    ensures
        lex_result_view(r) == lex_spec(input@),
{
    let s = chars_of(input);
    let total = byte_len(input);
    proof {
        lemma_byte_offset_fits(s@, 0);
        lemma_byte_offset_total(s@, s@.len() as int);
        assert(s@.subrange(s@.len() as int, s@.len() as int) =~= Seq::<char>::empty());
        assert(encode_utf8(Seq::<char>::empty()) =~= Seq::<u8>::empty());
    }
    let n = s.len();
    let first = scan(&s, 0, &CharClass::Whitespace);
    if n > 0 && first == n {
        return Err(Diagnostic::ExpectedToken { span: Span::new(total, total) });
    }
    let mut toks: Vec<LexToken> = Vec::new();
    let mut i: usize = 0;
    let mut bi: usize = 0;
    loop
        invariant
            s@ == input@,
            i <= n == s.len(),
            bi == byte_offset(s@, i as int),
            byte_offset(s@, n as int) <= usize::MAX,
            !(n > 0 && skip_ws(s@, 0) == n),
            tokens_view(toks@) + lex_from(s@, i as int) == lex_from(s@, 0),
        decreases n - i,
    {
        let j = scan(&s, i, &CharClass::Whitespace);
        if j >= n {
            assert(lex_from(s@, i as int) =~= Seq::<SpecLexToken>::empty());
            assert(!(s@.len() > 0 && skip_ws(s@, 0) == s@.len()));
            assert(tokens_view(toks@) =~= lex_from(s@, 0));
            return Ok(toks);
        }
        let (kind, k) = read_lexeme(&s, j);
        proof {
            lemma_lexeme_advances(s@, j as int);
        }
        let m = scan(&s, k, &CharClass::Whitespace);
        let bm = advance_bytes(&s, i, bi, m);
        let tok = LexToken { kind, span: Span::new(bi, bm) };
        let ghost old_toks = toks@;
        toks.push(tok);
        proof {
            assert(tokens_view(toks@) =~= tokens_view(old_toks).push(tok@));
            assert(tokens_view(toks@) + lex_from(s@, m as int) =~= tokens_view(old_toks)
                + lex_from(s@, i as int));
        }
        i = m;
        bi = bm;
    }
}

/* Laws of the lexer */

/// The text a token carries: the lexeme of an identifier, keyword, number or string, the
/// punctuation character, or the unexpected character.
pub open spec fn kind_text(k: SpecLexTokenType) -> Seq<char> {
    match k {
        SpecLexTokenType::Identifier(x) => x,
        SpecLexTokenType::Keyword(x) => x,
        SpecLexTokenType::Number(x) => x,
        SpecLexTokenType::String(x) => x,
        SpecLexTokenType::OpenParen => seq!['('],
        SpecLexTokenType::CloseParen => seq![')'],
        SpecLexTokenType::OpenBracket => seq!['['],
        SpecLexTokenType::CloseBracket => seq![']'],
        SpecLexTokenType::Comma => seq![','],
        SpecLexTokenType::Unexpected(c) => seq![c],
    }
}

/// `tok` is read from `s` as whitespace `s[a..j]`, its text `s[j..k]` (which starts with a
/// character that is not whitespace), and whitespace `s[k..m]`; its span is the bytes of
/// `s[a..m]`.
pub open spec fn token_read_at(s: Seq<char>, tok: SpecLexToken, a: int, j: int, k: int, m: int) -> bool {
    &&& 0 <= a <= j < k <= m <= s.len()
    &&& tok.span.start == byte_offset(s, a)
    &&& tok.span.end == byte_offset(s, m)
    &&& forall|p: int| a <= p < j ==> is_ws(#[trigger] s[p])
    &&& !is_ws(s[j])
    &&& forall|p: int| k <= p < m ==> is_ws(#[trigger] s[p])
    &&& kind_text(tok.kind) == s.subrange(j, k)
}

/// The first character `s[j]` of a token's text decides whether it is an identifier (an
/// ASCII letter) or a number (a digit, or `-` and a digit); an identifier's text `s[j..k]`
/// holds no space and is followed by a space or the end of the input.
pub open spec fn first_char_decides(s: Seq<char>, kind: SpecLexTokenType, j: int, k: int) -> bool {
    &&& (kind is Identifier <==> is_ascii_letter(s[j]))
    &&& (kind is Number <==> (is_ascii_digit(s[j]) || (s[j] == '-' && j + 1 < s.len()
        && is_ascii_digit(s[j + 1]))))
    &&& kind is Identifier ==> (k == s.len() || s[k] == ' ') && forall|p: int|
        j <= p < k ==> #[trigger] s[p] != ' '
}

/// `tok` reads back from `s` (see [`token_read_at`]) at some positions.
pub open spec fn token_reads_back(s: Seq<char>, tok: SpecLexToken) -> bool {
    exists|a: int, j: int, k: int, m: int| #[trigger] token_read_at(s, tok, a, j, k, m)
}

/// `tok` reads back from `s` at some positions at which its first character decides its
/// kind (see [`first_char_decides`]).
pub open spec fn token_kind_from_first_char(s: Seq<char>, tok: SpecLexToken) -> bool {
    exists|a: int, j: int, k: int, m: int|
        #[trigger] token_read_at(s, tok, a, j, k, m) && first_char_decides(s, tok.kind, j, k)
}

/// The lexeme at `j` carries the text it was read from, and its first character decides
/// its kind.
pub proof fn lemma_lexeme_text(s: Seq<char>, j: int)
    requires
        0 <= j < s.len(),
    ensures
        kind_text(lexeme(s, j).0) == s.subrange(j, lexeme(s, j).1),
        first_char_decides(s, lexeme(s, j).0, j, lexeme(s, j).1),
{
    lemma_lexeme_advances(s, j);
    lemma_run_end(s, j + 1, CharClass::NotSpace);
    let c = s[j];
    assert(s.subrange(j, j + 1) =~= seq![c]);
    if is_ascii_digit(c) {
        assert(is_ascii_char(c));
    }
    if c == '-' {
        assert(is_ascii_char(c));
    }
}

/// The tokens read from `i` on each read back from the input, their first characters
/// deciding their kinds.
pub proof fn lemma_lex_from_reads(s: Seq<char>, i: int)
    requires
        0 <= i <= s.len(),
        encode_utf8(s).len() <= usize::MAX,
    ensures
        forall|q: int|
            0 <= q < lex_from(s, i).len() ==> token_kind_from_first_char(s, #[trigger] lex_from(s, i)[q]),
    decreases s.len() - i,
{
    lemma_run_end(s, i, CharClass::Whitespace);
    let j = skip_ws(s, i);
    if j < s.len() {
        let k = lexeme(s, j).1;
        lemma_lexeme_advances(s, j);
        lemma_lexeme_text(s, j);
        lemma_run_end(s, k, CharClass::Whitespace);
        let m = skip_ws(s, k);
        lemma_byte_offset_fits(s, i);
        lemma_byte_offset_fits(s, m);
        lemma_lex_from_reads(s, m);
        let rest = lex_from(s, m);
        assert(lex_from(s, i) == seq![lex_from(s, i)[0]] + rest);
        assert(token_read_at(s, lex_from(s, i)[0], i, j, k, m));
        assert forall|q: int| 0 <= q < lex_from(s, i).len() implies token_kind_from_first_char(
            s,
            #[trigger] lex_from(s, i)[q],
        ) by {
            if q == 0 {
                assert(token_read_at(s, lex_from(s, i)[q], i, j, k, m) && first_char_decides(
                    s,
                    lex_from(s, i)[q].kind,
                    j,
                    k,
                ));
            } else {
                assert(lex_from(s, i)[q] == rest[q - 1]);
            }
        }
    } else {
        assert(lex_from(s, i).len() == 0);
    }
}

/// Each token reads back from the input: its span covers whitespace, the token's text, and
/// whitespace, and that text is the identifier, keyword, number or string the token holds,
/// or its punctuation or unexpected character.
pub proof fn law_tokens_read_back(s: Seq<char>)
    requires
        encode_utf8(s).len() <= usize::MAX,
    ensures
        lex_spec(s) matches Ok(t) ==> forall|q: int| 0 <= q < t.len() ==> token_reads_back(s, #[trigger] t[q]),
{
    lemma_lex_from_reads(s, 0);
    if let Ok(t) = lex_spec(s) {
        assert(t == lex_from(s, 0));
        assert forall|q: int| 0 <= q < t.len() implies token_reads_back(s, #[trigger] t[q]) by {
            assert(token_kind_from_first_char(s, lex_from(s, 0)[q]));
            let (a, j, k, m) = choose|a: int, j: int, k: int, m: int|
                #[trigger] token_read_at(s, t[q], a, j, k, m) && first_char_decides(s, t[q].kind, j, k);
            assert(token_read_at(s, t[q], a, j, k, m));
        }
    }
}

/// The first character of a token's text decides its kind: an ASCII letter starts exactly
/// the identifiers, a digit or `-` followed by a digit exactly the numbers; and an
/// identifier runs to the next space or the end of the input.
pub proof fn law_first_char_decides_kind(s: Seq<char>)
    requires
        encode_utf8(s).len() <= usize::MAX,
    ensures
        lex_spec(s) matches Ok(t) ==> forall|q: int|
            0 <= q < t.len() ==> token_kind_from_first_char(s, #[trigger] t[q]),
{
    lemma_lex_from_reads(s, 0);
    if let Ok(t) = lex_spec(s) {
        assert(t == lex_from(s, 0));
    }
}

/// The Unicode White_Space property, listed by code point: tab, line feed, vertical tab,
/// form feed, carriage return, space, next line, no-break space, ogham space mark, the
/// spaces U+2000 to U+200A, line and paragraph separators, narrow no-break space, medium
/// mathematical space, ideographic space.
pub open spec fn unicode_white_space(c: char) -> bool {
    let u = c as u32;
    ||| u == 0x09
    ||| u == 0x0a
    ||| u == 0x0b
    ||| u == 0x0c
    ||| u == 0x0d
    ||| u == 0x20
    ||| u == 0x85
    ||| u == 0xa0
    ||| u == 0x1680
    ||| 0x2000 <= u <= 0x200a
    ||| u == 0x2028
    ||| u == 0x2029
    ||| u == 0x202f
    ||| u == 0x205f
    ||| u == 0x3000
}

/// No token's text starts with a White_Space character (see [`unicode_white_space`]):
/// such characters only separate tokens, and each token's text is not empty.
pub proof fn law_white_space_never_starts_a_token(s: Seq<char>)
    requires
        encode_utf8(s).len() <= usize::MAX,
    ensures
        lex_spec(s) matches Ok(t) ==> forall|q: int|
            0 <= q < t.len() ==> kind_text(#[trigger] t[q].kind).len() > 0
                && !unicode_white_space(kind_text(t[q].kind)[0]),
{
    lemma_lex_from_reads(s, 0);
    if let Ok(t) = lex_spec(s) {
        assert(t == lex_from(s, 0));
        assert forall|q: int| 0 <= q < t.len() implies kind_text(#[trigger] t[q].kind).len() > 0
            && !unicode_white_space(kind_text(t[q].kind)[0]) by {
            assert(token_kind_from_first_char(s, lex_from(s, 0)[q]));
            let (a, j, k, m) = choose|a: int, j: int, k: int, m: int|
                #[trigger] token_read_at(s, t[q], a, j, k, m) && first_char_decides(s, t[q].kind, j, k);
            assert(kind_text(t[q].kind)[0] == s[j]);
        }
    }
}

/// `tok` reads back from `s` (see [`token_read_at`]) at positions where the characters
/// around its text are all White_Space (see [`unicode_white_space`]).
pub open spec fn token_padded_by_white_space(s: Seq<char>, tok: SpecLexToken) -> bool {
    exists|a: int, j: int, k: int, m: int|
        #[trigger] token_read_at(s, tok, a, j, k, m) && (forall|p: int|
            a <= p < j ==> unicode_white_space(#[trigger] s[p])) && (forall|p: int|
            k <= p < m ==> unicode_white_space(#[trigger] s[p]))
}

/// Only White_Space characters (see [`unicode_white_space`]) are skipped: each token's span
/// is White_Space characters, the token's text, and White_Space characters. With the spans
/// tiling the input, every character of the input is either White_Space or part of a
/// token's text.
pub proof fn law_only_white_space_is_skipped(s: Seq<char>)
    requires
        encode_utf8(s).len() <= usize::MAX,
    ensures
        lex_spec(s) matches Ok(t) ==> forall|q: int|
            0 <= q < t.len() ==> token_padded_by_white_space(s, #[trigger] t[q]),
{
    lemma_lex_from_reads(s, 0);
    if let Ok(t) = lex_spec(s) {
        assert(t == lex_from(s, 0));
        assert forall|q: int| 0 <= q < t.len() implies token_padded_by_white_space(s, #[trigger] t[q]) by {
            assert(token_kind_from_first_char(s, lex_from(s, 0)[q]));
            let (a, j, k, m) = choose|a: int, j: int, k: int, m: int|
                #[trigger] token_read_at(s, t[q], a, j, k, m) && first_char_decides(s, t[q].kind, j, k);
            assert forall|p: int| a <= p < j implies unicode_white_space(#[trigger] s[p]) by {
                assert(is_ws(s[p]));
            }
            assert forall|p: int| k <= p < m implies unicode_white_space(#[trigger] s[p]) by {
                assert(is_ws(s[p]));
            }
            assert(token_read_at(s, t[q], a, j, k, m));
        }
    }
}

/// A number read at `j` takes all of `s[j..]` exactly when `s[j..]` is an optional `-`
/// followed by either a single `0` or a non-zero digit and digits.
pub proof fn law_number_whole(s: Seq<char>, j: int)
    requires
        0 <= j <= s.len(),
    ensures
        number_end(s, j) == Some(s.len() as int) <==> ({
            let p = if j < s.len() && s[j] == '-' { j + 1 } else { j };
            p < s.len() && ((s[p] == '0' && p + 1 == s.len()) || ('1' <= s[p] && s[p] <= '9'
                && forall|q: int| p < q < s.len() ==> is_ascii_digit(#[trigger] s[q])))
        }),
{
    let p = if j < s.len() && s[j] == '-' { j + 1 } else { j };
    if p < s.len() {
        lemma_run_end(s, p + 1, CharClass::Digit);
        let r = run_end(s, p + 1, CharClass::Digit);
        if '1' <= s[p] && s[p] <= '9' && forall|q: int| p < q < s.len() ==> is_ascii_digit(
            #[trigger] s[q],
        ) {
            if r < s.len() {
                assert(is_ascii_digit(s[r]));
            }
        }
    }
}

/// A quoted string read at `j` takes all of `s[j..]` exactly when `s[j..]` is a `"`,
/// characters other than `"` and `\`, and a `"`.
pub proof fn law_quoted_string_whole(s: Seq<char>, j: int)
    requires
        0 <= j <= s.len(),
    ensures
        string_end(s, j) == Some(s.len() as int) <==> (s.len() - j >= 2 && s[j] == '"' && s[s.len()
            - 1] == '"' && forall|p: int| j < p < s.len() - 1 ==> #[trigger] s[p] != '"' && s[p] != '\\'),
{
    if j < s.len() {
        lemma_run_end(s, j + 1, CharClass::StringBody);
        let r = run_end(s, j + 1, CharClass::StringBody);
        if s.len() - j >= 2 && s[j] == '"' && s[s.len() - 1] == '"' && forall|p: int|
            j < p < s.len() - 1 ==> #[trigger] s[p] != '"' && s[p] != '\\' {
            if r < s.len() - 1 {
                assert(in_class(CharClass::StringBody, s[r]));
            }
            assert(r == s.len() - 1);
        }
    }
}

/// An identifier is read at `j` exactly when `s[j]` is an ASCII letter; it then runs to the
/// next space or the end: its text holds no space, and a space or the end follows it. So it
/// takes all of `s[j..]` exactly when that starts with an ASCII letter and holds no space.
pub proof fn law_identifier_extent(s: Seq<char>, j: int)
    requires
        0 <= j <= s.len(),
    ensures
        identifier_end(s, j) is Some <==> (j < s.len() && is_ascii_letter(s[j])),
        identifier_end(s, j) matches Some(k) ==> j < k <= s.len() && (k == s.len() || s[k] == ' ')
            && forall|p: int| j <= p < k ==> #[trigger] s[p] != ' ',
        identifier_end(s, j) == Some(s.len() as int) <==> (j < s.len() && is_ascii_letter(s[j])
            && forall|p: int| j <= p < s.len() ==> #[trigger] s[p] != ' '),
{
    if j < s.len() {
        lemma_run_end(s, j + 1, CharClass::NotSpace);
        let r = run_end(s, j + 1, CharClass::NotSpace);
        if is_ascii_letter(s[j]) && forall|p: int| j <= p < s.len() ==> #[trigger] s[p] != ' ' {
            if r < s.len() {
                assert(s[r] != ' ');
            }
        }
    }
}

/// The lexer fails exactly on an input that is not empty and holds only whitespace.
pub proof fn law_lexer_fails_only_on_blank_input(s: Seq<char>)
    ensures
        lex_spec(s) is Err <==> (s.len() > 0 && forall|j: int| 0 <= j < s.len() ==> is_ws(#[trigger] s[j])),
{
    lemma_run_end(s, 0, CharClass::Whitespace);
}

/// A run of whitespace ends where the next one starts.
pub proof fn lemma_skip_ws_idem(s: Seq<char>, k: int)
    requires
        0 <= k <= s.len(),
    ensures
        skip_ws(s, skip_ws(s, k)) == skip_ws(s, k),
{
    lemma_run_end(s, k, CharClass::Whitespace);
}

pub proof fn lemma_lex_from_tiles(s: Seq<char>, i: int)
    requires
        0 <= i <= s.len(),
        encode_utf8(s).len() <= usize::MAX,
    ensures
        lex_from(s, i).len() == 0 <==> skip_ws(s, i) >= s.len(),
        lex_from(s, i).len() > 0 ==> lex_from(s, i)[0].span.start == byte_offset(s, i)
            && lex_from(s, i).last().span.end == byte_offset(s, s.len() as int),
        forall|k: int|
            0 < k < lex_from(s, i).len() ==> #[trigger] lex_from(s, i)[k].span.start == lex_from(
                s,
                i,
            )[k - 1].span.end,
    decreases s.len() - i,
{
    lemma_run_end(s, i, CharClass::Whitespace);
    lemma_byte_offset_fits(s, i);
    let j = skip_ws(s, i);
    if j < s.len() {
        let k = lexeme(s, j).1;
        lemma_lexeme_advances(s, j);
        lemma_run_end(s, k, CharClass::Whitespace);
        let m = skip_ws(s, k);
        lemma_byte_offset_fits(s, m);
        lemma_skip_ws_idem(s, k);
        lemma_lex_from_tiles(s, m);
        let t = lex_from(s, i);
        let rest = lex_from(s, m);
        assert(t == seq![t[0]] + rest);
        assert(t[0].span.end == byte_offset(s, m) as usize);
        assert(rest.len() > 0 ==> rest[0].span.start == byte_offset(s, m));
        assert forall|q: int| 0 < q < t.len() implies #[trigger] t[q].span.start == t[q - 1].span.end by {
            assert(t[q] == rest[q - 1]);
            if q > 1 {
                assert(t[q - 1] == rest[q - 2]);
                assert(rest[q - 1].span.start == rest[q - 2].span.end);
            }
        }
        if rest.len() == 0 {
            assert(m == s.len());
        }
    }
}

/// The spans of the tokens tile the input: the first starts at byte 0, each ends where the
/// next starts, and the last ends at the end of the input; there are no tokens only for an
/// empty input.
pub proof fn law_token_spans_tile_input(s: Seq<char>)
    requires
        encode_utf8(s).len() <= usize::MAX,
    ensures
        lex_spec(s) matches Ok(t) ==> {
            &&& (t.len() == 0 <==> s.len() == 0)
            &&& t.len() > 0 ==> t[0].span.start == 0 && t.last().span.end == encode_utf8(s).len()
            &&& forall|k: int| 0 < k < t.len() ==> #[trigger] t[k].span.start == t[k - 1].span.end
        },
{
    lemma_lex_from_tiles(s, 0);
    lemma_run_end(s, 0, CharClass::Whitespace);
    lemma_byte_offset_total(s, s.len() as int);
    assert(s.subrange(s.len() as int, s.len() as int) =~= Seq::<char>::empty());
    assert(encode_utf8(Seq::<char>::empty()) =~= Seq::<u8>::empty());
}

} // verus!
