//! Character classes and string building blocks used by the lexer and the parser.
use vstd::prelude::*;
use vstd::std_specs::iter::IteratorSpec;
use vstd::utf8::encode_scalar;
use vstd::utf8::encode_utf8;

verus! {

/// Unicode `White_Space`, the class that `char::is_whitespace` tests.
pub open spec fn is_ws(c: char) -> bool {
    let u = c as u32;
    ||| 0x09 <= u <= 0x0d
    ||| u == 0x20
    ||| u == 0x85
    ||| u == 0xa0
    ||| u == 0x1680
    ||| 0x2000 <= u <= 0x200a
    ||| u == 0x2028
    ||| u == 0x2029
    ||| u == 0x202f
    ||| u == 0x205f
    ||| u == 0x3000
}

/// Tests [`is_ws`].
pub fn char_is_whitespace(c: char) -> (r: bool)
    ensures
        r == is_ws(c),
{
    let u = c as u32;
    (0x09 <= u && u <= 0x0d) || u == 0x20 || u == 0x85 || u == 0xa0 || u == 0x1680 || (0x2000
        <= u && u <= 0x200a) || u == 0x2028 || u == 0x2029 || u == 0x202f || u == 0x205f || u
        == 0x3000
}

pub open spec fn is_ascii_letter(c: char) -> bool {
    ('a' <= c && c <= 'z') || ('A' <= c && c <= 'Z')
}

pub open spec fn is_ascii_upper(c: char) -> bool {
    'A' <= c && c <= 'Z'
}

pub open spec fn is_ascii_digit(c: char) -> bool {
    '0' <= c && c <= '9'
}

pub open spec fn is_ascii_char(c: char) -> bool {
    (c as u32) < 0x80
}

/// Whether `c` has the Unicode property XID_Start, as `unicode_ident::is_xid_start` reports it.
pub uninterp spec fn xid_start(c: char) -> bool;

/// Whether `c` has the Unicode property XID_Continue, as `unicode_ident::is_xid_continue` reports it.
pub uninterp spec fn xid_continue(c: char) -> bool;

/// What `char::is_alphanumeric` reports of `c`.
pub uninterp spec fn alphanumeric(c: char) -> bool;

/// The characters of the upper-case mapping of `c`, as `char::to_uppercase` yields them.
pub uninterp spec fn uppercase(c: char) -> Seq<char>;

/// Whether `c` may start a keyword: an ASCII letter, or a non-ASCII character with the
/// property XID_Start.
pub open spec fn ident_start(c: char) -> bool {
    if is_ascii_char(c) {
        is_ascii_letter(c)
    } else {
        xid_start(c)
    }
}

/// Whether `c` may continue a keyword: an ASCII letter, digit or `_`, or a non-ASCII
/// character with the property XID_Continue.
pub open spec fn ident_continue(c: char) -> bool {
    if is_ascii_char(c) {
        is_ascii_letter(c) || is_ascii_digit(c) || c == '_'
    } else {
        xid_continue(c)
    }
}

/// Whether `c` is alphabetic or numeric: an ASCII letter or digit, or a non-ASCII
/// character that `char::is_alphanumeric` accepts.
pub open spec fn is_alnum(c: char) -> bool {
    if is_ascii_char(c) {
        is_ascii_letter(c) || is_ascii_digit(c)
    } else {
        alphanumeric(c)
    }
}

/// The upper-case mapping of `c`: an ASCII lower-case letter maps to its upper-case
/// letter, any other ASCII character to itself, and other characters as
/// `char::to_uppercase` maps them.
pub open spec fn upper_of(c: char) -> Seq<char> {
    if 'a' <= c && c <= 'z' {
        seq![((c as u32) - 32) as char]
    } else if is_ascii_char(c) {
        seq![c]
    } else {
        uppercase(c)
    }
}

/// Calls `unicode_ident::is_xid_start`. The crate answers ASCII characters from a fixed
/// mask whose set bits are exactly the ASCII letters.
#[verifier::external_body]
pub(crate) fn is_xid_start(c: char) -> (r: bool)
    ensures
        r == ident_start(c),
        !is_ascii_char(c) ==> r == xid_start(c),
{
    unicode_ident::is_xid_start(c)
}

/// Calls `unicode_ident::is_xid_continue`. For ASCII characters the crate's mask holds
/// exactly the letters, the digits and `_`.
#[verifier::external_body]
pub(crate) fn is_xid_continue(c: char) -> (r: bool)
    ensures
        r == ident_continue(c),
        !is_ascii_char(c) ==> r == xid_continue(c),
{
    unicode_ident::is_xid_continue(c)
}

/// Calls `char::is_alphanumeric` (Unicode `Alphabetic` or `Numeric`). Among ASCII
/// characters these are exactly the letters and the digits.
#[verifier::external_body]
pub(crate) fn is_alphanumeric(c: char) -> (r: bool)
    ensures
        r == is_alnum(c),
        !is_ascii_char(c) ==> r == alphanumeric(c),
{
    c.is_alphanumeric()
}

/// Calls `char::to_uppercase` and collects what it yields.
#[verifier::external_body]
pub(crate) fn to_uppercase(c: char) -> (r: String)
    ensures
        r@ == upper_of(c),
        !is_ascii_char(c) ==> r@ == uppercase(c),
{
    c.to_uppercase().collect::<String>()
}

/// Calls `String::push`, which appends one character.
#[verifier::external_body]
pub(crate) fn push_char(s: &mut String, c: char)
    ensures
        final(s)@ == old(s)@.push(c),
{
    s.push(c)
}

/// The characters `v[from..to]` as a string.
pub fn string_of(v: &Vec<char>, from: usize, to: usize) -> (r: String)
    requires
        from <= to <= v.len(),
    ensures
        r@ == v@.subrange(from as int, to as int),
{
    let mut r = String::new();
    let mut k = from;
    while k < to
        invariant
            from <= k <= to <= v.len(),
            r@ == v@.subrange(from as int, k as int),
        decreases to - k,
    {
        push_char(&mut r, v[k]);
        k = k + 1;
        assert(r@ =~= v@.subrange(from as int, k as int));
    }
    r
}

/// The characters of `s`.
pub fn chars_of(s: &str) -> (v: Vec<char>)
    ensures
        v@ == s@,
{
    broadcast use vstd::string::group_string_axioms;

    let mut it = s.chars();
    let mut v: Vec<char> = Vec::new();
    loop
        invariant
            v@ + IteratorSpec::remaining(&it) == s@,
        decreases s@.len() - v@.len(),
    {
        match it.next() {
            Some(c) => {
                assert(v@.push(c) + IteratorSpec::remaining(&it) =~= v@ + seq![c]
                    + IteratorSpec::remaining(&it));
                v.push(c);
            },
            None => {
                assert(v@ =~= s@);
                return v;
            },
        }
    }
}

/// Bytes in the UTF-8 encoding of `c`.
pub open spec fn utf8_width(c: char) -> nat {
    encode_scalar(c as u32).len()
}

/// Bytes in the UTF-8 encoding of the first `i` characters of `s`.
pub open spec fn byte_offset(s: Seq<char>, i: int) -> nat
    decreases i,
{
    if i <= 0 {
        0
    } else {
        byte_offset(s, i - 1) + utf8_width(s[i - 1])
    }
}

/// Computes [`utf8_width`].
pub fn char_utf8_width(c: char) -> (w: usize)
    ensures
        w == utf8_width(c),
        1 <= w <= 4,
{
    proof {
        vstd::utf8::char_is_scalar(c);
    }
    let u = c as u32;
    if u <= 0x7f {
        1
    } else if u <= 0x7ff {
        2
    } else if u <= 0xffff {
        3
    } else {
        4
    }
}

pub proof fn lemma_byte_offset_total(s: Seq<char>, i: int)
    requires
        0 <= i <= s.len(),
    ensures
        byte_offset(s, i) + encode_utf8(s.subrange(i, s.len() as int)).len() == encode_utf8(
            s,
        ).len(),
    decreases i,
{
    if i == 0 {
        assert(s.subrange(0, s.len() as int) =~= s);
    } else {
        lemma_byte_offset_total(s, i - 1);
        assert(s.subrange(i - 1, s.len() as int).drop_first() =~= s.subrange(i, s.len() as int));
    }
}

pub proof fn lemma_byte_offset_mono(s: Seq<char>, i: int, j: int)
    requires
        i <= j,
    ensures
        byte_offset(s, i) <= byte_offset(s, j),
    decreases j - i,
{
    if i < j {
        lemma_byte_offset_mono(s, i, j - 1);
    }
}

/// The byte offsets of characters of a sequence whose encoding fits in memory fit in a `usize`.
pub proof fn lemma_byte_offset_fits(s: Seq<char>, i: int)
    requires
        0 <= i <= s.len(),
        encode_utf8(s).len() <= usize::MAX,
    ensures
        byte_offset(s, i) <= byte_offset(s, s.len() as int) <= usize::MAX,
{
    lemma_byte_offset_total(s, s.len() as int);
    lemma_byte_offset_mono(s, i, s.len() as int);
}

/// The length of the UTF-8 encoding of `s`, which is the length of a slice in memory.
pub fn byte_len(s: &str) -> (n: usize)
    ensures
        n == encode_utf8(s@).len(),
{
    let b = s.as_bytes();
    b.len()
}

} // verus!
