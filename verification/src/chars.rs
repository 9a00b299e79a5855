//! Character classification and conversions between strings and
//! character vectors.
//!
//! The tokenizer and the scalar decoders work on `Vec<char>` / `Seq<char>`.
//! Unicode character classes cannot be written out in full, so outside the
//! ASCII range they are named by uninterpreted functions; inside the ASCII
//! range the classes are stated exactly, which is what the proofs rely on.

use vstd::prelude::*;

verus! {

broadcast use vstd::string::group_string_axioms;

/// Whether a character above the ASCII range is alphanumeric
/// (`char::is_alphanumeric`); left abstract.
pub uninterp spec fn alnum_above_ascii(c: char) -> bool;

/// Whether a character above the ASCII range is numeric
/// (`char::is_numeric`); left abstract.
pub uninterp spec fn numeric_above_ascii(c: char) -> bool;

/// Whether a character above the ASCII range is whitespace
/// (`char::is_whitespace`); left abstract.
pub uninterp spec fn whitespace_above_ascii(c: char) -> bool;

/// The class accepted by `char::is_alphanumeric`: within ASCII exactly
/// the letters and digits.
pub open spec fn is_alnum_char(c: char) -> bool {
    if (c as u32) < 128 {
        ('a' <= c && c <= 'z') || ('A' <= c && c <= 'Z') || ('0' <= c && c <= '9')
    } else {
        alnum_above_ascii(c)
    }
}

/// The class accepted by `char::is_numeric`: within ASCII exactly the digits.
pub open spec fn is_numeric_char(c: char) -> bool {
    if (c as u32) < 128 {
        '0' <= c && c <= '9'
    } else {
        numeric_above_ascii(c)
    }
}

/// The class accepted by `char::is_whitespace`: within ASCII exactly the six
/// `White_Space` characters.
pub open spec fn is_ws_char(c: char) -> bool {
    if (c as u32) < 128 {
        c == ' ' || c == '\t' || c == '\n' || c == '\r' || c == '\u{b}' || c == '\u{c}'
    } else {
        whitespace_above_ascii(c)
    }
}

/// Relies on `char::is_alphanumeric`: true exactly for Unicode letters and
/// numbers; for ASCII these are the letters and digits.
#[verifier::external_body]
pub fn char_is_alnum(c: char) -> (r: bool)
    ensures
        r == is_alnum_char(c),
        (c as u32) >= 128 ==> r == alnum_above_ascii(c),
{
    c.is_alphanumeric()
}

/// Relies on `char::is_numeric`: true exactly for Unicode numbers; for ASCII
/// these are the digits.
#[verifier::external_body]
pub fn char_is_numeric(c: char) -> (r: bool)
    ensures
        r == is_numeric_char(c),
        (c as u32) >= 128 ==> r == numeric_above_ascii(c),
{
    c.is_numeric()
}

/// Relies on `char::is_whitespace`: true exactly for Unicode `White_Space`
/// characters; for ASCII these are space, tab, newline, carriage return,
/// vertical tab and form feed.
#[verifier::external_body]
pub fn char_is_ws(c: char) -> (r: bool)
    ensures
        r == is_ws_char(c),
        (c as u32) >= 128 ==> r == whitespace_above_ascii(c),
{
    c.is_whitespace()
}

/// Relies on `char::from_u32`: `Some` exactly for Unicode scalar values
/// (below the surrogate range, or between it and `0x10FFFF`), and the
/// returned character carries the given scalar value.
#[verifier::external_body]
pub fn char_from_u32(v: u32) -> (r: Option<char>)
    ensures
        r is Some <==> (v < 0xD800 || (0xE000 <= v && v <= 0x10FFFF)),
        r is Some ==> r->0 as u32 == v && r->0 == v as char,
{
    char::from_u32(v)
}

/// Relies on `String`'s `FromIterator<char>`: collecting characters yields
/// the string holding exactly those characters.
#[verifier::external_body]
pub fn string_from_chars(cs: &Vec<char>) -> (r: String)
    ensures
        r@ == cs@,
{
    cs.iter().collect()
}

/// The characters of a string, as a vector.
pub fn str_to_chars(s: &str) -> (r: Vec<char>)
    ensures
        r@ == s@,
{
    let n = s.unicode_len();
    let mut out: Vec<char> = Vec::new();
    let mut i: usize = 0;
    while i < n
        invariant
            n == s@.len(),
            i <= n,
            out@ =~= s@.take(i as int),
        decreases n - i,
    {
        out.push(s.get_char(i));
        i += 1;
        proof {
            assert(out@ =~= s@.take(i as int));
        }
    }
    proof {
        assert(out@ =~= s@);
    }
    out
}

/// The characters `v[from..to]`, as a fresh vector.
pub fn subvec(v: &Vec<char>, from: usize, to: usize) -> (r: Vec<char>)
    requires
        from <= to <= v@.len(),
    ensures
        r@ == v@.subrange(from as int, to as int),
{
    let mut out: Vec<char> = Vec::new();
    let mut i: usize = from;
    while i < to
        invariant
            from <= i <= to <= v@.len(),
            out@ =~= v@.subrange(from as int, i as int),
        decreases to - i,
    {
        out.push(v[i]);
        i += 1;
        proof {
            assert(out@ =~= v@.subrange(from as int, i as int));
        }
    }
    out
}

} // verus!
