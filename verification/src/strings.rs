//! Scalar decoders: quoted strings with escapes, numeric and bare literals,
//! and the keyword values.

use vstd::prelude::*;

use crate::chars::{char_from_u32, char_is_numeric, is_numeric_char, str_to_chars};
use crate::error::{GParseError, ParseError, ParseStringError};
use crate::value::{GValue, Value};
use vstd::string::StrSliceExecFns;
use vstd::string::StringExecFns;

verus! {

// ---------------------------------------------------------------------------
// Escape decoding
// ---------------------------------------------------------------------------
/// The decoder state between two input characters.
#[derive(Debug, Clone, Copy)]
pub enum State {
    /// Outside any escape.
    Normal,
    /// After a backslash.
    Escape,
    /// Inside `\xHH`: the digits read so far and their count.
    Ascii(u8, u32),
    /// After `\u`, expecting `{`.
    EnterUnicode,
    /// Inside `\u{…}`: the digits read so far and their count.
    Unicode(u32, u32),
}

/// The mathematical value of a [`State`].
pub enum GState {
    Normal,
    Escape,
    Ascii(int, int),
    EnterUnicode,
    Unicode(int, int),
}

impl View for State {
    type V = GState;

    open spec fn view(&self) -> GState {
        match self {
            State::Normal => GState::Normal,
            State::Escape => GState::Escape,
            State::Ascii(cp, n) => GState::Ascii(*cp as int, *n as int),
            State::EnterUnicode => GState::EnterUnicode,
            State::Unicode(cp, n) => GState::Unicode(*cp as int, *n as int),
        }
    }
}

/// `16^n`, the number of values of `n` hexadecimal digits.
pub open spec fn p16(n: int) -> int
    decreases n,
{
    if n <= 0 {
        1
    } else {
        16 * p16(n - 1)
    }
}

proof fn lemma_p16_vals()
    ensures
        p16(0) == 1,
        p16(1) == 16,
        p16(2) == 256,
        p16(3) == 0x1000,
        p16(4) == 0x10000,
        p16(5) == 0x100000,
        p16(6) == 0x1000000,
{
    reveal_with_fuel(p16, 8);
}

/// The states the decoder can actually be in: accumulated escape digits
/// stay within the count read so far.
pub open spec fn state_wf(st: GState) -> bool {
    match st {
        GState::Ascii(cp, n) => (n == 0 && cp == 0) || (n == 1 && 0 <= cp <= 15),
        GState::Unicode(cp, n) => 0 <= n <= 6 && 0 <= cp < p16(n),
        _ => true,
    }
}

/// The value of a hexadecimal digit, as `char::to_digit(16)` gives it.
pub open spec fn hex_val(c: char) -> Option<int> {
    if '0' <= c && c <= '9' {
        Some(c as int - '0' as int)
    } else if 'a' <= c && c <= 'f' {
        Some(10 + c as int - 'a' as int)
    } else if 'A' <= c && c <= 'F' {
        Some(10 + c as int - 'A' as int)
    } else {
        None
    }
}

/// One step of the escape decoder: from a state and the next character to
/// the next state and the characters it emits, or the failure.
pub open spec fn unesc_step(st: GState, c: char) -> Result<(GState, Seq<char>), ParseStringError> {
    match st {
        GState::Normal => if c == '\\' {
            Ok((GState::Escape, seq![]))
        } else {
            Ok((GState::Normal, seq![c]))
        },
        GState::Escape => {
            if c == 'n' {
                Ok((GState::Normal, seq!['\n']))
            } else if c == 't' {
                Ok((GState::Normal, seq!['\t']))
            } else if c == 'r' {
                Ok((GState::Normal, seq!['\r']))
            } else if c == '\\' {
                Ok((GState::Normal, seq!['\\']))
            } else if c == 'x' {
                Ok((GState::Ascii(0, 0), seq![]))
            } else if c == 'u' {
                Ok((GState::EnterUnicode, seq![]))
            } else {
                Err(ParseStringError::UnknownEscape(c))
            }
        },
        GState::Ascii(cp, n) => match hex_val(c) {
            None => Err(ParseStringError::NotHexDigit),
            Some(d) => {
                let cp2 = cp * 16 + d;
                if n + 1 == 2 {
                    if cp2 == 0 || cp2 >= 0x80 {
                        Err(ParseStringError::AsciiNotValid(cp2 as u8))
                    } else {
                        Ok((GState::Normal, seq![cp2 as char]))
                    }
                } else {
                    Ok((GState::Ascii(cp2, n + 1), seq![]))
                }
            },
        },
        GState::EnterUnicode => if c == '{' {
            Ok((GState::Unicode(0, 0), seq![]))
        } else {
            Err(ParseStringError::ExpectedCurlyBracket)
        },
        GState::Unicode(cp, n) => if c == '}' {
            if cp > 0x10FFFF {
                Err(ParseStringError::UnicodeOutOfBound(cp as u32))
            } else if 0xD800 <= cp && cp < 0xE000 {
                Err(ParseStringError::UnicodeNotValid(cp as u32))
            } else {
                Ok((GState::Normal, seq![cp as char]))
            }
        } else {
            match hex_val(c) {
                None => Err(ParseStringError::NotHexDigit),
                Some(d) => {
                    let cp2 = cp * 16 + d;
                    if n + 1 > 6 {
                        Err(ParseStringError::UnicodeMoreThanSixDigits)
                    } else {
                        Ok((GState::Unicode(cp2, n + 1), seq![]))
                    }
                },
            }
        },
    }
}

/// Runs the escape decoder from `st` over `s`. An escape left unfinished at
/// the end of the input is dropped, together with anything it had
/// accumulated.
pub open spec fn spec_unesc_from(st: GState, s: Seq<char>) -> Result<
    Seq<char>,
    ParseStringError,
>
    decreases s.len(),
{
    if s.len() == 0 {
        Ok(seq![])
    } else {
        match unesc_step(st, s[0]) {
            Err(e) => Err(e),
            Ok((st2, out)) => match spec_unesc_from(st2, s.drop_first()) {
                Err(e) => Err(e),
                Ok(rest) => Ok(out + rest),
            },
        }
    }
}

/// The decoded form of an escaped string interior.
pub open spec fn spec_unescape(s: Seq<char>) -> Result<Seq<char>, ParseStringError> {
    spec_unesc_from(GState::Normal, s)
}

/// A step from a well-formed state stays well-formed.
proof fn lemma_step_wf(st: GState, c: char)
    requires
        state_wf(st),
        unesc_step(st, c) is Ok,
    ensures
        state_wf(unesc_step(st, c)->Ok_0.0),
{
    lemma_p16_vals();
}

/// The digit value `char::to_digit(16)` computes.
pub fn to_digit16(c: char) -> (r: Option<u32>)
    ensures
        r is Some <==> hex_val(c) is Some,
        r is Some ==> r->0 as int == hex_val(c)->0,
        r is Some ==> r->0 <= 15,
{
    if c >= '0' && c <= '9' {
        Some(c as u32 - '0' as u32)
    } else if c >= 'a' && c <= 'f' {
        Some(c as u32 - 'a' as u32 + 10)
    } else if c >= 'A' && c <= 'F' {
        Some(c as u32 - 'A' as u32 + 10)
    } else {
        None
    }
}

/// The escape decoder's mutable state: the output gathered so far and the
/// position within the current escape.
pub struct UnescapeString {
    state: State,
    output: Vec<char>,
}

impl UnescapeString {
    /// The current state.
    pub closed spec fn gstate(&self) -> GState {
        self.state@
    }

    /// The characters decoded so far.
    pub closed spec fn decoded(&self) -> Seq<char> {
        self.output@
    }

    /// A fresh decoder, outside any escape.
    pub fn new(capacity: usize) -> (r: Self)
        ensures
            r.gstate() == GState::Normal,
            r.decoded() == Seq::<char>::empty(),
    {
        UnescapeString { state: State::Normal, output: Vec::with_capacity(capacity) }
    }

    /// Emits one decoded character and leaves any escape.
    pub fn push_char(&mut self, c: char)
        ensures
            final(self).gstate() == GState::Normal,
            final(self).decoded() == old(self).decoded().push(c),
    {
        self.output.push(c);
        self.change_state(State::Normal);
    }

    /// Moves to the given state.
    pub fn change_state(&mut self, state: State)
        ensures
            final(self).gstate() == state@,
            final(self).decoded() == old(self).decoded(),
    {
        self.state = state;
    }
}

/// Decodes the escapes of a string interior (the text between the quotes).
pub fn unescape_string(input: &str) -> (r: Result<String, ParseStringError>)
    ensures
        spec_unescape(input@) is Ok <==> r is Ok,
        r is Ok ==> r->Ok_0@ == spec_unescape(input@)->Ok_0,
        r is Err ==> r->Err_0 == spec_unescape(input@)->Err_0,
{
    let cs = str_to_chars(input);
    let mut st = UnescapeString::new(cs.len());
    let mut i: usize = 0;
    proof {
        assert(cs@.skip(0) =~= cs@);
        if spec_unescape(input@) is Ok {
            assert(Seq::<char>::empty() + spec_unescape(input@)->Ok_0 =~= spec_unescape(
                input@,
            )->Ok_0);
        }
    }
    while i < cs.len()
        invariant
            i <= cs.len(),
            cs@ == input@,
            state_wf(st.gstate()),
            spec_unescape(input@) == (match spec_unesc_from(st.gstate(), cs@.skip(i as int)) {
                Ok(t) => Ok::<Seq<char>, ParseStringError>(st.decoded() + t),
                Err(e) => Err::<Seq<char>, ParseStringError>(e),
            }),
        decreases cs.len() - i,
    {
        let c = cs[i];
        let ghost pre = st.gstate();
        let ghost predec = st.decoded();
        let ghost rest = cs@.skip(i as int);
        proof {
            assert(rest[0] == c);
            assert(rest.drop_first() =~= cs@.skip(i + 1));
            if unesc_step(pre, c) is Ok {
                lemma_step_wf(pre, c);
            }
        }
        match st.state {
            State::Normal => {
                if c == '\\' {
                    st.change_state(State::Escape);
                } else {
                    st.push_char(c);
                }
            },
            State::Escape => {
                match c {
                    'n' => st.push_char('\n'),
                    't' => st.push_char('\t'),
                    'r' => st.push_char('\r'),
                    '\\' => st.push_char('\\'),
                    'x' => st.change_state(State::Ascii(0, 0)),
                    'u' => st.change_state(State::EnterUnicode),
                    _ => {
                        return Err(ParseStringError::UnknownEscape(c));
                    },
                }
            },
            State::Ascii(cp, n) => {
                match to_digit16(c) {
                    None => {
                        return Err(ParseStringError::NotHexDigit);
                    },
                    Some(d) => {
                        let cp2: u8 = cp * 16 + (d as u8);
                        if n + 1 == 2 {
                            if cp2 == 0 || cp2 >= 0x80 {
                                return Err(ParseStringError::AsciiNotValid(cp2));
                            }
                            st.push_char(cp2 as char);
                        } else {
                            st.change_state(State::Ascii(cp2, n + 1));
                        }
                    },
                }
            },
            State::EnterUnicode => {
                if c != '{' {
                    return Err(ParseStringError::ExpectedCurlyBracket);
                }
                st.change_state(State::Unicode(0, 0));
            },
            State::Unicode(cp, n) => {
                if c == '}' {
                    if cp > 0x10FFFF {
                        return Err(ParseStringError::UnicodeOutOfBound(cp));
                    }
                    match char_from_u32(cp) {
                        None => {
                            return Err(ParseStringError::UnicodeNotValid(cp));
                        },
                        Some(ch) => {
                            st.push_char(ch);
                        },
                    }
                } else {
                    match to_digit16(c) {
                        None => {
                            return Err(ParseStringError::NotHexDigit);
                        },
                        Some(d) => {
                            proof {
                                lemma_p16_vals();
                            }
                            let cp2: u32 = cp * 16 + d;
                            if n + 1 > 6 {
                                return Err(ParseStringError::UnicodeMoreThanSixDigits);
                            }
                            st.change_state(State::Unicode(cp2, n + 1));
                        },
                    }
                }
            },
        }
        proof {
            let stepped = unesc_step(pre, c);
            assert(stepped is Ok);
            let out = stepped->Ok_0.1;
            assert(st.gstate() == stepped->Ok_0.0);
            assert(st.decoded() =~= predec + out);
            if spec_unesc_from(st.gstate(), cs@.skip(i + 1)) is Ok {
                let t = spec_unesc_from(st.gstate(), cs@.skip(i + 1))->Ok_0;
                assert(predec + (out + t) =~= (predec + out) + t);
            }
        }
        i = i + 1;
    }
    proof {
        assert(cs@.skip(cs@.len() as int).len() == 0);
        assert(st.decoded() + Seq::<char>::empty() =~= st.decoded());
    }
    Ok(crate::chars::string_from_chars(&st.output))
}

/// The decoded form of a full quoted-string token, delimiters included.
pub open spec fn spec_parse_string(s: Seq<char>) -> Result<Seq<char>, ParseStringError> {
    if s.len() == 0 {
        Err(ParseStringError::EmptyString)
    } else if s[0] != '"' {
        Err(ParseStringError::MissingBeginOfString)
    } else if s.len() == 1 || s.last() != '"' {
        Err(ParseStringError::MissingEndOfString)
    } else {
        spec_unescape(s.subrange(1, s.len() - 1))
    }
}

/// Decodes a quoted-string token: checks the delimiters and decodes the
/// escapes of the interior.
pub fn parse_string(input: &str) -> (r: Result<String, ParseStringError>)
    ensures
        spec_parse_string(input@) is Ok <==> r is Ok,
        r is Ok ==> r->Ok_0@ == spec_parse_string(input@)->Ok_0,
        r is Err ==> r->Err_0 == spec_parse_string(input@)->Err_0,
{
    let n = input.unicode_len();
    if n == 0 {
        return Err(ParseStringError::EmptyString);
    }
    if input.get_char(0) != '"' {
        return Err(ParseStringError::MissingBeginOfString);
    }
    if n == 1 || input.get_char(n - 1) != '"' {
        return Err(ParseStringError::MissingEndOfString);
    }
    let interior = input.substring_char(1, n - 1);
    unescape_string(interior)
}

// ---------------------------------------------------------------------------
// Numeric and bare literals
// ---------------------------------------------------------------------------
/// The value of one digit in the given radix, as `from_str_radix` reads it:
/// `0`-`9` and letters starting at ten, refused at or above the radix.
pub open spec fn digit_val(c: char, radix: int) -> Option<int> {
    let d = if '0' <= c && c <= '9' {
        c as int - '0' as int
    } else if 'a' <= c && c <= 'z' {
        10 + c as int - 'a' as int
    } else if 'A' <= c && c <= 'Z' {
        10 + c as int - 'A' as int
    } else {
        -1
    };
    if 0 <= d && d < radix {
        Some(d)
    } else {
        None
    }
}

/// The value of a digit string in the given radix; `None` when it is empty
/// or holds a bad digit.
pub open spec fn digits_val(s: Seq<char>, radix: int) -> Option<int>
    decreases s.len(),
{
    if s.len() == 0 {
        None
    } else if s.len() == 1 {
        digit_val(s[0], radix)
    } else {
        match digits_val(s.drop_last(), radix) {
            None => None,
            Some(v) => match digit_val(s.last(), radix) {
                None => None,
                Some(d) => Some(v * radix + d),
            },
        }
    }
}

proof fn lemma_digits_val_nonneg(s: Seq<char>, radix: int)
    requires
        radix >= 2,
        digits_val(s, radix) is Some,
    ensures
        digits_val(s, radix)->0 >= 0,
    decreases s.len(),
{
    if s.len() > 1 {
        lemma_digits_val_nonneg(s.drop_last(), radix);
        let v = digits_val(s.drop_last(), radix)->0;
        assert(v * radix >= 0) by (nonlinear_arith)
            requires
                v >= 0,
                radix >= 2,
        ;
    }
}

proof fn lemma_digits_val_bad(s: Seq<char>, radix: int, i: int)
    requires
        0 <= i < s.len(),
        digit_val(s[i], radix) is None,
    ensures
        digits_val(s, radix) is None,
    decreases s.len(),
{
    if s.len() > 1 && i < s.len() - 1 {
        assert(s.drop_last()[i] == s[i]);
        lemma_digits_val_bad(s.drop_last(), radix, i);
    }
}

/// A longer digit string has at least the value of any nonempty prefix.
proof fn lemma_digits_val_mono(s: Seq<char>, radix: int, k: int)
    requires
        radix >= 2,
        1 <= k <= s.len(),
        digits_val(s, radix) is Some,
    ensures
        digits_val(s.take(k), radix) is Some,
        digits_val(s, radix)->0 >= digits_val(s.take(k), radix)->0 >= 0,
    decreases s.len(),
{
    lemma_digits_val_nonneg(s, radix);
    if k == s.len() {
        assert(s.take(k) =~= s);
    } else {
        let dl = s.drop_last();
        assert(dl.take(k) =~= s.take(k));
        lemma_digits_val_mono(dl, radix, k);
        let v = digits_val(dl, radix)->0;
        let d = digit_val(s.last(), radix)->0;
        assert(v * radix >= v) by (nonlinear_arith)
            requires
                v >= 0,
                radix >= 2,
        ;
    }
}

/// The value `from_str_radix` reads: an optional sign, then digits.
pub open spec fn spec_radix_int(s: Seq<char>, radix: int) -> Option<int> {
    if s.len() > 0 && (s[0] == '+' || s[0] == '-') {
        match digits_val(s.drop_first(), radix) {
            None => None,
            Some(v) => Some(
                if s[0] == '-' {
                    -v
                } else {
                    v
                },
            ),
        }
    } else {
        digits_val(s, radix)
    }
}

/// An integer literal read in the given radix and negated under a leading
/// minus sign; malformed digits and values outside the 128-bit signed range
/// fail alike.
pub open spec fn spec_int_result(s: Seq<char>, radix: int, neg: bool) -> Result<
    GValue,
    ParseStringError,
> {
    match spec_radix_int(s, radix) {
        None => Err(ParseStringError::MalformedNumber),
        Some(v) => if v < i128::MIN || v > i128::MAX {
            Err(ParseStringError::MalformedNumber)
        } else {
            let w = if neg {
                -v
            } else {
                v
            };
            if w < i128::MIN || w > i128::MAX {
                Err(ParseStringError::MalformedNumber)
            } else {
                Ok(GValue::Int(w))
            }
        },
    }
}

/// The value of one digit, refused at or above the radix.
fn digit_char_val(c: char, radix: u32) -> (r: Option<u32>)
    requires
        2 <= radix <= 16,
    ensures
        r is Some <==> digit_val(c, radix as int) is Some,
        r is Some ==> r->0 as int == digit_val(c, radix as int)->0 && r->0 < radix,
{
    let d: u32 = if c >= '0' && c <= '9' {
        c as u32 - '0' as u32
    } else if c >= 'a' && c <= 'z' {
        c as u32 - 'a' as u32 + 10
    } else if c >= 'A' && c <= 'Z' {
        c as u32 - 'A' as u32 + 10
    } else {
        return None;
    };
    if d < radix {
        Some(d)
    } else {
        None
    }
}

/// Reads the integer literal in `cs[from..]` in the given radix, applying
/// the sign read before it.
fn parse_int_radix(cs: &Vec<char>, from: usize, radix: u32, neg: bool) -> (r: Result<
    Value,
    ParseStringError,
>)
    requires
        from <= cs@.len(),
        radix == 2 || radix == 8 || radix == 10 || radix == 16,
    ensures
        ({
            let sp = spec_int_result(cs@.skip(from as int), radix as int, neg);
            &&& (sp is Ok <==> r is Ok)
            &&& (r is Ok ==> r->Ok_0@ == sp->Ok_0)
            &&& (r is Err ==> r->Err_0 == sp->Err_0)
        }),
{
    let ghost d = cs@.skip(from as int);
    let mut inner_neg = false;
    let mut ds = from;
    if from < cs.len() && (cs[from] == '+' || cs[from] == '-') {
        inner_neg = cs[from] == '-';
        ds = from + 1;
    }
    let ghost gd = cs@.skip(ds as int);
    proof {
        if from < cs@.len() {
            assert(d[0] == cs@[from as int]);
        }
        if ds != from {
            assert(d.drop_first() =~= gd);
        }
    }
    if ds == cs.len() {
        proof {
            assert(gd.len() == 0);
        }
        return Err(ParseStringError::MalformedNumber);
    }
    let mut mag: u128 = 0;
    let mut i: usize = ds;
    while i < cs.len()
        invariant
            from <= ds <= i <= cs@.len(),
            ds < cs@.len(),
            gd == cs@.skip(ds as int),
            d == cs@.skip(from as int),
            radix == 2 || radix == 8 || radix == 10 || radix == 16,
            mag <= 0x8000_0000_0000_0000_0000_0000_0000_0000u128,
            i == ds ==> mag == 0,
            i > ds ==> digits_val(gd.take(i - ds), radix as int) == Some(mag as int),
            spec_radix_int(d, radix as int) == (match digits_val(gd, radix as int) {
                Option::None => Option::<int>::None,
                Option::Some(v) => Option::Some(
                    if inner_neg {
                        -v
                    } else {
                        v
                    },
                ),
            }),
        decreases cs@.len() - i,
    {
        let c = cs[i];
        proof {
            assert(gd[i - ds] == c);
        }
        let dopt = digit_char_val(c, radix);
        match dopt {
            None => {
                proof {
                    lemma_digits_val_bad(gd, radix as int, i - ds);
                }
                return Err(ParseStringError::MalformedNumber);
            },
            Some(dv) => {
                let ghost k = i - ds;
                let ghost v2 = (mag as int) * (radix as int) + dv;
                proof {
                    let t = gd.take(k + 1);
                    assert(t.last() == c);
                    if k == 0 {
                        assert(t.len() == 1);
                        assert(t[0] == c);
                    } else {
                        assert(t.drop_last() =~= gd.take(k));
                    }
                    assert(digits_val(t, radix as int) == Some(v2));
                }
                let overflowed: bool;
                let mut m2: u128 = 0;
                match mag.checked_mul(radix as u128) {
                    None => {
                        overflowed = true;
                    },
                    Some(m1) => {
                        match m1.checked_add(dv as u128) {
                            None => {
                                overflowed = true;
                            },
                            Some(m) => {
                                if m > 0x8000_0000_0000_0000_0000_0000_0000_0000u128 {
                                    overflowed = true;
                                } else {
                                    overflowed = false;
                                    m2 = m;
                                }
                            },
                        }
                    },
                }
                if overflowed {
                    proof {
                        assert(v2 > 0x8000_0000_0000_0000_0000_0000_0000_0000u128 as int);
                        if digits_val(gd, radix as int) is Some {
                            lemma_digits_val_mono(gd, radix as int, k + 1);
                            assert(digits_val(gd, radix as int)->0 >= v2);
                            assert(spec_radix_int(d, radix as int) is Some);
                            let w = spec_radix_int(d, radix as int)->0;
                            assert(w > i128::MAX || w < i128::MIN);
                        } else {
                            assert(spec_radix_int(d, radix as int) is None);
                        }
                    }
                    return Err(ParseStringError::MalformedNumber);
                }
                mag = m2;
                i = i + 1;
            },
        }
    }
    proof {
        assert(gd.take(cs@.len() - ds) =~= gd);
        assert(digits_val(gd, radix as int) == Some(mag as int));
    }
    let v: i128;
    if inner_neg {
        if mag == 0x8000_0000_0000_0000_0000_0000_0000_0000u128 {
            v = i128::MIN;
        } else {
            v = -(mag as i128);
        }
    } else {
        if mag >= 0x8000_0000_0000_0000_0000_0000_0000_0000u128 {
            return Err(ParseStringError::MalformedNumber);
        }
        v = mag as i128;
    }
    if neg {
        if v == i128::MIN {
            return Err(ParseStringError::MalformedNumber);
        }
        Ok(Value::Integer(-v))
    } else {
        Ok(Value::Integer(v))
    }
}

/// The number of dots in `s`.
pub open spec fn dot_count(s: Seq<char>) -> int
    decreases s.len(),
{
    if s.len() == 0 {
        0
    } else {
        (if s[0] == '.' {
            1int
        } else {
            0int
        }) + dot_count(s.drop_first())
    }
}

/// Counts the dots in `cs[from..]`.
fn count_dots(cs: &Vec<char>, from: usize) -> (r: usize)
    requires
        from <= cs@.len(),
    ensures
        r == dot_count(cs@.skip(from as int)),
{
    let ghost t = cs@.skip(from as int);
    let mut n: usize = 0;
    let mut i: usize = from;
    proof {
        assert(t.skip(0) =~= t);
    }
    while i < cs.len()
        invariant
            from <= i <= cs@.len(),
            t == cs@.skip(from as int),
            n <= i - from,
            dot_count(t) == n + dot_count(t.skip(i - from)),
        decreases cs@.len() - i,
    {
        proof {
            assert(t.skip(i - from)[0] == cs@[i as int]);
            assert(t.skip(i - from).drop_first() =~= t.skip(i - from + 1));
        }
        if cs[i] == '.' {
            n = n + 1;
        }
        i = i + 1;
    }
    proof {
        assert(t.skip(cs@.len() - from).len() == 0);
    }
    n
}

/// An ASCII digit.
pub open spec fn is_digit(c: char) -> bool {
    '0' <= c && c <= '9'
}

/// The first position at or after `i` holding no ASCII digit, or the end.
pub open spec fn span_digits(s: Seq<char>, i: int) -> int
    decreases s.len() - i,
{
    if 0 <= i < s.len() && is_digit(s[i]) {
        span_digits(s, i + 1)
    } else {
        i
    }
}

proof fn lemma_span_digits(s: Seq<char>, i: int)
    requires
        0 <= i <= s.len(),
    ensures
        i <= span_digits(s, i) <= s.len(),
    decreases s.len() - i,
{
    if i < s.len() && is_digit(s[i]) {
        lemma_span_digits(s, i + 1);
    }
}

/// Whether `s` is a floating-point literal as `f64`'s parser reads the
/// forms that carry one dot: an optional sign, digits, the dot, optional
/// fraction digits, and an optional exponent.
pub open spec fn is_float_text(s: Seq<char>) -> bool {
    let i0: int = if s.len() > 0 && (s[0] == '+' || s[0] == '-') {
        1
    } else {
        0
    };
    let i1 = span_digits(s, i0);
    if i1 == i0 {
        false
    } else if !(i1 < s.len() && s[i1] == '.') {
        false
    } else {
        let i2 = span_digits(s, i1 + 1);
        if i2 == s.len() {
            true
        } else if s[i2] == 'e' || s[i2] == 'E' {
            let i3: int = if i2 + 1 < s.len() && (s[i2 + 1] == '+' || s[i2 + 1] == '-') {
                i2 + 2
            } else {
                i2 + 1
            };
            let i4 = span_digits(s, i3);
            i4 > i3 && i4 == s.len()
        } else {
            false
        }
    }
}

/// Scans for the end of the digit run beginning at `i`.
fn span_digits_exec(cs: &Vec<char>, i: usize) -> (r: usize)
    requires
        i <= cs@.len(),
    ensures
        r == span_digits(cs@, i as int),
        i <= r <= cs@.len(),
{
    let mut j: usize = i;
    while j < cs.len()
        invariant
            i <= j <= cs@.len(),
            span_digits(cs@, i as int) == span_digits(cs@, j as int),
        ensures
            i <= j <= cs@.len(),
            j == span_digits(cs@, i as int),
        decreases cs@.len() - j,
    {
        let c = cs[j];
        if !(c >= '0' && c <= '9') {
            break ;
        }
        j = j + 1;
    }
    j
}

/// Whether `cs` is a floating-point literal.
fn is_float_literal(cs: &Vec<char>) -> (r: bool)
    ensures
        r == is_float_text(cs@),
{
    let i0: usize = if cs.len() > 0 && (cs[0] == '+' || cs[0] == '-') {
        1
    } else {
        0
    };
    let i1 = span_digits_exec(cs, i0);
    if i1 == i0 {
        return false;
    }
    if !(i1 < cs.len() && cs[i1] == '.') {
        return false;
    }
    let i2 = span_digits_exec(cs, i1 + 1);
    if i2 == cs.len() {
        return true;
    }
    let c = cs[i2];
    if c == 'e' || c == 'E' {
        let i3: usize = if i2 + 1 < cs.len() && (cs[i2 + 1] == '+' || cs[i2 + 1] == '-') {
            i2 + 2
        } else {
            i2 + 1
        };
        let i4 = span_digits_exec(cs, i3);
        i4 > i3 && i4 == cs.len()
    } else {
        false
    }
}

/// The value of an alphanumeric token: an optional sign; then a radix
/// prefix (`0x`, `0o`, `0b`) for an integer in that radix; otherwise, a
/// literal opening with a numeric character is an integer with no dot, a
/// float with one dot, and malformed beyond that; anything else is the
/// whole token as a string.
pub open spec fn spec_parse_alnum(s: Seq<char>) -> Result<GValue, ParseStringError>
    recommends
        s.len() > 0,
{
    let t: Seq<char> = if s.len() > 0 && (s[0] == '-' || s[0] == '+') {
        s.drop_first()
    } else {
        s
    };
    let neg = s.len() > 0 && s[0] == '-';
    if t.len() >= 2 && t[0] == '0' && t[1] == 'x' {
        spec_int_result(t.skip(2), 16, neg)
    } else if t.len() >= 2 && t[0] == '0' && t[1] == 'o' {
        spec_int_result(t.skip(2), 8, neg)
    } else if t.len() >= 2 && t[0] == '0' && t[1] == 'b' {
        spec_int_result(t.skip(2), 2, neg)
    } else if t.len() > 0 && is_numeric_char(t[0]) {
        if dot_count(t) == 0 {
            spec_int_result(t, 10, neg)
        } else if dot_count(t) == 1 {
            if is_float_text(s) {
                Ok(GValue::Float(s))
            } else {
                Err(ParseStringError::MalformedNumber)
            }
        } else {
            Err(ParseStringError::MalformedNumber)
        }
    } else {
        Ok(GValue::Str(s))
    }
}

/// Decodes an alphanumeric token into a value.
pub fn parse_alphanumeric(input: &str) -> (r: Result<Value, ParseStringError>)
    requires
        input@.len() > 0,
    ensures
        spec_parse_alnum(input@) is Ok <==> r is Ok,
        r is Ok ==> r->Ok_0@ == spec_parse_alnum(input@)->Ok_0,
        r is Err ==> r->Err_0 == spec_parse_alnum(input@)->Err_0,
{
    let cs = str_to_chars(input);
    let neg = cs[0] == '-';
    let start: usize = if cs[0] == '-' || cs[0] == '+' {
        1
    } else {
        0
    };
    let ghost t: Seq<char> = if start == 1 {
        cs@.drop_first()
    } else {
        cs@
    };
    proof {
        if start == 1 {
            assert(t =~= cs@.skip(1));
        } else {
            assert(t =~= cs@.skip(0));
        }
    }
    if cs.len() >= start + 2 && cs[start] == '0' && cs[start + 1] == 'x' {
        proof {
            assert(t.skip(2) =~= cs@.skip(start + 2));
        }
        parse_int_radix(&cs, start + 2, 16, neg)
    } else if cs.len() >= start + 2 && cs[start] == '0' && cs[start + 1] == 'o' {
        proof {
            assert(t.skip(2) =~= cs@.skip(start + 2));
        }
        parse_int_radix(&cs, start + 2, 8, neg)
    } else if cs.len() >= start + 2 && cs[start] == '0' && cs[start + 1] == 'b' {
        proof {
            assert(t.skip(2) =~= cs@.skip(start + 2));
        }
        parse_int_radix(&cs, start + 2, 2, neg)
    } else if cs.len() > start && char_is_numeric(cs[start]) {
        let nd = count_dots(&cs, start);
        proof {
            assert(t =~= cs@.skip(start as int));
        }
        if nd == 0 {
            parse_int_radix(&cs, start, 10, neg)
        } else if nd == 1 {
            if is_float_literal(&cs) {
                Ok(Value::Float(String::from_str(input)))
            } else {
                Err(ParseStringError::MalformedNumber)
            }
        } else {
            Err(ParseStringError::MalformedNumber)
        }
    } else {
        Ok(Value::String(String::from_str(input)))
    }
}

/// The keyword values `true`, `false` and `null`.
pub open spec fn spec_parse_keyword(s: Seq<char>) -> Result<GValue, GParseError> {
    if s == seq!['t', 'r', 'u', 'e'] {
        Ok(GValue::Bool(true))
    } else if s == seq!['f', 'a', 'l', 's', 'e'] {
        Ok(GValue::Bool(false))
    } else if s == seq!['n', 'u', 'l', 'l'] {
        Ok(GValue::Null)
    } else {
        Err(GParseError::UnknownKeyword(s))
    }
}

/// Decodes a keyword into its value.
pub fn parse_keyword(input: &str) -> (r: Result<Value, ParseError>)
    ensures
        spec_parse_keyword(input@) is Ok <==> r is Ok,
        r is Ok ==> r->Ok_0@ == spec_parse_keyword(input@)->Ok_0,
        r is Err ==> r->Err_0@ == spec_parse_keyword(input@)->Err_0,
{
    let cs = str_to_chars(input);
    if cs.len() == 4 && cs[0] == 't' && cs[1] == 'r' && cs[2] == 'u' && cs[3] == 'e' {
        proof {
            assert(cs@ =~= seq!['t', 'r', 'u', 'e']);
        }
        Ok(Value::Boolean(true))
    } else if cs.len() == 5 && cs[0] == 'f' && cs[1] == 'a' && cs[2] == 'l' && cs[3] == 's' && cs[4]
        == 'e' {
        proof {
            assert(cs@ =~= seq!['f', 'a', 'l', 's', 'e']);
        }
        Ok(Value::Boolean(false))
    } else if cs.len() == 4 && cs[0] == 'n' && cs[1] == 'u' && cs[2] == 'l' && cs[3] == 'l' {
        proof {
            assert(cs@ =~= seq!['n', 'u', 'l', 'l']);
        }
        Ok(Value::Null)
    } else {
        proof {
            assert(cs@ != seq!['t', 'r', 'u', 'e']);
            assert(cs@ != seq!['f', 'a', 'l', 's', 'e']);
            assert(cs@ != seq!['n', 'u', 'l', 'l']);
        }
        Err(ParseError::UnknownKeyword(String::from_str(input)))
    }
}

} // verus!
