//! Rendering tokens, values, selectors and paths back to query text.

use vstd::prelude::*;

use crate::chars::{str_to_chars, string_from_chars};
use crate::entries::{Entries, EntryKind, GEntry};
use crate::lexer::{GToken, TokenType};
use crate::parser::{GKind, Node, NodeKind, Path, Range};
use crate::value::{GValue, Value};

verus! {

/// The decimal digit character for `d`.
pub open spec fn digit_char(d: int) -> char {
    (('0' as int) + d) as char
}

/// The decimal text of a nonnegative integer.
pub open spec fn nat_text(n: int) -> Seq<char>
    decreases n,
{
    if n < 10 {
        seq![digit_char(n)]
    } else {
        nat_text(n / 10).push(digit_char(n % 10))
    }
}

/// The decimal text of an integer, with `-` for negative values.
pub open spec fn int_text(i: int) -> Seq<char> {
    if i < 0 {
        seq!['-'] + nat_text(-i)
    } else {
        nat_text(i)
    }
}

/// The text of a value: strings and float literals as they are, integers
/// in decimal, `#true`, `#false` and `#null` for the keywords.
pub open spec fn value_text(v: GValue) -> Seq<char> {
    match v {
        GValue::Str(s) => s,
        GValue::Int(i) => int_text(i),
        GValue::Float(t) => t,
        GValue::Bool(b) => if b {
            seq!['#', 't', 'r', 'u', 'e']
        } else {
            seq!['#', 'f', 'a', 'l', 's', 'e']
        },
        GValue::Null => seq!['#', 'n', 'u', 'l', 'l'],
    }
}

/// The text of an optional constraint value; absence is the wildcard.
pub open spec fn opt_value_text(v: Option<GValue>) -> Seq<char> {
    match v {
        Option::None => seq!['_'],
        Option::Some(v) => value_text(v),
    }
}

/// The text of the entry at list index `i`: an argument at its implicit
/// position shows its value alone, an argument elsewhere and a property
/// show `identifier=value`.
pub open spec fn entry_text(e: GEntry, i: int) -> Seq<char> {
    match e {
        GEntry::Argument { position, value } => if position != i {
            int_text(position) + seq!['='] + opt_value_text(value)
        } else {
            opt_value_text(value) + seq![' ']
        },
        GEntry::Property { name, value } => name + seq!['='] + opt_value_text(value) + seq![' '],
    }
}

/// The concatenated texts of the entries from index `i` on.
pub open spec fn entries_body_text(es: Seq<GEntry>, i: int) -> Seq<char>
    decreases es.len() - i,
{
    if i < 0 || i >= es.len() {
        Seq::empty()
    } else {
        entry_text(es[i], i) + entries_body_text(es, i + 1)
    }
}

/// The text of an entries predicate.
pub open spec fn entries_text(es: Seq<GEntry>) -> Seq<char> {
    seq!['[', ' '] + entries_body_text(es, 0) + seq![']']
}

/// The text of a range.
pub open spec fn range_text(r: Range) -> Seq<char> {
    match r {
        Range::One(i) => seq!['{'] + int_text(i as int) + seq!['}'],
        Range::From(i) => seq!['{'] + int_text(i as int) + seq!['.', '.', '}'],
        Range::To(j) => seq!['{', '.', '.'] + int_text(j as int) + seq!['}'],
        Range::Both(i, j) => seq!['{'] + int_text(i as int) + seq!['.', '.'] + int_text(j as int)
            + seq!['}'],
        Range::All => seq!['{', '.', '.', '}'],
    }
}

/// The text of a segment kind; the root marker shows nothing, its leading
/// slash being the path's own separator.
pub open spec fn kind_text(k: GKind) -> Seq<char> {
    match k {
        GKind::Named(s) => s,
        GKind::Any => seq!['*'],
        GKind::Anywhere => seq!['*', '*'],
        GKind::Parent => seq!['.', '.'],
        GKind::Root => Seq::empty(),
    }
}

/// The text of one segment: its kind, then its entries and range.
pub open spec fn sel_text(s: crate::parser::GSel) -> Seq<char> {
    kind_text(s.kind) + (match s.entries {
        Option::None => Seq::<char>::empty(),
        Option::Some(es) => entries_text(es),
    }) + (match s.range {
        Option::None => Seq::<char>::empty(),
        Option::Some(r) => range_text(r),
    })
}

/// The text of a path: every segment followed by a slash.
pub open spec fn path_text(p: Seq<crate::parser::GSel>) -> Seq<char>
    decreases p.len(),
{
    if p.len() == 0 {
        Seq::empty()
    } else {
        path_text(p.drop_last()) + sel_text(p.last()) + seq!['/']
    }
}

/// The text of a token.
pub open spec fn token_text(t: GToken) -> Seq<char> {
    match t {
        GToken::Str(s) => s,
        GToken::Alnum(s) => s,
        GToken::Slash => seq!['/'],
        GToken::DoubleSlash => seq!['/', '/'],
        GToken::Point => seq!['.'],
        GToken::DoublePoint => seq!['.', '.'],
        GToken::Star => seq!['*'],
        GToken::DoubleStar => seq!['*', '*'],
        GToken::EnterSquare => seq!['['],
        GToken::LeaveSquare => seq![']'],
        GToken::EnterCurly => seq!['{'],
        GToken::LeaveCurly => seq!['}'],
        GToken::Equal => seq!['='],
        GToken::Pipe => seq!['|'],
        GToken::Unknown(s) => seq!['<', 'u', 'n', 'k', 'n', 'o', 'w', 'n', ':', ' '] + s + seq![
            '>',
        ],
    }
}

/// Appends the characters of `s`.
fn push_str(out: &mut Vec<char>, s: &str)
    ensures
        final(out)@ == old(out)@ + s@,
{
    let cs = str_to_chars(s);
    let mut i: usize = 0;
    proof {
        assert(out@ + cs@.take(0) =~= out@);
    }
    while i < cs.len()
        invariant
            i <= cs@.len(),
            cs@ == s@,
            out@ == old(out)@ + cs@.take(i as int),
        decreases cs@.len() - i,
    {
        out.push(cs[i]);
        i = i + 1;
        proof {
            assert(old(out)@ + cs@.take(i - 1) + seq![cs@[i - 1]] =~= old(out)@ + cs@.take(
                i as int,
            ));
        }
    }
    proof {
        assert(cs@.take(cs@.len() as int) =~= cs@);
    }
}

/// Appends the decimal digits of `n`.
fn push_u128_digits(out: &mut Vec<char>, n: u128)
    ensures
        final(out)@ == old(out)@ + nat_text(n as int),
    decreases n,
{
    if n < 10 {
        let c = (('0' as u8) + (n as u8)) as char;
        out.push(c);
        proof {
            assert(old(out)@.push(c) =~= old(out)@ + seq![digit_char(n as int)]);
        }
    } else {
        push_u128_digits(out, n / 10);
        let c = (('0' as u8) + ((n % 10) as u8)) as char;
        out.push(c);
        proof {
            assert(old(out)@ + nat_text(n as int / 10) + seq![digit_char(n as int % 10)] =~= old(
                out,
            )@ + nat_text(n as int));
        }
    }
}

/// Appends the decimal text of `i`.
fn push_i128(out: &mut Vec<char>, i: i128)
    ensures
        final(out)@ == old(out)@ + int_text(i as int),
{
    if i < 0 {
        out.push('-');
        let mag: u128 = ((-(i + 1)) as u128) + 1;
        proof {
            assert(mag as int == -(i as int));
        }
        push_u128_digits(out, mag);
        proof {
            assert(old(out)@.push('-') + nat_text(mag as int) =~= old(out)@ + int_text(i as int));
        }
    } else {
        push_u128_digits(out, i as u128);
    }
}

impl Value {
    /// Appends this value's text.
    fn push_text(&self, out: &mut Vec<char>)
        ensures
            final(out)@ == old(out)@ + value_text(self@),
    {
        match self {
            Value::String(s) => push_str(out, s.as_str()),
            Value::Integer(i) => push_i128(out, *i),
            Value::Float(t) => push_str(out, t.as_str()),
            Value::Boolean(b) => {
                if *b {
                    push_str(out, "#true");
                    proof {
                        reveal_strlit("#true");
                        assert("#true"@ =~= value_text(self@));
                    }
                } else {
                    push_str(out, "#false");
                    proof {
                        reveal_strlit("#false");
                        assert("#false"@ =~= value_text(self@));
                    }
                }
            },
            Value::Null => {
                push_str(out, "#null");
                proof {
                    reveal_strlit("#null");
                    assert("#null"@ =~= value_text(self@));
                }
            },
        }
    }

    /// This value as query text.
    pub fn display(&self) -> (r: String)
        ensures
            r@ == value_text(self@),
    {
        let mut out: Vec<char> = Vec::new();
        self.push_text(&mut out);
        proof {
            assert(Seq::<char>::empty() + value_text(self@) =~= value_text(self@));
        }
        string_from_chars(&out)
    }
}

/// Appends the text of an optional constraint value.
fn push_opt_value(out: &mut Vec<char>, v: &Option<Value>)
    ensures
        final(out)@ == old(out)@ + opt_value_text(crate::entries::opt_value_view(*v)),
{
    match v {
        None => {
            out.push('_');
            proof {
                assert(old(out)@.push('_') =~= old(out)@ + seq!['_']);
            }
        },
        Some(v) => v.push_text(out),
    }
}

impl Entries {
    /// Appends this predicate's text.
    fn push_text(&self, out: &mut Vec<char>)
        ensures
            final(out)@ == old(out)@ + entries_text(self@),
    {
        let ghost base = out@;
        out.push('[');
        out.push(' ');
        let es = self.entries();
        let ghost ges = self@;
        let mut i: usize = 0;
        let ghost mid = out@;
        let ghost mut done: Seq<char> = Seq::empty();
        proof {
            assert(mid =~= base + seq!['[', ' ']);
            assert(out@ =~= mid + done);
        }
        while i < es.len()
            invariant
                i <= es@.len(),
                ges == es@.map_values(|e: EntryKind| e@),
                ges == self@,
                out@ == mid + done,
                entries_body_text(ges, 0) == done + entries_body_text(ges, i as int),
            decreases es@.len() - i,
        {
            let ghost pre = out@;
            proof {
                assert(ges[i as int] == es@[i as int]@);
            }
            match &es[i] {
                EntryKind::Argument { position, value } => {
                    if *position != i as u64 {
                        push_u128_digits(out, *position as u128);
                        out.push('=');
                        push_opt_value(out, value);
                        proof {
                            assert(out@ =~= pre + entry_text(ges[i as int], i as int));
                        }
                    } else {
                        push_opt_value(out, value);
                        out.push(' ');
                        proof {
                            assert(out@ =~= pre + entry_text(ges[i as int], i as int));
                        }
                    }
                },
                EntryKind::Property { name, value } => {
                    push_str(out, name.as_str());
                    out.push('=');
                    push_opt_value(out, value);
                    out.push(' ');
                    proof {
                        assert(out@ =~= pre + entry_text(ges[i as int], i as int));
                    }
                },
            }
            i = i + 1;
            proof {
                done = done + entry_text(ges[i - 1], i - 1);
                assert(out@ =~= mid + done);
                assert(entries_body_text(ges, i - 1) == entry_text(ges[i - 1], i - 1)
                    + entries_body_text(ges, i as int));
                assert(entries_body_text(ges, 0) =~= done + entries_body_text(ges, i as int));
            }
        }
        out.push(']');
        proof {
            assert(entries_body_text(ges, es@.len() as int).len() == 0);
            assert(entries_body_text(ges, 0) =~= done);
            assert(out@ =~= base + entries_text(ges));
        }
    }

    /// This predicate as query text.
    pub fn display(&self) -> (r: String)
        ensures
            r@ == entries_text(self@),
    {
        let mut out: Vec<char> = Vec::new();
        self.push_text(&mut out);
        proof {
            assert(Seq::<char>::empty() + entries_text(self@) =~= entries_text(self@));
        }
        string_from_chars(&out)
    }
}

impl Range {
    /// Appends this range's text.
    fn push_text(&self, out: &mut Vec<char>)
        ensures
            final(out)@ == old(out)@ + range_text(*self),
    {
        let ghost base = out@;
        out.push('{');
        match self {
            Range::One(i) => {
                push_i128(out, *i);
            },
            Range::From(i) => {
                push_i128(out, *i);
                out.push('.');
                out.push('.');
            },
            Range::To(j) => {
                out.push('.');
                out.push('.');
                push_i128(out, *j);
            },
            Range::Both(i, j) => {
                push_i128(out, *i);
                out.push('.');
                out.push('.');
                push_i128(out, *j);
            },
            Range::All => {
                out.push('.');
                out.push('.');
            },
        }
        out.push('}');
        proof {
            assert(out@ =~= base + range_text(*self));
        }
    }

    /// This range as query text.
    pub fn display(&self) -> (r: String)
        ensures
            r@ == range_text(*self),
    {
        let mut out: Vec<char> = Vec::new();
        self.push_text(&mut out);
        proof {
            assert(Seq::<char>::empty() + range_text(*self) =~= range_text(*self));
        }
        string_from_chars(&out)
    }
}

impl NodeKind {
    /// Appends this kind's text.
    fn push_text(&self, out: &mut Vec<char>)
        ensures
            final(out)@ == old(out)@ + kind_text(self@),
    {
        let ghost base = out@;
        match self {
            NodeKind::Named(s) => push_str(out, s.as_str()),
            NodeKind::Any => out.push('*'),
            NodeKind::Anywhere => {
                out.push('*');
                out.push('*');
            },
            NodeKind::Parent => {
                out.push('.');
                out.push('.');
            },
            NodeKind::Root => {},
        }
        proof {
            assert(out@ =~= base + kind_text(self@));
        }
    }

    /// This kind as query text.
    pub fn display(&self) -> (r: String)
        ensures
            r@ == kind_text(self@),
    {
        let mut out: Vec<char> = Vec::new();
        self.push_text(&mut out);
        proof {
            assert(Seq::<char>::empty() + kind_text(self@) =~= kind_text(self@));
        }
        string_from_chars(&out)
    }
}

impl Node {
    /// Appends this segment's text.
    fn push_text(&self, out: &mut Vec<char>)
        ensures
            final(out)@ == old(out)@ + sel_text(self@),
    {
        let ghost base = out@;
        self.node.push_text(out);
        match &self.entries {
            None => {},
            Some(es) => es.push_text(out),
        }
        match &self.range {
            None => {},
            Some(r) => r.push_text(out),
        }
        proof {
            assert(out@ =~= base + sel_text(self@));
        }
    }

    /// This segment as query text.
    pub fn display(&self) -> (r: String)
        ensures
            r@ == sel_text(self@),
    {
        let mut out: Vec<char> = Vec::new();
        self.push_text(&mut out);
        proof {
            assert(Seq::<char>::empty() + sel_text(self@) =~= sel_text(self@));
        }
        string_from_chars(&out)
    }
}

impl Path {
    /// This path as query text: every segment followed by a slash.
    pub fn display(&self) -> (r: String)
        ensures
            r@ == path_text(self@),
    {
        let mut out: Vec<char> = Vec::new();
        let nodes = self.nodes();
        let ghost gp = self@;
        let mut i: usize = 0;
        proof {
            assert(out@ =~= path_text(gp.take(0)));
        }
        while i < nodes.len()
            invariant
                i <= nodes@.len(),
                gp == nodes@.map_values(|n: Node| n@),
                gp == self@,
                out@ == path_text(gp.take(i as int)),
            decreases nodes@.len() - i,
        {
            let ghost pre = out@;
            nodes[i].push_text(&mut out);
            out.push('/');
            i = i + 1;
            proof {
                assert(gp[i - 1] == nodes@[i - 1]@);
                assert(gp.take(i as int).drop_last() =~= gp.take(i - 1));
                assert(gp.take(i as int).last() == gp[i - 1]);
                assert(out@ =~= path_text(gp.take(i - 1)) + sel_text(gp[i - 1]) + seq!['/']);
                assert(out@ =~= path_text(gp.take(i as int)));
            }
        }
        proof {
            assert(gp.take(nodes@.len() as int) =~= gp);
        }
        string_from_chars(&out)
    }
}

impl TokenType {
    /// This token as text: string-carrying tokens show their slice, and an
    /// unrecognized byte is bracketed.
    pub fn display(&self) -> (r: String)
        ensures
            r@ == token_text(self@),
    {
        let mut out: Vec<char> = Vec::new();
        match self {
            TokenType::String(s) => push_str(&mut out, s.as_str()),
            TokenType::Alphanumeric(s) => push_str(&mut out, s.as_str()),
            TokenType::Slash => out.push('/'),
            TokenType::DoubleSlash => {
                out.push('/');
                out.push('/');
            },
            TokenType::Point => out.push('.'),
            TokenType::DoublePoint => {
                out.push('.');
                out.push('.');
            },
            TokenType::Star => out.push('*'),
            TokenType::DoubleStar => {
                out.push('*');
                out.push('*');
            },
            TokenType::EnterSquareBracket => out.push('['),
            TokenType::LeaveSquareBracket => out.push(']'),
            TokenType::EnterCurlyBracket => out.push('{'),
            TokenType::LeaveCurlyBracket => out.push('}'),
            TokenType::Equal => out.push('='),
            TokenType::Pipe => out.push('|'),
            TokenType::Unknown(s) => {
                push_str(&mut out, "<unknown: ");
                push_str(&mut out, s.as_str());
                out.push('>');
                proof {
                    reveal_strlit("<unknown: ");
                }
            },
        }
        proof {
            assert(out@ =~= token_text(self@));
        }
        string_from_chars(&out)
    }
}

} // verus!
