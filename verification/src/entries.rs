//! The `[...]` predicate: an ordered list of entry constraints, and its
//! parser.

use vstd::prelude::*;

use crate::error::{GParseError, ParseError};
use crate::lexer::{GToken, Lexer, TokenType};
use crate::strings::{parse_alphanumeric, parse_string, spec_parse_alnum, spec_parse_string};
use crate::value::{GValue, Value};
use vstd::string::StrSliceExecFns;

verus! {

/// One entry constraint: a positional argument or a named property, each
/// with an optional required value (`None` asks only for presence).
#[derive(Debug, Clone, PartialEq)]
pub enum EntryKind {
    Argument { position: u64, value: Option<Value> },
    Property { name: String, value: Option<Value> },
}

/// The mathematical value of an [`EntryKind`].
pub enum GEntry {
    Argument { position: int, value: Option<GValue> },
    Property { name: Seq<char>, value: Option<GValue> },
}

/// The mathematical value of an optional value.
pub open spec fn opt_value_view(v: Option<Value>) -> Option<GValue> {
    match v {
        Option::None => Option::None,
        Option::Some(v) => Option::Some(v@),
    }
}

impl View for EntryKind {
    type V = GEntry;

    open spec fn view(&self) -> GEntry {
        match self {
            EntryKind::Argument { position, value } => GEntry::Argument {
                position: *position as int,
                value: opt_value_view(*value),
            },
            EntryKind::Property { name, value } => GEntry::Property {
                name: name@,
                value: opt_value_view(*value),
            },
        }
    }
}

/// An ordered list of entry constraints.
#[derive(Debug, Clone, PartialEq)]
pub struct Entries(Vec<EntryKind>);

impl View for Entries {
    type V = Seq<GEntry>;

    closed spec fn view(&self) -> Seq<GEntry> {
        self.0@.map_values(|e: EntryKind| e@)
    }
}

impl Entries {
    /// An empty list of constraints.
    pub fn new() -> (r: Self)
        ensures
            r@ == Seq::<GEntry>::empty(),
    {
        let r = Entries(Vec::new());
        proof {
            assert(r@ =~= Seq::<GEntry>::empty());
        }
        r
    }

    /// The list holding exactly the given constraints.
    pub fn from(value: Vec<EntryKind>) -> (r: Self)
        ensures
            r@ == value@.map_values(|e: EntryKind| e@),
    {
        Entries(value)
    }

    /// The constraints, in order.
    pub fn entries(&self) -> (r: &Vec<EntryKind>)
        ensures
            r@.map_values(|e: EntryKind| e@) == self@,
    {
        &self.0
    }
}

impl Default for Entries {
    /// An empty list of constraints.
    fn default() -> (r: Self)
        ensures
            r@ == Seq::<GEntry>::empty(),
    {
        Entries::new()
    }
}

/// A position stored in an entry: entry positions are 64-bit, and a wider
/// identifier is truncated into them.
pub open spec fn clip64(p: int) -> int {
    (p as u64) as int
}

/// Appends a decoded value to the parser state: with no identifier pending
/// it becomes the next implicit positional argument; a pending string names
/// a property; a pending integer gives an explicit position; a pending
/// wildcard or any other pending value is refused.
///
/// Yields the new entry list, implicit counter and unnamed flag.
pub open spec fn s_entries_push(
    acc: Seq<GEntry>,
    pos: int,
    pending: Option<Option<GValue>>,
    value: Option<GValue>,
) -> Result<(Seq<GEntry>, int, bool), GParseError> {
    match pending {
        Option::None => Ok(
            (acc.push(GEntry::Argument { position: clip64(pos), value }), pos + 1, true),
        ),
        Option::Some(Option::None) => Err(GParseError::UndefinedEntryIdentifier),
        Option::Some(Option::Some(GValue::Str(name))) => Ok(
            (acc.push(GEntry::Property { name, value }), pos, false),
        ),
        Option::Some(Option::Some(GValue::Int(p))) => Ok(
            (acc.push(GEntry::Argument { position: clip64(p), value }), pos, false),
        ),
        Option::Some(Option::Some(v)) => Err(GParseError::UnexpectedEntryIdentifier(v)),
    }
}

/// The entries parser, one token at a time. `acc` is the list built so far,
/// `pos` the implicit positional counter, `pending` an identifier awaiting
/// its value after `=`, and `unnamed` whether the last entry was an
/// implicit positional argument (the only kind `=` may reclaim).
///
/// Yields the entries and the tokens left after the closing `]`; the list
/// also ends at the end of the tokens.
pub open spec fn s_entries(
    toks: Seq<GToken>,
    acc: Seq<GEntry>,
    pos: int,
    pending: Option<Option<GValue>>,
    unnamed: bool,
) -> Result<(Seq<GEntry>, Seq<GToken>), GParseError>
    decreases toks.len(),
{
    if toks.len() == 0 {
        if pending is Some {
            Err(GParseError::MissingEntryValue)
        } else {
            Ok((acc, toks))
        }
    } else {
        let rest = toks.drop_first();
        match toks[0] {
            GToken::LeaveSquare => if pending is Some {
                Err(GParseError::MissingEntryValue)
            } else {
                Ok((acc, rest))
            },
            GToken::Alnum(s) => match spec_parse_alnum(s) {
                Err(e) => Err(GParseError::MalformedString(s, e)),
                Ok(gv) => {
                    let value: Option<GValue> = if gv == GValue::Str(seq!['_']) {
                        Option::None
                    } else {
                        Option::Some(gv)
                    };
                    match s_entries_push(acc, pos, pending, value) {
                        Err(e) => Err(e),
                        Ok((acc2, pos2, un2)) => s_entries(rest, acc2, pos2, Option::None, un2),
                    }
                },
            },
            GToken::Str(s) => match spec_parse_string(s) {
                Err(e) => Err(GParseError::MalformedString(s, e)),
                Ok(t) => match s_entries_push(acc, pos, pending, Option::Some(GValue::Str(t))) {
                    Err(e) => Err(e),
                    Ok((acc2, pos2, un2)) => s_entries(rest, acc2, pos2, Option::None, un2),
                },
            },
            GToken::Equal => {
                if pending is Some {
                    Err(GParseError::DoubleEqual)
                } else if acc.len() == 0 {
                    Err(GParseError::MissingEntryIdentifier)
                } else {
                    match acc.last() {
                        GEntry::Property { .. } => Err(GParseError::MissingEntryIdentifier),
                        GEntry::Argument { position: _, value } => {
                            if !unnamed {
                                Err(GParseError::MissingEntryIdentifier)
                            } else {
                                s_entries(
                                    rest,
                                    acc.drop_last(),
                                    pos - 1,
                                    Option::Some(value),
                                    false,
                                )
                            }
                        },
                    }
                }
            },
            t => Err(GParseError::UnexpectedToken(t)),
        }
    }
}

impl Entries {
    /// Parses entry constraints from the token stream, up to the closing
    /// `]` or the end of the stream.
    pub fn parse_lexer(lexer: &mut Lexer) -> (r: Result<Entries, ParseError>)
        requires
            old(lexer).wf(),
        ensures
            final(lexer).wf(),
            ({
                let sp = s_entries(old(lexer)@, Seq::empty(), 0, Option::None, false);
                match r {
                    Ok(es) => sp is Ok && es@ == sp->Ok_0.0 && final(lexer)@ == sp->Ok_0.1,
                    Err(e) => sp is Err && e@ == sp->Err_0,
                }
            }),
    {
        let ghost toks0 = lexer@;
        let mut entries: Vec<EntryKind> = Vec::new();
        let mut arg_pos: u128 = 0;
        let mut prop_name: Option<Option<Value>> = None;
        let mut is_unnamed_arg = false;
        proof {
            assert(entries@.map_values(|e: EntryKind| e@) =~= Seq::<GEntry>::empty());
        }
        loop
            invariant
                lexer.wf(),
                toks0 == old(lexer)@,
                arg_pos <= entries@.len(),
                is_unnamed_arg ==> arg_pos >= 1,
                s_entries(toks0, Seq::empty(), 0, Option::None, false) == s_entries(
                    lexer@,
                    entries@.map_values(|e: EntryKind| e@),
                    arg_pos as int,
                    pend_view(prop_name),
                    is_unnamed_arg,
                ),
            decreases lexer@.len(),
        {
            let ghost pre_toks = lexer@;
            let ghost pre_acc = entries@.map_values(|e: EntryKind| e@);
            let ghost pre_pos = arg_pos as int;
            let ghost pre_pend = pend_view(prop_name);
            let ghost pre_un = is_unnamed_arg;
            let tok = lexer.next();
            let token = match tok {
                None => {
                    if prop_name.is_some() {
                        return Err(ParseError::MissingEntryValue);
                    }
                    return Ok(Entries(entries));
                },
                Some(t) => t,
            };
            proof {
                assert(pre_toks[0] == token@);
                assert(lexer@ == pre_toks.drop_first());
            }
            let value: Option<Value> = match token {
                TokenType::LeaveSquareBracket => {
                    if prop_name.is_some() {
                        return Err(ParseError::MissingEntryValue);
                    }
                    return Ok(Entries(entries));
                },
                TokenType::Alphanumeric(s) => {
                    is_unnamed_arg = true;
                    let v = if s.unicode_len() == 0 {
                        let empty_name = String::new();
                        proof {
                            assert(empty_name@ =~= s@);
                        }
                        Value::String(empty_name)
                    } else {
                        match parse_alphanumeric(s.as_str()) {
                            Err(e) => {
                                return Err(e.into_parse_error(s.as_str()));
                            },
                            Ok(v) => v,
                        }
                    };
                    let is_wild = match &v {
                        Value::String(w) => w.unicode_len() == 1 && w.as_str().get_char(0) == '_',
                        _ => false,
                    };
                    proof {
                        if is_wild {
                            assert(v@ == GValue::Str(seq!['_'])) by {
                                match v {
                                    Value::String(w) => {
                                        assert(w@ =~= seq!['_']);
                                    },
                                    _ => {},
                                }
                            }
                        } else {
                            assert(v@ != GValue::Str(seq!['_'])) by {
                                match v {
                                    Value::String(w) => {
                                        if w@ == seq!['_'] {
                                            assert(w@.len() == 1 && w@[0] == '_');
                                        }
                                    },
                                    _ => {},
                                }
                            }
                        }
                    }
                    if is_wild {
                        None
                    } else {
                        Some(v)
                    }
                },
                TokenType::String(s) => {
                    is_unnamed_arg = true;
                    match parse_string(s.as_str()) {
                        Err(e) => {
                            return Err(e.into_parse_error(s.as_str()));
                        },
                        Ok(t) => Some(Value::String(t)),
                    }
                },
                TokenType::Equal => {
                    if prop_name.is_some() {
                        return Err(ParseError::DoubleEqual);
                    }
                    let popped = entries.pop();
                    let arg_value = match popped {
                        Some(EntryKind::Argument { position: _, value }) => value,
                        _ => {
                            return Err(ParseError::MissingEntryIdentifier);
                        },
                    };
                    if !is_unnamed_arg {
                        return Err(ParseError::MissingEntryIdentifier);
                    }
                    proof {
                        assert(entries@.map_values(|e: EntryKind| e@) =~= pre_acc.drop_last());
                    }
                    prop_name = Some(arg_value);
                    arg_pos = arg_pos - 1;
                    is_unnamed_arg = false;
                    continue ;
                },
                t => {
                    return Err(ParseError::UnexpectedToken(t));
                },
            };
            let ghost gval = opt_value_view(value);
            proof {
                assert(s_entries(pre_toks, pre_acc, pre_pos, pre_pend, pre_un) == (
                match s_entries_push(pre_acc, pre_pos, pre_pend, gval) {
                    Err(e) => Err::<(Seq<GEntry>, Seq<GToken>), GParseError>(e),
                    Ok((acc2, pos2, un2)) => s_entries(lexer@, acc2, pos2, Option::None, un2),
                }));
            }
            match prop_name {
                Some(None) => {
                    return Err(ParseError::UndefinedEntryIdentifier);
                },
                Some(Some(Value::String(name))) => {
                    entries.push(EntryKind::Property { name, value });
                    prop_name = None;
                    is_unnamed_arg = false;
                },
                Some(Some(Value::Integer(position))) => {
                    entries.push(
                        EntryKind::Argument {
                            position: #[verifier::truncate] (position as u64),
                            value,
                        },
                    );
                    prop_name = None;
                    is_unnamed_arg = false;
                },
                Some(Some(s)) => {
                    return Err(ParseError::UnexpectedEntryIdentifier(s));
                },
                None => {
                    entries.push(
                        EntryKind::Argument {
                            position: #[verifier::truncate] (arg_pos as u64),
                            value,
                        },
                    );
                    let _n_entries = entries.len();
                    proof {
                        assert(arg_pos as int + 1 <= _n_entries as int);
                    }
                    arg_pos = arg_pos + 1;
                },
            }
            proof {
                assert(entries@.map_values(|e: EntryKind| e@) =~= pre_acc.push(
                    entries@.last()@,
                ));
                let stepped = s_entries_push(pre_acc, pre_pos, pre_pend, gval);
                assert(stepped is Ok);
                assert(entries@.map_values(|e: EntryKind| e@) == stepped->Ok_0.0);
                assert(arg_pos as int == stepped->Ok_0.1);
                assert(is_unnamed_arg == stepped->Ok_0.2);
                assert(pend_view(prop_name) is None);
            }
        }
    }
}

/// The mathematical value of a pending identifier.
pub open spec fn pend_view(p: Option<Option<Value>>) -> Option<Option<GValue>> {
    match p {
        Option::None => Option::None,
        Option::Some(Option::None) => Option::Some(Option::None),
        Option::Some(Option::Some(v)) => Option::Some(Option::Some(v@)),
    }
}

} // verus!
