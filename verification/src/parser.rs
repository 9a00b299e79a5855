//! Path parsing: selectors, ranges, and the query path.

use vstd::prelude::*;

use crate::entries::{s_entries, Entries, GEntry};
use crate::error::{GParseError, ParseError};
use crate::lexer::{tokens_of, GToken, Lexer, TokenType};
use crate::strings::{parse_alphanumeric, parse_string, spec_parse_alnum, spec_parse_string};
use crate::value::{GValue, Value};
use vstd::string::StrSliceExecFns;

verus! {

/// What a path segment selects.
#[derive(Debug, Clone, PartialEq)]
pub enum NodeKind {
    /// A node with this name.
    Named(String),
    /// Any node in the current scope.
    Any,
    /// Any node anywhere in the current scope's subtree.
    Anywhere,
    /// The parent of the current scope.
    Parent,
    /// The document root; only meaningful as the first segment.
    Root,
}

/// The mathematical value of a [`NodeKind`].
pub enum GKind {
    Named(Seq<char>),
    Any,
    Anywhere,
    Parent,
    Root,
}

impl View for NodeKind {
    type V = GKind;

    open spec fn view(&self) -> GKind {
        match self {
            NodeKind::Named(s) => GKind::Named(s@),
            NodeKind::Any => GKind::Any,
            NodeKind::Anywhere => GKind::Anywhere,
            NodeKind::Parent => GKind::Parent,
            NodeKind::Root => GKind::Root,
        }
    }
}

/// An index slice `{…}` applied to a segment's candidates.
#[derive(Debug, Clone, Copy, PartialEq, Eq, Structural)]
pub enum Range {
    /// `{i}`: the single candidate at index `i`.
    One(i128),
    /// `{i..}`: the candidates from index `i` on.
    From(i128),
    /// `{..j}`: the first `j` candidates.
    To(i128),
    /// `{i..j}`: the candidates from index `i` up to `j`.
    Both(i128, i128),
    /// `{..}`: every candidate.
    All,
}

/// One segment of a query path: a kind, refined by an optional entries
/// predicate and an optional range.
#[derive(Debug, Clone, PartialEq)]
pub struct Node {
    pub node: NodeKind,
    pub entries: Option<Entries>,
    pub range: Option<Range>,
}

/// The mathematical value of a [`Node`].
pub struct GSel {
    pub kind: GKind,
    pub entries: Option<Seq<GEntry>>,
    pub range: Option<Range>,
}

impl View for Node {
    type V = GSel;

    open spec fn view(&self) -> GSel {
        GSel {
            kind: self.node@,
            entries: match &self.entries {
                Option::None => Option::None,
                Option::Some(e) => Option::Some(e@),
            },
            range: self.range,
        }
    }
}

impl Node {
    /// A bare segment of the given kind.
    pub fn from(node: NodeKind) -> (r: Node)
        ensures
            r@ == (GSel { kind: node@, entries: Option::None, range: Option::None }),
    {
        Node { node, entries: None, range: None }
    }
}

/// An ordered list of selectors, applied left to right.
#[derive(Debug, Clone, PartialEq)]
pub struct Path {
    nodes: Vec<Node>,
}

impl View for Path {
    type V = Seq<GSel>;

    closed spec fn view(&self) -> Seq<GSel> {
        self.nodes@.map_values(|n: Node| n@)
    }
}

impl Path {
    /// The selectors, in order.
    pub fn nodes(&self) -> (r: &Vec<Node>)
        ensures
            r@.map_values(|n: Node| n@) == self@,
    {
        &self.nodes
    }
}

/// A segment under construction: at most one kind, one entries list and one
/// range, each set at most once.
struct NodeBuilder(Option<Node>);

impl NodeBuilder {
    spec fn view(&self) -> Option<GSel> {
        match &self.0 {
            Option::None => Option::None,
            Option::Some(n) => Option::Some(n@),
        }
    }

    fn new() -> (r: Self)
        ensures
            r.view() is None,
    {
        NodeBuilder(None)
    }

    fn set_node(&mut self, node: NodeKind) -> (r: Result<(), ParseError>)
        ensures
            old(self).view() is Some ==> r is Err && r->Err_0@ == GParseError::NodeAlreadyDefined
                && final(self).view() == old(self).view(),
            old(self).view() is None ==> r is Ok && final(self).view() == Option::Some(
                GSel { kind: node@, entries: Option::None, range: Option::None },
            ),
    {
        if self.0.is_some() {
            return Err(ParseError::NodeAlreadyDefined);
        }
        self.0 = Some(Node::from(node));
        Ok(())
    }

    fn set_entries(&mut self, entries: Entries) -> (r: Result<(), ParseError>)
        ensures
            old(self).view() is None ==> r is Err && r->Err_0@ == GParseError::MissingNode
                && final(self).view() == old(self).view(),
            old(self).view() is Some && old(self).view()->0.entries is Some ==> r is Err
                && r->Err_0@ == GParseError::EntriesAlreadyDefined && final(self).view() == old(self).view(),
            old(self).view() is Some && old(self).view()->0.entries is None ==> r is Ok && final(self).view() == Option::Some(
                GSel {
                    kind: old(self).view()->0.kind,
                    entries: Option::Some(entries@),
                    range: old(self).view()->0.range,
                },
            ),
    {
        let node = match &mut self.0 {
            None => {
                return Err(ParseError::MissingNode);
            },
            Some(node) => node,
        };
        if node.entries.is_some() {
            return Err(ParseError::EntriesAlreadyDefined);
        }
        node.entries = Some(entries);
        Ok(())
    }

    fn set_range(&mut self, range: Range) -> (r: Result<(), ParseError>)
        ensures
            old(self).view() is None ==> r is Err && r->Err_0@ == GParseError::MissingNode
                && final(self).view() == old(self).view(),
            old(self).view() is Some && old(self).view()->0.range is Some ==> r is Err
                && r->Err_0@ == GParseError::RangeAlreadyDefined && final(self).view() == old(self).view(),
            old(self).view() is Some && old(self).view()->0.range is None ==> r is Ok && final(self).view() == Option::Some(
                GSel {
                    kind: old(self).view()->0.kind,
                    entries: old(self).view()->0.entries,
                    range: Option::Some(range),
                },
            ),
    {
        let node = match &mut self.0 {
            None => {
                return Err(ParseError::MissingNode);
            },
            Some(node) => node,
        };
        if node.range.is_some() {
            return Err(ParseError::RangeAlreadyDefined);
        }
        node.range = Some(range);
        Ok(())
    }

    fn pop(&mut self) -> (r: Result<Node, ParseError>)
        ensures
            old(self).view() is None ==> r is Err && r->Err_0@ == GParseError::MissingNode
                && final(self).view() == old(self).view(),
            old(self).view() is Some ==> r is Ok && r->Ok_0@ == old(self).view()->0 && final(self).view() is None,
    {
        match self.0.take() {
            None => Err(ParseError::MissingNode),
            Some(n) => Ok(n),
        }
    }
}

/// A segment of the given kind with nothing else set.
pub open spec fn bare_sel(kind: GKind) -> GSel {
    GSel { kind, entries: Option::None, range: Option::None }
}

/// The range parser, one token at a time: at most two integers separated by
/// at most one `..`, ended by `}`. `idx0` and `idx1` are the integers seen
/// before and after the separator.
///
/// Yields the range and the tokens left after the closing `}`.
pub open spec fn s_range(
    toks: Seq<GToken>,
    idx0: Option<int>,
    idx1: Option<int>,
    has_sep: bool,
) -> Result<(Range, Seq<GToken>), GParseError>
    decreases toks.len(),
{
    if toks.len() == 0 {
        Err(GParseError::RangeMissingEnd)
    } else {
        let rest = toks.drop_first();
        match toks[0] {
            GToken::Alnum(s) => match spec_parse_alnum(s) {
                Err(e) => Err(GParseError::MalformedString(s, e)),
                Ok(gv) => match gv {
                    GValue::Int(i) => if has_sep {
                        if idx1 is Some {
                            Err(GParseError::RangeMissingSeparator)
                        } else {
                            s_range(rest, idx0, Option::Some(i), true)
                        }
                    } else {
                        if idx0 is Some {
                            Err(GParseError::RangeMissingSeparator)
                        } else {
                            s_range(rest, Option::Some(i), idx1, false)
                        }
                    },
                    v => Err(GParseError::RangeExpectingInteger(v)),
                },
            },
            GToken::DoublePoint => if has_sep {
                Err(GParseError::UnexpectedToken(GToken::DoublePoint))
            } else {
                s_range(rest, idx0, idx1, true)
            },
            GToken::LeaveCurly => match (idx0, idx1, has_sep) {
                (Option::None, Option::None, false) => Err(GParseError::RangeEmpty),
                (Option::None, Option::None, true) => Ok((Range::All, rest)),
                (Option::Some(i), Option::None, false) => Ok((Range::One(i as i128), rest)),
                (Option::Some(i), Option::None, true) => Ok((Range::From(i as i128), rest)),
                (Option::None, Option::Some(j), true) => Ok((Range::To(j as i128), rest)),
                (Option::None, Option::Some(_), false) => Err(GParseError::RangeMissingSeparator),
                (Option::Some(i), Option::Some(j), true) => Ok(
                    (Range::Both(i as i128, j as i128), rest),
                ),
                (Option::Some(_), Option::Some(_), false) => Err(
                    GParseError::RangeMissingSeparator,
                ),
            },
            t => Err(GParseError::UnexpectedToken(t)),
        }
    }
}

/// An entries parse leaves no more tokens than it was given.
pub proof fn lemma_s_entries_rest(
    toks: Seq<GToken>,
    acc: Seq<GEntry>,
    pos: int,
    pending: Option<Option<GValue>>,
    unnamed: bool,
)
    ensures
        s_entries(toks, acc, pos, pending, unnamed) is Ok ==> s_entries(
            toks,
            acc,
            pos,
            pending,
            unnamed,
        )->Ok_0.1.len() <= toks.len(),
    decreases toks.len(),
{
    if toks.len() > 0 {
        let rest = toks.drop_first();
        match toks[0] {
            GToken::Alnum(s) => {
                match spec_parse_alnum(s) {
                    Err(_) => {},
                    Ok(gv) => {
                        let value: Option<GValue> = if gv == GValue::Str(seq!['_']) {
                            Option::None
                        } else {
                            Option::Some(gv)
                        };
                        match crate::entries::s_entries_push(acc, pos, pending, value) {
                            Err(_) => {},
                            Ok((acc2, pos2, un2)) => {
                                lemma_s_entries_rest(rest, acc2, pos2, Option::None, un2);
                            },
                        }
                    },
                }
            },
            GToken::Str(s) => {
                match spec_parse_string(s) {
                    Err(_) => {},
                    Ok(t) => {
                        match crate::entries::s_entries_push(
                            acc,
                            pos,
                            pending,
                            Option::Some(GValue::Str(t)),
                        ) {
                            Err(_) => {},
                            Ok((acc2, pos2, un2)) => {
                                lemma_s_entries_rest(rest, acc2, pos2, Option::None, un2);
                            },
                        }
                    },
                }
            },
            GToken::Equal => {
                if pending is None && acc.len() > 0 {
                    match acc.last() {
                        GEntry::Property { .. } => {},
                        GEntry::Argument { position: _, value } => {
                            if unnamed {
                                lemma_s_entries_rest(
                                    rest,
                                    acc.drop_last(),
                                    pos - 1,
                                    Option::Some(value),
                                    false,
                                );
                            }
                        },
                    }
                }
            },
            _ => {},
        }
    }
}

/// A range parse leaves no more tokens than it was given.
pub proof fn lemma_s_range_rest(
    toks: Seq<GToken>,
    idx0: Option<int>,
    idx1: Option<int>,
    has_sep: bool,
)
    ensures
        s_range(toks, idx0, idx1, has_sep) is Ok ==> s_range(
            toks,
            idx0,
            idx1,
            has_sep,
        )->Ok_0.1.len() <= toks.len(),
    decreases toks.len(),
{
    if toks.len() > 0 {
        let rest = toks.drop_first();
        match toks[0] {
            GToken::Alnum(s) => {
                match spec_parse_alnum(s) {
                    Err(_) => {},
                    Ok(gv) => match gv {
                        GValue::Int(i) => {
                            lemma_s_range_rest(rest, idx0, Option::Some(i), true);
                            lemma_s_range_rest(rest, Option::Some(i), idx1, false);
                        },
                        _ => {},
                    },
                }
            },
            GToken::DoublePoint => {
                lemma_s_range_rest(rest, idx0, idx1, true);
            },
            _ => {},
        }
    }
}

/// The path parser, one token at a time. `acc` holds the finished segments
/// and `builder` the segment under construction.
///
/// A leading `/` names the document root and a leading `//` means
/// recursive descent; elsewhere `/` closes the segment under construction.
/// `[` and `{` attach entries and a range to the current segment, each at
/// most once. At the end of the tokens the open segment, if any, is closed.
pub open spec fn s_path(toks: Seq<GToken>, acc: Seq<GSel>, builder: Option<GSel>) -> Result<
    Seq<GSel>,
    GParseError,
>
    decreases toks.len(),
    via s_path_dec
{
    if toks.len() == 0 {
        match builder {
            Option::Some(b) => Ok(acc.push(b)),
            Option::None => Ok(acc),
        }
    } else {
        let rest = toks.drop_first();
        match toks[0] {
            GToken::Slash => match builder {
                Option::Some(b) => s_path(rest, acc.push(b), Option::None),
                Option::None => if acc.len() == 0 {
                    s_path(rest, acc.push(bare_sel(GKind::Root)), Option::None)
                } else {
                    Err(GParseError::MissingNode)
                },
            },
            GToken::DoubleSlash => if acc.len() == 0 && builder is None {
                s_path(rest, acc.push(bare_sel(GKind::Anywhere)), Option::None)
            } else {
                Err(GParseError::UnexpectedToken(GToken::DoubleSlash))
            },
            GToken::Star => match builder {
                Option::Some(_) => Err(GParseError::NodeAlreadyDefined),
                Option::None => s_path(rest, acc, Option::Some(bare_sel(GKind::Any))),
            },
            GToken::DoubleStar => match builder {
                Option::Some(_) => Err(GParseError::NodeAlreadyDefined),
                Option::None => s_path(rest, acc, Option::Some(bare_sel(GKind::Anywhere))),
            },
            GToken::DoublePoint => match builder {
                Option::Some(_) => Err(GParseError::NodeAlreadyDefined),
                Option::None => s_path(rest, acc, Option::Some(bare_sel(GKind::Parent))),
            },
            GToken::Str(s) => match spec_parse_string(s) {
                Err(e) => Err(GParseError::MalformedString(s, e)),
                Ok(t) => match builder {
                    Option::Some(_) => Err(GParseError::NodeAlreadyDefined),
                    Option::None => s_path(rest, acc, Option::Some(bare_sel(GKind::Named(t)))),
                },
            },
            GToken::Alnum(s) => match spec_parse_alnum(s) {
                Err(e) => Err(GParseError::MalformedString(s, e)),
                Ok(gv) => match gv {
                    GValue::Str(t) => match builder {
                        Option::Some(_) => Err(GParseError::NodeAlreadyDefined),
                        Option::None => s_path(
                            rest,
                            acc,
                            Option::Some(bare_sel(GKind::Named(t))),
                        ),
                    },
                    _ => Err(GParseError::NotANode),
                },
            },
            GToken::EnterSquare => match s_entries(
                rest,
                Seq::empty(),
                0,
                Option::None,
                false,
            ) {
                Err(e) => Err(e),
                Ok((es, rest2)) => match builder {
                    Option::None => Err(GParseError::MissingNode),
                    Option::Some(b) => if b.entries is Some {
                        Err(GParseError::EntriesAlreadyDefined)
                    } else {
                        s_path(
                            rest2,
                            acc,
                            Option::Some(
                                GSel {
                                    kind: b.kind,
                                    entries: Option::Some(es),
                                    range: b.range,
                                },
                            ),
                        )
                    },
                },
            },
            GToken::EnterCurly => match s_range(rest, Option::None, Option::None, false) {
                Err(e) => Err(e),
                Ok((rg, rest2)) => match builder {
                    Option::None => Err(GParseError::MissingNode),
                    Option::Some(b) => if b.range is Some {
                        Err(GParseError::RangeAlreadyDefined)
                    } else {
                        s_path(
                            rest2,
                            acc,
                            Option::Some(
                                GSel {
                                    kind: b.kind,
                                    entries: b.entries,
                                    range: Option::Some(rg),
                                },
                            ),
                        )
                    },
                },
            },
            t => Err(GParseError::UnexpectedToken(t)),
        }
    }
}

#[via_fn]
proof fn s_path_dec(toks: Seq<GToken>, acc: Seq<GSel>, builder: Option<GSel>) {
    if toks.len() > 0 {
        let rest = toks.drop_first();
        lemma_s_entries_rest(rest, Seq::empty(), 0, Option::None, false);
        lemma_s_range_rest(rest, Option::None, Option::None, false);
    }
}

/// The parse of a whole query text.
pub open spec fn spec_parse_path(s: Seq<char>) -> Result<Seq<GSel>, GParseError> {
    s_path(tokens_of(s), Seq::empty(), Option::None)
}

impl Path {
    /// Parses a query path from its source text.
    pub fn parse(input: &str) -> (r: Result<Path, ParseError>)
        ensures
            spec_parse_path(input@) is Ok <==> r is Ok,
            r is Ok ==> r->Ok_0@ == spec_parse_path(input@)->Ok_0,
            r is Err ==> r->Err_0@ == spec_parse_path(input@)->Err_0,
    {
        let mut lexer = Lexer::from(input);
        let ghost toks0 = lexer@;
        let mut nodes: Vec<Node> = Vec::new();
        let mut node_builder = NodeBuilder::new();
        proof {
            assert(nodes@.map_values(|n: Node| n@) =~= Seq::<GSel>::empty());
        }
        loop
            invariant
                lexer.wf(),
                toks0 == tokens_of(input@),
                s_path(toks0, Seq::empty(), Option::None) == s_path(
                    lexer@,
                    nodes@.map_values(|n: Node| n@),
                    node_builder.view(),
                ),
            ensures
                lexer@.len() == 0,
            decreases lexer@.len(),
        {
            let ghost pre_toks = lexer@;
            let ghost pre_acc = nodes@.map_values(|n: Node| n@);
            let ghost pre_builder = node_builder.view();
            let token = match lexer.next() {
                None => {
                    break ;
                },
                Some(t) => t,
            };
            proof {
                assert(pre_toks[0] == token@);
                assert(lexer@ == pre_toks.drop_first());
            }
            match token {
                TokenType::Slash => {
                    match node_builder.pop() {
                        Ok(node) => {
                            nodes.push(node);
                            proof {
                                assert(nodes@.map_values(|n: Node| n@) =~= pre_acc.push(
                                    pre_builder->0,
                                ));
                            }
                        },
                        Err(e) => {
                            if nodes.len() == 0 {
                                nodes.push(Node::from(NodeKind::Root));
                                proof {
                                    assert(nodes@.map_values(|n: Node| n@) =~= pre_acc.push(
                                        bare_sel(GKind::Root),
                                    ));
                                }
                            } else {
                                return Err(e);
                            }
                        },
                    }
                },
                TokenType::DoubleSlash => {
                    if nodes.len() == 0 && node_builder.0.is_none() {
                        nodes.push(Node::from(NodeKind::Anywhere));
                        proof {
                            assert(nodes@.map_values(|n: Node| n@) =~= pre_acc.push(
                                bare_sel(GKind::Anywhere),
                            ));
                        }
                    } else {
                        return Err(ParseError::UnexpectedToken(TokenType::DoubleSlash));
                    }
                },
                TokenType::Star => {
                    match node_builder.set_node(NodeKind::Any) {
                        Ok(()) => {},
                        Err(e) => {
                            return Err(e);
                        },
                    }
                },
                TokenType::DoubleStar => {
                    match node_builder.set_node(NodeKind::Anywhere) {
                        Ok(()) => {},
                        Err(e) => {
                            return Err(e);
                        },
                    }
                },
                TokenType::DoublePoint => {
                    match node_builder.set_node(NodeKind::Parent) {
                        Ok(()) => {},
                        Err(e) => {
                            return Err(e);
                        },
                    }
                },
                TokenType::String(s) => {
                    let name = match parse_string(s.as_str()) {
                        Err(e) => {
                            return Err(e.into_parse_error(s.as_str()));
                        },
                        Ok(t) => t,
                    };
                    match node_builder.set_node(NodeKind::Named(name)) {
                        Ok(()) => {},
                        Err(e) => {
                            return Err(e);
                        },
                    }
                },
                TokenType::Alphanumeric(s) => {
                    let value = if s.unicode_len() == 0 {
                        let empty_name = String::new();
                        proof {
                            assert(empty_name@ =~= s@);
                        }
                        Value::String(empty_name)
                    } else {
                        match parse_alphanumeric(s.as_str()) {
                            Err(e) => {
                                return Err(e.into_parse_error(s.as_str()));
                            },
                            Ok(v) => v,
                        }
                    };
                    let name = match value {
                        Value::String(name) => name,
                        _ => {
                            return Err(ParseError::NotANode);
                        },
                    };
                    match node_builder.set_node(NodeKind::Named(name)) {
                        Ok(()) => {},
                        Err(e) => {
                            return Err(e);
                        },
                    }
                },
                TokenType::EnterSquareBracket => {
                    let entries = match Entries::parse_lexer(&mut lexer) {
                        Err(e) => {
                            return Err(e);
                        },
                        Ok(es) => es,
                    };
                    proof {
                        lemma_s_entries_rest(pre_toks.drop_first(), Seq::empty(), 0, Option::None, false);
                    }
                    match node_builder.set_entries(entries) {
                        Ok(()) => {},
                        Err(e) => {
                            return Err(e);
                        },
                    }
                },
                TokenType::EnterCurlyBracket => {
                    let range = match Path::parse_range(&mut lexer) {
                        Err(e) => {
                            return Err(e);
                        },
                        Ok(rg) => rg,
                    };
                    proof {
                        lemma_s_range_rest(pre_toks.drop_first(), Option::None, Option::None, false);
                    }
                    match node_builder.set_range(range) {
                        Ok(()) => {},
                        Err(e) => {
                            return Err(e);
                        },
                    }
                },
                t => {
                    return Err(ParseError::UnexpectedToken(t));
                },
            }
        }
        if let Ok(node) = node_builder.pop() {
            let ghost pre_acc = nodes@.map_values(|n: Node| n@);
            let ghost b = node@;
            nodes.push(node);
            proof {
                assert(nodes@.map_values(|n: Node| n@) =~= pre_acc.push(b));
            }
        }
        Ok(Path { nodes })
    }

    /// Parses a range after its opening `{`, consuming through the
    /// closing `}`.
    fn parse_range(lexer: &mut Lexer) -> (r: Result<Range, ParseError>)
        requires
            old(lexer).wf(),
        ensures
            final(lexer).wf(),
            ({
                let sp = s_range(old(lexer)@, Option::None, Option::None, false);
                match r {
                    Ok(rg) => sp is Ok && rg == sp->Ok_0.0 && final(lexer)@ == sp->Ok_0.1,
                    Err(e) => sp is Err && e@ == sp->Err_0,
                }
            }),
    {
        let ghost toks0 = lexer@;
        let mut idx0: Option<i128> = None;
        let mut idx1: Option<i128> = None;
        let mut has_sep = false;
        loop
            invariant
                lexer.wf(),
                toks0 == old(lexer)@,
                s_range(toks0, Option::None, Option::None, false) == s_range(
                    lexer@,
                    opt_int_view(idx0),
                    opt_int_view(idx1),
                    has_sep,
                ),
            decreases lexer@.len(),
        {
            let ghost pre_toks = lexer@;
            let token = match lexer.next() {
                None => {
                    return Err(ParseError::RangeMissingEnd);
                },
                Some(t) => t,
            };
            proof {
                assert(pre_toks[0] == token@);
                assert(lexer@ == pre_toks.drop_first());
            }
            match token {
                TokenType::Alphanumeric(s) => {
                    let value = if s.unicode_len() == 0 {
                        let empty_name = String::new();
                        proof {
                            assert(empty_name@ =~= s@);
                        }
                        Value::String(empty_name)
                    } else {
                        match parse_alphanumeric(s.as_str()) {
                            Err(e) => {
                                return Err(e.into_parse_error(s.as_str()));
                            },
                            Ok(v) => v,
                        }
                    };
                    let index = match value {
                        Value::Integer(i) => i,
                        t => {
                            return Err(ParseError::RangeExpectingInteger(t));
                        },
                    };
                    if has_sep {
                        if idx1.is_some() {
                            return Err(ParseError::RangeMissingSeparator);
                        }
                        idx1 = Some(index);
                    } else {
                        if idx0.is_some() {
                            return Err(ParseError::RangeMissingSeparator);
                        }
                        idx0 = Some(index);
                    }
                },
                TokenType::DoublePoint => {
                    if has_sep {
                        return Err(ParseError::UnexpectedToken(TokenType::DoublePoint));
                    }
                    has_sep = true;
                },
                TokenType::LeaveCurlyBracket => {
                    let r = match (idx0, idx1, has_sep) {
                        (None, None, false) => {
                            return Err(ParseError::RangeEmpty);
                        },
                        (None, None, true) => Range::All,
                        (Some(i), None, false) => Range::One(i),
                        (Some(i), None, true) => Range::From(i),
                        (None, Some(j), true) => Range::To(j),
                        (None, Some(_), false) => {
                            return Err(ParseError::RangeMissingSeparator);
                        },
                        (Some(i), Some(j), true) => Range::Both(i, j),
                        (Some(_), Some(_), false) => {
                            return Err(ParseError::RangeMissingSeparator);
                        },
                    };
                    return Ok(r);
                },
                t => {
                    return Err(ParseError::UnexpectedToken(t));
                },
            }
        }
    }
}

/// The mathematical value of an optional range index.
pub open spec fn opt_int_view(v: Option<i128>) -> Option<int> {
    match v {
        Option::None => Option::None,
        Option::Some(i) => Option::Some(i as int),
    }
}

} // verus!
