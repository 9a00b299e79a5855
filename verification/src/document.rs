//! The document tree that queries are resolved against: a forest of named
//! nodes, each with ordered entries and an optional child document.

use vstd::prelude::*;

use crate::value::{GValue, Value};

verus! {

/// One entry of a document node: a positional argument (no name) or a
/// named property.
#[derive(Debug, Clone, PartialEq)]
pub struct DocEntry {
    pub name: Option<String>,
    pub value: Value,
}

/// A node: a name, ordered entries, and an optional child document.
#[derive(Debug, PartialEq)]
pub struct DocNode {
    pub name: String,
    pub entries: Vec<DocEntry>,
    pub children: Option<Document>,
}

/// A document: an ordered forest of nodes.
#[derive(Debug, PartialEq)]
pub struct Document {
    pub nodes: Vec<DocNode>,
}

/// The mathematical value of a [`DocEntry`].
pub struct GDocEntry {
    pub name: Option<Seq<char>>,
    pub value: GValue,
}

/// The mathematical value of a [`DocNode`].
pub struct GNode {
    pub name: Seq<char>,
    pub entries: Seq<GDocEntry>,
    pub children: Option<Seq<GNode>>,
}

/// The mathematical value of a [`DocEntry`].
pub open spec fn entry_view(e: DocEntry) -> GDocEntry {
    GDocEntry {
        name: match e.name {
            Option::None => Option::None,
            Option::Some(s) => Option::Some(s@),
        },
        value: e.value@,
    }
}

/// The mathematical value of a [`DocNode`].
pub open spec fn node_view(n: DocNode) -> GNode
    decreases n,
{
    GNode {
        name: n.name@,
        entries: n.entries@.map_values(|e: DocEntry| e@),
        children: match n.children {
            Option::None => Option::None,
            Option::Some(d) => Option::Some(nodes_view(d.nodes@)),
        },
    }
}

/// The mathematical values of a sequence of nodes.
pub open spec fn nodes_view(v: Seq<DocNode>) -> Seq<GNode>
    decreases v,
{
    if v.len() == 0 {
        Seq::empty()
    } else {
        seq![node_view(v[0])] + nodes_view(v.drop_first())
    }
}

/// A node sequence's value is the values of its nodes, in order.
pub broadcast proof fn lemma_nodes_view(v: Seq<DocNode>)
    ensures
        (#[trigger] nodes_view(v)).len() == v.len(),
        forall|i: int| 0 <= i < v.len() ==> nodes_view(v)[i] == node_view(v[i]),
    decreases v.len(),
{
    if v.len() > 0 {
        lemma_nodes_view(v.drop_first());
    }
}

/// The mathematical values of a list of node references.
pub open spec fn refs_view(s: Seq<&DocNode>) -> Seq<GNode> {
    s.map_values(|n: &DocNode| node_view(*n))
}

/// A reference list's value is the values of its nodes, in order.
pub broadcast proof fn lemma_refs_view(s: Seq<&DocNode>)
    ensures
        (#[trigger] refs_view(s)).len() == s.len(),
        forall|i: int| 0 <= i < s.len() ==> refs_view(s)[i] == node_view(*s[i]),
{
}

impl View for DocEntry {
    type V = GDocEntry;

    open spec fn view(&self) -> GDocEntry {
        entry_view(*self)
    }
}

impl View for DocNode {
    type V = GNode;

    open spec fn view(&self) -> GNode {
        node_view(*self)
    }
}

impl View for Document {
    type V = Seq<GNode>;

    open spec fn view(&self) -> Seq<GNode> {
        nodes_view(self.nodes@)
    }
}

impl DocEntry {
    /// A positional argument.
    pub fn argument(value: Value) -> (r: DocEntry)
        ensures
            r@ == (GDocEntry { name: Option::None, value: value@ }),
    {
        DocEntry { name: None, value }
    }

    /// A named property.
    pub fn property(name: String, value: Value) -> (r: DocEntry)
        ensures
            r@ == (GDocEntry { name: Option::Some(name@), value: value@ }),
    {
        DocEntry { name: Some(name), value }
    }
}

impl Document {
    /// The nodes of the document, in order.
    pub fn nodes(&self) -> (r: &Vec<DocNode>)
        ensures
            nodes_view(r@) == self@,
    {
        &self.nodes
    }
}

impl DocNode {
    /// The node's name.
    pub fn name(&self) -> (r: &String)
        ensures
            r@ == self@.name,
    {
        &self.name
    }

    /// The node's entries, in order.
    pub fn entries(&self) -> (r: &Vec<DocEntry>)
        ensures
            r@.map_values(|e: DocEntry| e@) == self@.entries,
    {
        &self.entries
    }

    /// The node's child document, if it has one.
    pub fn children(&self) -> (r: Option<&Document>)
        ensures
            r is Some <==> self@.children is Some,
            r is Some ==> r->0@ == self@.children->0,
    {
        self.children.as_ref()
    }
}

} // verus!
