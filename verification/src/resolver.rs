//! Resolving a parsed path against a document: the tree walk that yields
//! the matching nodes in document order.

use vstd::prelude::*;

use crate::document::{node_view, nodes_view, refs_view, DocNode, Document, GNode};
use crate::matcher::s_entries_match;
use crate::parser::{GKind, GSel, Node, NodeKind, Path, Range};

verus! {

broadcast use vstd::seq_lib::group_seq_properties, crate::document::lemma_nodes_view, crate::document::lemma_refs_view;

/// Whether a segment's entries predicate (if any) accepts a node.
pub open spec fn sel_entries_ok(sel: GSel, n: GNode) -> bool {
    match sel.entries {
        Option::None => true,
        Option::Some(qs) => s_entries_match(n.entries, qs),
    }
}

/// Whether a segment accepts a candidate node: a named segment requires
/// the name, and every kind requires the entries predicate.
pub open spec fn s_matches_sel(sel: GSel, n: GNode) -> bool {
    match sel.kind {
        GKind::Named(name) => n.name == name && sel_entries_ok(sel, n),
        _ => sel_entries_ok(sel, n),
    }
}

/// The candidates a segment keeps, in order.
pub open spec fn s_filter(sel: GSel, cands: Seq<GNode>) -> Seq<GNode>
    decreases cands.len(),
{
    if cands.len() == 0 {
        Seq::empty()
    } else {
        let rest = s_filter(sel, cands.drop_last());
        if s_matches_sel(sel, cands.last()) {
            rest.push(cands.last())
        } else {
            rest
        }
    }
}

/// A segment's range applied to its ordered candidates, with half-open
/// semantics; a negative index empties the stream.
pub open spec fn s_apply_range(r: Option<Range>, s: Seq<GNode>) -> Seq<GNode> {
    match r {
        Option::None => s,
        Option::Some(Range::All) => s,
        Option::Some(Range::One(i)) => if 0 <= i < s.len() {
            seq![s[i as int]]
        } else {
            Seq::empty()
        },
        Option::Some(Range::From(i)) => if i < 0 {
            Seq::empty()
        } else if i > s.len() {
            Seq::empty()
        } else {
            s.skip(i as int)
        },
        Option::Some(Range::To(j)) => if j < 0 {
            Seq::empty()
        } else if j >= s.len() {
            s
        } else {
            s.take(j as int)
        },
        Option::Some(Range::Both(i, j)) => if i < 0 || j < 0 {
            Seq::empty()
        } else {
            let lo = if i <= s.len() {
                i as int
            } else {
                s.len() as int
            };
            let hi0 = if j <= s.len() {
                j as int
            } else {
                s.len() as int
            };
            let hi = if hi0 >= lo {
                hi0
            } else {
                lo
            };
            s.subrange(lo, hi)
        },
    }
}

/// A node followed by its whole subtree, in pre-order.
pub open spec fn s_flat_node(n: GNode) -> Seq<GNode>
    decreases n,
{
    seq![n] + (match n.children {
        Option::Some(ch) => s_flatten(ch),
        Option::None => Seq::empty(),
    })
}

/// The pre-order traversal of a forest: each node before its subtree,
/// siblings in order.
pub open spec fn s_flatten(nodes: Seq<GNode>) -> Seq<GNode>
    decreases nodes,
{
    if nodes.len() == 0 {
        Seq::empty()
    } else {
        s_flatten(nodes.drop_last()) + s_flat_node(nodes.last())
    }
}

/// One resolution step: applies the head segment of `q` to the candidate
/// scope `cands`, with `stack` holding the parents entered so far, and
/// yields the matched nodes in order.
///
/// A named or `*` segment filters the scope; `**` filters the pre-order
/// flattening of the scope and hands the tail the flat stream itself;
/// `..` steps to the most recently entered parent; a leading `/` (the
/// root marker) changes nothing.
pub open spec fn s_rqn(q: Seq<GSel>, cands: Seq<GNode>, stack: Seq<GNode>) -> Seq<GNode>
    decreases q.len(), 0int, 0int,
{
    if q.len() == 0 {
        Seq::empty()
    } else {
        let sel = q[0];
        let tail = q.drop_first();
        match sel.kind {
            GKind::Named(_) => s_dispatch(tail, s_apply_range(sel.range, s_filter(sel, cands)), stack),
            GKind::Any => s_dispatch(tail, s_apply_range(sel.range, s_filter(sel, cands)), stack),
            GKind::Anywhere => s_dispatch_flat(
                tail,
                s_apply_range(sel.range, s_filter(sel, s_flatten(cands))),
                stack,
            ),
            GKind::Parent => if stack.len() == 0 {
                Seq::empty()
            } else {
                s_dispatch(
                    tail,
                    s_apply_range(sel.range, s_filter(sel, seq![stack.last()])),
                    stack.drop_last(),
                )
            },
            GKind::Root => s_rqn(tail, cands, stack),
        }
    }
}

/// Hands the surviving candidates of a segment to the rest of the path:
/// with nothing left they are the results; otherwise each candidate is
/// entered in turn, pushing it on the parent stack when it has a child
/// document and recursing over its children (an empty scope otherwise).
pub open spec fn s_dispatch(q: Seq<GSel>, cands: Seq<GNode>, stack: Seq<GNode>) -> Seq<GNode>
    decreases q.len(), 1int, cands.len(),
{
    if q.len() == 0 {
        cands
    } else if cands.len() == 0 {
        Seq::empty()
    } else {
        let n = cands[0];
        let entered = match n.children {
            Option::None => s_rqn(q, Seq::empty(), stack),
            Option::Some(ch) => s_rqn(q, ch, stack.push(n)),
        };
        entered + s_dispatch(q, cands.drop_first(), stack)
    }
}

/// Hands the flat stream of a `**` segment to the rest of the path: the
/// tail selects from the stream directly, without entering children.
pub open spec fn s_dispatch_flat(q: Seq<GSel>, cands: Seq<GNode>, stack: Seq<GNode>) -> Seq<
    GNode,
>
    decreases q.len(), 1int, 0int,
{
    if q.len() == 0 {
        cands
    } else {
        s_rqn(q, cands, stack)
    }
}

/// The nodes a path selects from a document, in document order.
pub open spec fn s_resolve(doc: Seq<GNode>, q: Seq<GSel>) -> Seq<GNode> {
    s_rqn(q, doc, Seq::empty())
}

/// What one entered candidate contributes to the results.
pub open spec fn s_dispatch_one(q: Seq<GSel>, n: GNode, stack: Seq<GNode>) -> Seq<GNode>
    decreases q.len(), 2int, 0int,
{
    match n.children {
        Option::None => s_rqn(q, Seq::empty(), stack),
        Option::Some(ch) => s_rqn(q, ch, stack.push(n)),
    }
}

/// What the first `i` candidates contribute to the results.
pub open spec fn s_dispatch_prefix(
    q: Seq<GSel>,
    cands: Seq<GNode>,
    stack: Seq<GNode>,
    i: int,
) -> Seq<GNode>
    decreases q.len(), 3int, i,
{
    if i <= 0 {
        Seq::empty()
    } else {
        s_dispatch_prefix(q, cands, stack, i - 1) + s_dispatch_one(q, cands[i - 1], stack)
    }
}

/// Entering candidates splits into the first `i` and the rest.
pub proof fn lemma_dispatch_split(q: Seq<GSel>, cands: Seq<GNode>, stack: Seq<GNode>, i: int)
    requires
        q.len() > 0,
        0 <= i <= cands.len(),
    ensures
        s_dispatch(q, cands, stack) == s_dispatch_prefix(q, cands, stack, i) + s_dispatch(
            q,
            cands.skip(i),
            stack,
        ),
    decreases i,
{
    if i == 0 {
        assert(cands.skip(0) =~= cands);
        assert(Seq::<GNode>::empty() + s_dispatch(q, cands, stack) =~= s_dispatch(
            q,
            cands,
            stack,
        ));
    } else {
        lemma_dispatch_split(q, cands, stack, i - 1);
        let tail = cands.skip(i - 1);
        assert(tail[0] == cands[i - 1]);
        assert(tail.drop_first() =~= cands.skip(i));
        assert(s_dispatch(q, tail, stack) == s_dispatch_one(q, cands[i - 1], stack) + s_dispatch(
            q,
            cands.skip(i),
            stack,
        ));
        assert(s_dispatch_prefix(q, cands, stack, i - 1) + (s_dispatch_one(
            q,
            cands[i - 1],
            stack,
        ) + s_dispatch(q, cands.skip(i), stack)) =~= (s_dispatch_prefix(q, cands, stack, i - 1)
            + s_dispatch_one(q, cands[i - 1], stack)) + s_dispatch(q, cands.skip(i), stack));
    }
}

/// References to the nodes of a document, in order.
fn doc_refs<'k>(d: &'k Document) -> (r: Vec<&'k DocNode>)
    ensures
        refs_view(r@) == d@,
{
    let mut out: Vec<&'k DocNode> = Vec::new();
    let nodes = d.nodes();
    let mut i: usize = 0;
    proof {
        crate::document::lemma_nodes_view(nodes@);
    }
    while i < nodes.len()
        invariant
            i <= nodes@.len(),
            nodes_view(nodes@) == d@,
            nodes_view(nodes@).len() == nodes@.len(),
            forall|j: int|
                0 <= j < nodes@.len() ==> nodes_view(nodes@)[j] == node_view(nodes@[j]),
            out@.len() == i,
            refs_view(out@) =~= d@.take(i as int),
        decreases nodes@.len() - i,
    {
        out.push(&nodes[i]);
        i = i + 1;
        proof {
            assert(out@.len() == i);
            assert(*out@[i - 1] == nodes@[i - 1]);
            assert(refs_view(out@)[i - 1] == node_view(nodes@[i - 1]));
            assert(d@.take(i as int)[i - 1] == node_view(nodes@[i - 1]));
            assert(refs_view(out@) =~= d@.take(i as int));
        }
    }
    proof {
        assert(d@.take(d@.len() as int) =~= d@);
    }
    out
}

/// Keeps the candidates a segment accepts, in order.
fn filter_sel<'k>(sel: &Node, cands: Vec<&'k DocNode>) -> (r: Vec<&'k DocNode>)
    ensures
        refs_view(r@) == s_filter(sel@, refs_view(cands@)),
{
    let ghost gcands = refs_view(cands@);
    let mut out: Vec<&'k DocNode> = Vec::new();
    let mut i: usize = 0;
    proof {
        assert(refs_view(out@) =~= s_filter(sel@, gcands.take(0)));
    }
    while i < cands.len()
        invariant
            i <= cands@.len(),
            gcands == refs_view(cands@),
            out@.len() == s_filter(sel@, gcands.take(i as int)).len(),
            refs_view(out@) == s_filter(sel@, gcands.take(i as int)),
        decreases cands@.len() - i,
    {
        let n: &'k DocNode = cands[i];
        let name_ok = match &sel.node {
            NodeKind::Named(nm) => n.name == *nm,
            _ => true,
        };
        let entries_ok = match &sel.entries {
            None => true,
            Some(es) => es.matches_entries(&n.entries),
        };
        proof {
            assert(gcands[i as int] == node_view(*n));
            assert((name_ok && entries_ok) == s_matches_sel(sel@, gcands[i as int]));
            assert(gcands.take(i + 1).drop_last() =~= gcands.take(i as int));
            assert(gcands.take(i + 1).last() == gcands[i as int]);
        }
        if name_ok && entries_ok {
            out.push(n);
            proof {
                assert(refs_view(out@) =~= s_filter(sel@, gcands.take(i as int)).push(
                    gcands[i as int],
                ));
            }
        }
        i = i + 1;
    }
    proof {
        assert(gcands.take(cands@.len() as int) =~= gcands);
    }
    out
}

/// The references `cands[lo..hi]`.
fn take_subrange<'k>(cands: &Vec<&'k DocNode>, lo: usize, hi: usize) -> (r: Vec<&'k DocNode>)
    requires
        lo <= hi <= cands@.len(),
    ensures
        refs_view(r@) == refs_view(cands@).subrange(lo as int, hi as int),
{
    let mut out: Vec<&'k DocNode> = Vec::new();
    let mut i: usize = lo;
    while i < hi
        invariant
            lo <= i <= hi <= cands@.len(),
            out@.len() == i - lo,
            refs_view(out@) =~= refs_view(cands@).subrange(lo as int, i as int),
        decreases hi - i,
    {
        out.push(cands[i]);
        i = i + 1;
        proof {
            assert(refs_view(out@) =~= refs_view(cands@).subrange(lo as int, i as int));
        }
    }
    out
}

/// Applies a segment's range to its ordered candidates.
fn apply_range<'k>(range: &Option<Range>, cands: Vec<&'k DocNode>) -> (r: Vec<&'k DocNode>)
    ensures
        refs_view(r@) == s_apply_range(*range, refs_view(cands@)),
{
    let n = cands.len();
    match range {
        None => cands,
        Some(Range::All) => cands,
        Some(Range::One(i)) => {
            if 0 <= *i && *i < n as i128 {
                let r = take_subrange(&cands, *i as usize, *i as usize + 1);
                proof {
                    assert(refs_view(cands@).subrange(*i as int, *i as int + 1) =~= seq![
                        refs_view(cands@)[*i as int],
                    ]);
                }
                r
            } else {
                Vec::new()
            }
        },
        Some(Range::From(i)) => {
            if *i < 0 || *i > n as i128 {
                Vec::new()
            } else {
                let r = take_subrange(&cands, *i as usize, n);
                proof {
                    assert(refs_view(cands@).subrange(*i as int, n as int) =~= refs_view(
                        cands@,
                    ).skip(*i as int));
                }
                r
            }
        },
        Some(Range::To(j)) => {
            if *j < 0 {
                Vec::new()
            } else if *j >= n as i128 {
                cands
            } else {
                let r = take_subrange(&cands, 0, *j as usize);
                proof {
                    assert(refs_view(cands@).subrange(0, *j as int) =~= refs_view(cands@).take(
                        *j as int,
                    ));
                }
                r
            }
        },
        Some(Range::Both(i, j)) => {
            if *i < 0 || *j < 0 {
                Vec::new()
            } else {
                let lo: usize = if *i <= n as i128 {
                    *i as usize
                } else {
                    n
                };
                let hi0: usize = if *j <= n as i128 {
                    *j as usize
                } else {
                    n
                };
                let hi: usize = if hi0 >= lo {
                    hi0
                } else {
                    lo
                };
                take_subrange(&cands, lo, hi)
            }
        },
    }
}

/// Appends a node and its whole subtree to `out`, in pre-order.
fn flatten_node<'k>(out: &mut Vec<&'k DocNode>, n: &'k DocNode)
    ensures
        refs_view(final(out)@) == refs_view(old(out)@) + s_flat_node(node_view(*n)),
    decreases *n,
{
    let ghost base = refs_view(old(out)@);
    out.push(n);
    proof {
        assert(refs_view(out@) =~= base + seq![node_view(*n)]);
    }
    match &n.children {
        None => {
            proof {
                assert(base + seq![node_view(*n)] =~= base + s_flat_node(node_view(*n)));
            }
        },
        Some(d) => {
            let nodes = &d.nodes;
            let ghost gch = nodes_view(nodes@);
            proof {
                crate::document::lemma_nodes_view(nodes@);
                assert(node_view(*n).children == Option::Some(gch));
            }
            let mut i: usize = 0;
            while i < nodes.len()
                invariant
                    i <= nodes@.len(),
                    gch == nodes_view(nodes@),
                    gch.len() == nodes@.len(),
                    n.children == Option::Some(*d),
                    forall|j: int| 0 <= j < nodes@.len() ==> gch[j] == node_view(nodes@[j]),
                    nodes == d.nodes,
                    refs_view(out@) == base + seq![node_view(*n)] + s_flatten(
                        gch.take(i as int),
                    ),
                decreases nodes@.len() - i,
            {
                proof {
                    assert(decreases_to!(*n => n.children->0));
                    assert(decreases_to!(n.children->0 => n.children->0.nodes));
                    assert(decreases_to!(n.children->0.nodes => n.children->0.nodes@));
                    assert(decreases_to!(n.children->0.nodes@ => n.children->0.nodes@[i as int]));
                    assert(n.children->0.nodes@[i as int] == nodes@[i as int]);
                }
                flatten_node(out, &nodes[i]);
                i = i + 1;
                proof {
                    assert(gch.take(i as int).drop_last() =~= gch.take(i - 1));
                    assert(gch.take(i as int).last() == gch[i - 1]);
                    assert(refs_view(out@) =~= base + seq![node_view(*n)] + s_flatten(
                        gch.take(i as int),
                    ));
                }
            }
            proof {
                assert(gch.take(nodes@.len() as int) =~= gch);
                assert(base + seq![node_view(*n)] + s_flatten(gch) =~= base + s_flat_node(
                    node_view(*n),
                ));
            }
        },
    }
}

/// The pre-order traversal of the given scope.
fn flatten_vec<'k>(cands: &Vec<&'k DocNode>) -> (r: Vec<&'k DocNode>)
    ensures
        refs_view(r@) == s_flatten(refs_view(cands@)),
{
    let ghost gcands = refs_view(cands@);
    let mut out: Vec<&'k DocNode> = Vec::new();
    let mut i: usize = 0;
    proof {
        assert(refs_view(out@) =~= s_flatten(gcands.take(0)));
    }
    while i < cands.len()
        invariant
            i <= cands@.len(),
            gcands == refs_view(cands@),
            refs_view(out@) == s_flatten(gcands.take(i as int)),
        decreases cands@.len() - i,
    {
        flatten_node(&mut out, cands[i]);
        i = i + 1;
        proof {
            assert(gcands.take(i as int).drop_last() =~= gcands.take(i - 1));
            assert(gcands.take(i as int).last() == gcands[i - 1]);
            assert(gcands[i - 1] == node_view(*cands@[i - 1]));
            assert(refs_view(out@) =~= s_flatten(gcands.take(i as int)));
        }
    }
    proof {
        assert(gcands.take(cands@.len() as int) =~= gcands);
    }
    out
}

/// The resolver's state: the stack of entered parents and the matched
/// nodes gathered so far.
pub struct Resolver<'k> {
    current_nodes: Vec<&'k DocNode>,
    found_nodes: Vec<&'k DocNode>,
}

impl<'k> Resolver<'k> {
    /// The parents entered so far.
    pub closed spec fn stack(&self) -> Seq<GNode> {
        refs_view(self.current_nodes@)
    }

    /// The matched nodes gathered so far.
    pub closed spec fn found(&self) -> Seq<GNode> {
        refs_view(self.found_nodes@)
    }

    /// Resolves a parsed path against a document, yielding references to
    /// the matching nodes in document order.
    pub fn resolve(kdl_doc: &'k Document, query: Path) -> (r: Vec<&'k DocNode>)
        ensures
            refs_view(r@) == s_resolve(kdl_doc@, query@),
    {
        let mut resolver = Resolver { current_nodes: Vec::new(), found_nodes: Vec::new() };
        let cands = doc_refs(kdl_doc);
        let nodes = query.nodes();
        proof {
            assert(resolver.stack() =~= Seq::<GNode>::empty());
            assert(resolver.found() =~= Seq::<GNode>::empty());
            assert(nodes@.map_values(|n: Node| n@).skip(0) =~= query@);
        }
        resolver.resolve_query_node(nodes, 0, cands);
        proof {
            assert(Seq::<GNode>::empty() + s_resolve(kdl_doc@, query@) =~= s_resolve(
                kdl_doc@,
                query@,
            ));
        }
        resolver.found_nodes
    }

    /// Applies the segment at `qi` to the given scope.
    fn resolve_query_node(&mut self, query: &Vec<Node>, qi: usize, it_nodes: Vec<&'k DocNode>)
        requires
            qi <= query@.len(),
        ensures
            final(self).stack() == old(self).stack(),
            final(self).found() == old(self).found() + s_rqn(
                query@.map_values(|n: Node| n@).skip(qi as int),
                refs_view(it_nodes@),
                old(self).stack(),
            ),
        decreases query@.len() - qi, 0int, 0int,
    {
        let ghost qs = query@.map_values(|n: Node| n@).skip(qi as int);
        let ghost gcands = refs_view(it_nodes@);
        let ghost gstack = self.stack();
        let ghost gfound = self.found();
        if qi >= query.len() {
            proof {
                assert(gfound + Seq::<GNode>::empty() =~= gfound);
            }
            return ;
        }
        let sel = &query[qi];
        proof {
            assert(qs[0] == query@[qi as int]@);
            assert(qs.drop_first() =~= query@.map_values(|n: Node| n@).skip(qi + 1));
        }
        match &sel.node {
            NodeKind::Named(_) => {
                let it = apply_range(&sel.range, filter_sel(sel, it_nodes));
                self.dispatch(query, qi + 1, it);
            },
            NodeKind::Any => {
                let it = apply_range(&sel.range, filter_sel(sel, it_nodes));
                self.dispatch(query, qi + 1, it);
            },
            NodeKind::Anywhere => {
                let flat = flatten_vec(&it_nodes);
                let it = apply_range(&sel.range, filter_sel(sel, flat));
                self.dispatch_itself(query, qi + 1, it);
            },
            NodeKind::Parent => {
                let parent = match self.current_nodes.pop() {
                    None => {
                        proof {
                            assert(gfound + Seq::<GNode>::empty() =~= gfound);
                        }
                        return ;
                    },
                    Some(p) => p,
                };
                let ghost cur0 = old(self).current_nodes@;
                proof {
                    assert(refs_view(cur0).len() == cur0.len());
                    assert(parent == cur0[cur0.len() - 1]);
                    assert(self.current_nodes@ == cur0.subrange(0, cur0.len() - 1));
                }
                let mut single: Vec<&'k DocNode> = Vec::new();
                single.push(parent);
                proof {
                    assert(refs_view(single@) =~= seq![gstack.last()]);
                    assert(self.stack() =~= gstack.drop_last());
                }
                let it = apply_range(&sel.range, filter_sel(sel, single));
                self.dispatch(query, qi + 1, it);
                self.current_nodes.push(parent);
                proof {
                    assert(node_view(*parent) == gstack.last());
                    assert(self.stack() =~= gstack.drop_last().push(gstack.last()));
                    assert(self.stack() =~= gstack);
                }
            },
            NodeKind::Root => {
                self.resolve_query_node(query, qi + 1, it_nodes);
            },
        }
    }

    /// Hands surviving candidates to the rest of the path, entering each
    /// one's children in turn.
    #[verifier::rlimit(50)]
    fn dispatch(&mut self, query: &Vec<Node>, qi: usize, it_nodes: Vec<&'k DocNode>)
        requires
            qi <= query@.len(),
        ensures
            final(self).stack() == old(self).stack(),
            final(self).found() == old(self).found() + s_dispatch(
                query@.map_values(|n: Node| n@).skip(qi as int),
                refs_view(it_nodes@),
                old(self).stack(),
            ),
        decreases query@.len() - qi, 1int, it_nodes@.len(),
    {
        let ghost qs = query@.map_values(|n: Node| n@).skip(qi as int);
        let ghost gcands = refs_view(it_nodes@);
        let ghost gstack = self.stack();
        let ghost gfound = self.found();
        if qi >= query.len() {
            let mut i: usize = 0;
            proof {
                assert(qs.len() == 0);
                assert(self.found() =~= gfound + gcands.take(0));
            }
            while i < it_nodes.len()
                invariant
                    i <= it_nodes@.len(),
                    gcands == refs_view(it_nodes@),
                    refs_view(self.current_nodes@) == gstack,
                    refs_view(self.found_nodes@) == gfound + gcands.take(i as int),
                decreases it_nodes@.len() - i,
            {
                let ghost prev = self.found_nodes@;
                self.found_nodes.push(it_nodes[i]);
                i = i + 1;
                proof {
                    assert(refs_view(self.found_nodes@) =~= refs_view(prev).push(
                        node_view(*self.found_nodes@.last()),
                    ));
                    assert(refs_view(self.found_nodes@) =~= gfound + gcands.take(i as int));
                }
            }
            proof {
                assert(gcands.take(it_nodes@.len() as int) =~= gcands);
            }
            return ;
        }
        let mut i: usize = 0;
        proof {
            assert(self.found() =~= gfound + s_dispatch_prefix(qs, gcands, gstack, 0));
        }
        while i < it_nodes.len()
            invariant
                qi <= query@.len(),
                i <= it_nodes@.len(),
                qs == query@.map_values(|n: Node| n@).skip(qi as int),
                qs.len() > 0,
                gcands == refs_view(it_nodes@),
                self.stack() == gstack,
                self.found() == gfound + s_dispatch_prefix(qs, gcands, gstack, i as int),
            decreases it_nodes@.len() - i,
        {
            let ghost prefound = self.found();
            let n: &'k DocNode = it_nodes[i];
            proof {
                assert(gcands[i as int] == node_view(*n));
            }
            match &n.children {
                None => {
                    let empty_scope: Vec<&'k DocNode> = Vec::new();
                    proof {
                        assert(refs_view(empty_scope@) =~= Seq::<GNode>::empty());
                    }
                    self.resolve_query_node(query, qi, empty_scope);
                },
                Some(d) => {
                    self.current_nodes.push(n);
                    proof {
                        assert(self.stack() =~= gstack.push(node_view(*n)));
                    }
                    let ch = doc_refs(d);
                    self.resolve_query_node(query, qi, ch);
                    let ghost cur1 = self.current_nodes@;
                    proof {
                        assert(refs_view(cur1).len() == cur1.len());
                        assert(refs_view(cur1) == gstack.push(node_view(*n)));
                        assert(cur1.len() == gstack.len() + 1);
                    }
                    let _ = self.current_nodes.pop();
                    proof {
                        assert(self.current_nodes@ == cur1.subrange(0, cur1.len() - 1));
                        assert forall|j: int| 0 <= j < gstack.len() implies refs_view(
                            self.current_nodes@,
                        )[j] == gstack[j] by {
                            assert(self.current_nodes@[j] == cur1[j]);
                            assert(refs_view(cur1)[j] == gstack.push(node_view(*n))[j]);
                        }
                        assert(refs_view(self.current_nodes@).len() == gstack.len());
                        assert(refs_view(self.current_nodes@) =~= gstack);
                    }
                },
            }
            i = i + 1;
            proof {
                assert(self.found() == prefound + s_dispatch_one(qs, gcands[i - 1], gstack));
                assert(self.found() =~= gfound + (s_dispatch_prefix(qs, gcands, gstack, i - 1)
                    + s_dispatch_one(qs, gcands[i - 1], gstack)));
                assert(self.found() =~= gfound + s_dispatch_prefix(qs, gcands, gstack, i as int));
            }
        }
        proof {
            lemma_dispatch_split(qs, gcands, gstack, gcands.len() as int);
            assert(gcands.skip(gcands.len() as int).len() == 0);
            assert(s_dispatch(qs, gcands.skip(gcands.len() as int), gstack) =~= Seq::<
                GNode,
            >::empty());
            assert(s_dispatch_prefix(qs, gcands, gstack, gcands.len() as int) + Seq::<
                GNode,
            >::empty() =~= s_dispatch_prefix(qs, gcands, gstack, gcands.len() as int));
        }
    }

    /// Hands a `**` stream to the rest of the path.
    #[verifier::rlimit(50)]
    fn dispatch_itself(&mut self, query: &Vec<Node>, qi: usize, it_nodes: Vec<&'k DocNode>)
        requires
            qi <= query@.len(),
        ensures
            final(self).stack() == old(self).stack(),
            final(self).found() == old(self).found() + s_dispatch_flat(
                query@.map_values(|n: Node| n@).skip(qi as int),
                refs_view(it_nodes@),
                old(self).stack(),
            ),
        decreases query@.len() - qi, 1int, 0int,
    {
        let ghost gfound = self.found();
        let ghost gcands = refs_view(it_nodes@);
        if qi >= query.len() {
            let mut i: usize = 0;
            let ghost gstack = self.stack();
            proof {
                assert(self.found() =~= gfound + gcands.take(0));
            }
            while i < it_nodes.len()
                invariant
                    i <= it_nodes@.len(),
                    gcands == refs_view(it_nodes@),
                    refs_view(self.current_nodes@) == gstack,
                    refs_view(self.found_nodes@) == gfound + gcands.take(i as int),
                decreases it_nodes@.len() - i,
            {
                let ghost prev = self.found_nodes@;
                self.found_nodes.push(it_nodes[i]);
                i = i + 1;
                proof {
                    assert(refs_view(self.found_nodes@) =~= refs_view(prev).push(
                        node_view(*self.found_nodes@.last()),
                    ));
                    assert(refs_view(self.found_nodes@) =~= gfound + gcands.take(i as int));
                }
            }
            proof {
                assert(gcands.take(it_nodes@.len() as int) =~= gcands);
            }
            return ;
        }
        self.resolve_query_node(query, qi, it_nodes);
    }
}

} // verus!
