//! The laws the resolver obeys, stated over the same mathematical model
//! that the executable functions are proved against.

use vstd::prelude::*;

use crate::chars::{is_alnum_char, is_ws_char};
use crate::display::{digit_char, kind_text, nat_text, path_text, range_text, sel_text};
use crate::document::GNode;
use crate::entries::GEntry;
use crate::lexer::{alnum_token_len, is_token_char, take_ws, token_at, tokens_of, GToken};
use crate::parser::{bare_sel, s_path, s_range, spec_parse_path, GKind, GSel, Range};
use crate::resolver::{
    s_apply_range, s_dispatch, s_dispatch_flat, s_filter, s_flat_node, s_flatten, s_matches_sel,
    s_resolve, s_rqn, sel_entries_ok,
};
use crate::strings::{digits_val, dot_count, is_digit, spec_parse_alnum};
use crate::value::GValue;

verus! {

/// Resolution is a pure function of the document and the path: two
/// resolutions of the same path against the same document yield the same
/// sequence of nodes.
pub proof fn lemma_resolve_deterministic(
    doc: Seq<GNode>,
    path: Seq<GSel>,
    r1: Seq<GNode>,
    r2: Seq<GNode>,
)
    requires
        r1 == s_resolve(doc, path),
        r2 == s_resolve(doc, path),
    ensures
        r1 == r2,
{
}

/// A segment's range selects a contiguous sub-slice, by index, of what the
/// segment selects without its range.
pub proof fn lemma_range_is_subslice(r: Range, s: Seq<GNode>)
    ensures
        exists|lo: int, hi: int|
            0 <= lo <= hi <= s.len() && s_apply_range(Option::Some(r), s) == s.subrange(lo, hi),
{
    match r {
        Range::One(i) => {
            if 0 <= i < s.len() {
                assert(seq![s[i as int]] =~= s.subrange(i as int, i + 1));
                assert(s_apply_range(Option::Some(r), s) == s.subrange(i as int, i + 1));
            } else {
                assert(Seq::<GNode>::empty() =~= s.subrange(0, 0));
                assert(s_apply_range(Option::Some(r), s) == s.subrange(0, 0));
            }
        },
        Range::From(i) => {
            if i < 0 || i > s.len() {
                assert(Seq::<GNode>::empty() =~= s.subrange(0, 0));
                assert(s_apply_range(Option::Some(r), s) == s.subrange(0, 0));
            } else {
                assert(s.skip(i as int) =~= s.subrange(i as int, s.len() as int));
                assert(s_apply_range(Option::Some(r), s) == s.subrange(i as int, s.len() as int));
            }
        },
        Range::To(j) => {
            if j < 0 {
                assert(Seq::<GNode>::empty() =~= s.subrange(0, 0));
                assert(s_apply_range(Option::Some(r), s) == s.subrange(0, 0));
            } else if j >= s.len() {
                assert(s =~= s.subrange(0, s.len() as int));
                assert(s_apply_range(Option::Some(r), s) == s.subrange(0, s.len() as int));
            } else {
                assert(s.take(j as int) =~= s.subrange(0, j as int));
                assert(s_apply_range(Option::Some(r), s) == s.subrange(0, j as int));
            }
        },
        Range::Both(i, j) => {
            if i < 0 || j < 0 {
                assert(Seq::<GNode>::empty() =~= s.subrange(0, 0));
                assert(s_apply_range(Option::Some(r), s) == s.subrange(0, 0));
            }
        },
        Range::All => {
            assert(s =~= s.subrange(0, s.len() as int));
            assert(s_apply_range(Option::Some(r), s) == s.subrange(0, s.len() as int));
        },
    }
}

/// The candidates a ranged segment keeps are a contiguous sub-slice, by
/// index, of the candidates the same segment keeps without its range.
pub proof fn lemma_segment_range_monotone(sel: GSel, cands: Seq<GNode>)
    ensures
        exists|lo: int, hi: int|
            0 <= lo <= hi <= s_filter(sel, cands).len() && s_apply_range(
                sel.range,
                s_filter(sel, cands),
            ) == #[trigger] s_filter(sel, cands).subrange(lo, hi),
{
    let base = s_filter(sel, cands);
    match sel.range {
        Option::None => {
            assert(base =~= base.subrange(0, base.len() as int));
            assert(s_apply_range(sel.range, base) == base.subrange(0, base.len() as int));
        },
        Option::Some(r) => {
            lemma_range_is_subslice(r, base);
        },
    }
}

/// Whether `a` occurs within `b` in order: every element of `a` appears in
/// `b`, in the same relative order.
pub open spec fn is_subsequence(a: Seq<GNode>, b: Seq<GNode>) -> bool
    decreases b.len(),
{
    if a.len() == 0 {
        true
    } else if b.len() == 0 {
        false
    } else {
        (a.last() == b.last() && is_subsequence(a.drop_last(), b.drop_last())) || is_subsequence(
            a,
            b.drop_last(),
        )
    }
}

/// A subsequence of `b` is one of `b` extended at the end.
pub proof fn lemma_subsequence_push(a: Seq<GNode>, b: Seq<GNode>, x: GNode)
    requires
        is_subsequence(a, b),
    ensures
        is_subsequence(a, b.push(x)),
{
    if a.len() > 0 {
        assert(b.push(x).drop_last() =~= b);
    }
}

/// Wildcard coverage: what a named segment with an entries predicate keeps
/// occurs, in order, within what `*` with the same predicate keeps.
pub proof fn lemma_wildcard_coverage(
    name: Seq<char>,
    entries: Option<Seq<GEntry>>,
    cands: Seq<GNode>,
)
    ensures
        is_subsequence(
            s_filter(
                GSel { kind: GKind::Named(name), entries, range: Option::None },
                cands,
            ),
            s_filter(GSel { kind: GKind::Any, entries, range: Option::None }, cands),
        ),
    decreases cands.len(),
{
    let sel_named = GSel { kind: GKind::Named(name), entries, range: Option::None };
    let sel_any = GSel { kind: GKind::Any, entries, range: Option::None };
    if cands.len() == 0 {
    } else {
        let rest = cands.drop_last();
        let last = cands.last();
        lemma_wildcard_coverage(name, entries, rest);
        let nf = s_filter(sel_named, rest);
        let af = s_filter(sel_any, rest);
        if s_matches_sel(sel_named, last) {
            assert(s_matches_sel(sel_any, last));
            assert(nf.push(last).drop_last() =~= nf);
            assert(af.push(last).drop_last() =~= af);
        } else if s_matches_sel(sel_any, last) {
            lemma_subsequence_push(nf, af, last);
        }
    }
}

/// A sequence occurs within itself.
proof fn lemma_subseq_refl(a: Seq<GNode>)
    ensures
        is_subsequence(a, a),
    decreases a.len(),
{
    if a.len() > 0 {
        lemma_subseq_refl(a.drop_last());
    }
}

/// A subsequence of `b` is one of `b` extended at the front.
proof fn lemma_subseq_extend_front(a: Seq<GNode>, b: Seq<GNode>, c: Seq<GNode>)
    requires
        is_subsequence(a, b),
    ensures
        is_subsequence(a, c + b),
    decreases b.len(),
{
    if a.len() == 0 {
    } else if b.len() > 0 {
        assert((c + b).last() == b.last());
        assert((c + b).drop_last() =~= c + b.drop_last());
        if a.last() == b.last() && is_subsequence(a.drop_last(), b.drop_last()) {
            lemma_subseq_extend_front(a.drop_last(), b.drop_last(), c);
        }
        if is_subsequence(a, b.drop_last()) {
            lemma_subseq_extend_front(a, b.drop_last(), c);
        }
    }
}

/// A subsequence of `b` is one of `b` extended at the back.
proof fn lemma_subseq_extend_back(a: Seq<GNode>, b: Seq<GNode>, c: Seq<GNode>)
    requires
        is_subsequence(a, b),
    ensures
        is_subsequence(a, b + c),
    decreases c.len(),
{
    if c.len() == 0 {
        assert(b + c =~= b);
    } else {
        lemma_subseq_extend_back(a, b, c.drop_last());
        assert((b + c).drop_last() =~= b + c.drop_last());
        if a.len() > 0 {
        }
    }
}

/// Occurring-within is transitive.
proof fn lemma_subseq_trans(a: Seq<GNode>, b: Seq<GNode>, c: Seq<GNode>)
    requires
        is_subsequence(a, b),
        is_subsequence(b, c),
    ensures
        is_subsequence(a, c),
    decreases c.len(),
{
    if a.len() == 0 || b.len() == 0 {
    } else if c.len() > 0 {
        if b.last() == c.last() && is_subsequence(b.drop_last(), c.drop_last()) {
            if a.last() == b.last() && is_subsequence(a.drop_last(), b.drop_last()) {
                lemma_subseq_trans(a.drop_last(), b.drop_last(), c.drop_last());
            } else {
                assert(is_subsequence(a, b.drop_last()));
                lemma_subseq_trans(a, b.drop_last(), c.drop_last());
            }
        } else {
            assert(is_subsequence(b, c.drop_last()));
            lemma_subseq_trans(a, b, c.drop_last());
        }
    }
}

/// Concatenation respects occurring-within on both sides.
proof fn lemma_subseq_concat(a1: Seq<GNode>, b1: Seq<GNode>, a2: Seq<GNode>, b2: Seq<GNode>)
    requires
        is_subsequence(a1, b1),
        is_subsequence(a2, b2),
    ensures
        is_subsequence(a1 + a2, b1 + b2),
    decreases b2.len(),
{
    if a2.len() == 0 {
        assert(a1 + a2 =~= a1);
        lemma_subseq_extend_back(a1, b1, b2);
    } else if b2.len() > 0 {
        assert((a1 + a2).last() == a2.last());
        assert((b1 + b2).last() == b2.last());
        assert((a1 + a2).drop_last() =~= a1 + a2.drop_last());
        assert((b1 + b2).drop_last() =~= b1 + b2.drop_last());
        if a2.last() == b2.last() && is_subsequence(a2.drop_last(), b2.drop_last()) {
            lemma_subseq_concat(a1, b1, a2.drop_last(), b2.drop_last());
        } else {
            assert(is_subsequence(a2, b2.drop_last()));
            lemma_subseq_concat(a1, b1, a2, b2.drop_last());
        }
    }
}

/// What a segment keeps occurs within its candidates.
proof fn lemma_filter_subseq(sel: GSel, cands: Seq<GNode>)
    ensures
        is_subsequence(s_filter(sel, cands), cands),
    decreases cands.len(),
{
    if cands.len() > 0 {
        lemma_filter_subseq(sel, cands.drop_last());
        if s_matches_sel(sel, cands.last()) {
            assert(s_filter(sel, cands.drop_last()).push(cands.last()).drop_last() =~= s_filter(
                sel,
                cands.drop_last(),
            ));
        } else {
            lemma_subsequence_push(s_filter(sel, cands.drop_last()), cands.drop_last(), cands.last());
        }
    }
}

/// A contiguous sub-slice occurs within its sequence.
proof fn lemma_subrange_subseq(s: Seq<GNode>, lo: int, hi: int)
    requires
        0 <= lo <= hi <= s.len(),
    ensures
        is_subsequence(s.subrange(lo, hi), s),
    decreases s.len(),
{
    if lo == hi {
    } else if hi < s.len() {
        assert(s.subrange(lo, hi) =~= s.drop_last().subrange(lo, hi));
        lemma_subrange_subseq(s.drop_last(), lo, hi);
        lemma_subsequence_push(s.subrange(lo, hi), s.drop_last(), s.last());
        assert(s.drop_last().push(s.last()) =~= s);
    } else {
        assert(s.subrange(lo, hi).last() == s.last());
        assert(s.subrange(lo, hi).drop_last() =~= s.drop_last().subrange(lo, hi - 1));
        lemma_subrange_subseq(s.drop_last(), lo, hi - 1);
    }
}

/// What a range keeps occurs within its candidates.
proof fn lemma_range_subseq(r: Option<Range>, s: Seq<GNode>)
    ensures
        is_subsequence(s_apply_range(r, s), s),
{
    match r {
        Option::None => {
            lemma_subseq_refl(s);
        },
        Option::Some(rr) => {
            lemma_range_is_subslice(rr, s);
            let (lo, hi) = choose|lo: int, hi: int|
                0 <= lo <= hi <= s.len() && s_apply_range(Option::Some(rr), s) == s.subrange(
                    lo,
                    hi,
                );
            lemma_subrange_subseq(s, lo, hi);
        },
    }
}

/// A forest's flattening opens with its first tree.
proof fn lemma_flatten_front(s: Seq<GNode>)
    requires
        s.len() > 0,
    ensures
        s_flatten(s) == s_flat_node(s[0]) + s_flatten(s.drop_first()),
    decreases s.len(),
{
    if s.len() == 1 {
        assert(s.drop_last().len() == 0);
        assert(s.drop_first().len() == 0);
        assert(s_flatten(s.drop_last()) + s_flat_node(s.last()) =~= s_flat_node(s[0]) + s_flatten(
            s.drop_first(),
        ));
    } else {
        let q = s.drop_last();
        lemma_flatten_front(q);
        assert(q[0] == s[0]);
        assert(s.drop_first().drop_last() =~= q.drop_first());
        assert(s.drop_first().last() == s.last());
        assert(s_flatten(s.drop_first()) == s_flatten(s.drop_first().drop_last()) + s_flat_node(
            s.drop_first().last(),
        ));
        assert((s_flat_node(s[0]) + s_flatten(q.drop_first())) + s_flat_node(s.last()) =~=
            s_flat_node(s[0]) + (s_flatten(q.drop_first()) + s_flat_node(s.last())));
    }
}

/// A forest occurs within its own flattening.
proof fn lemma_forest_in_flatten(s: Seq<GNode>)
    ensures
        is_subsequence(s, s_flatten(s)),
    decreases s.len(),
{
    if s.len() > 0 {
        lemma_forest_in_flatten(s.drop_last());
        let last = s.last();
        assert(seq![last].drop_last() =~= Seq::<GNode>::empty());
        assert(is_subsequence(seq![last], seq![last])) by {
            lemma_subseq_refl(seq![last]);
        }
        lemma_subseq_extend_back(
            seq![last],
            seq![last],
            match last.children {
                Option::Some(ch) => s_flatten(ch),
                Option::None => Seq::empty(),
            },
        );
        assert(seq![last] + (match last.children {
            Option::Some(ch) => s_flatten(ch),
            Option::None => Seq::<GNode>::empty(),
        }) =~= s_flat_node(last));
        assert(is_subsequence(seq![last], s_flat_node(last)));
        lemma_subseq_concat(s.drop_last(), s_flatten(s.drop_last()), seq![last], s_flat_node(last));
        assert(s.drop_last() + seq![last] =~= s);
    }
}

/// Flattening respects occurring-within.
proof fn lemma_flatten_mono(a: Seq<GNode>, b: Seq<GNode>)
    requires
        is_subsequence(a, b),
    ensures
        is_subsequence(s_flatten(a), s_flatten(b)),
    decreases b.len(),
{
    if a.len() == 0 {
    } else if b.len() > 0 {
        if a.last() == b.last() && is_subsequence(a.drop_last(), b.drop_last()) {
            lemma_flatten_mono(a.drop_last(), b.drop_last());
            lemma_subseq_refl(s_flat_node(b.last()));
            lemma_subseq_concat(
                s_flatten(a.drop_last()),
                s_flatten(b.drop_last()),
                s_flat_node(a.last()),
                s_flat_node(b.last()),
            );
        } else {
            assert(is_subsequence(a, b.drop_last()));
            lemma_flatten_mono(a, b.drop_last());
            lemma_subseq_extend_back(s_flatten(a), s_flatten(b.drop_last()), s_flat_node(b.last()));
        }
    }
}

/// A path whose output order the document order bounds: no parent steps,
/// and recursive descent only as the final segment.
pub open spec fn order_safe(q: Seq<GSel>) -> bool {
    forall|i: int|
        0 <= i < q.len() ==> match (#[trigger] q[i]).kind {
            GKind::Parent => false,
            GKind::Anywhere => i == q.len() - 1,
            _ => true,
        }
}

/// An order-safe path selects nothing from an empty scope.
proof fn lemma_rqn_empty(q: Seq<GSel>, stack: Seq<GNode>)
    requires
        order_safe(q),
    ensures
        s_rqn(q, Seq::empty(), stack).len() == 0,
    decreases q.len(), 0int, 0int,
{
    if q.len() > 0 {
        let sel = q[0];
        let tail = q.drop_first();
        safe_tail_order_holds(q);
        match sel.kind {
            GKind::Named(_) => {
                let filtered = s_filter(sel, Seq::<GNode>::empty());
                assert(filtered.len() == 0);
                let it = s_apply_range(sel.range, filtered);
                lemma_range_subseq(sel.range, filtered);
                assert(it.len() == 0);
                assert(s_rqn(q, Seq::empty(), stack) == s_dispatch(tail, it, stack));
                assert(s_dispatch(tail, it, stack).len() == 0);
            },
            GKind::Any => {
                let filtered = s_filter(sel, Seq::<GNode>::empty());
                assert(filtered.len() == 0);
                let it = s_apply_range(sel.range, filtered);
                lemma_range_subseq(sel.range, filtered);
                assert(it.len() == 0);
                assert(s_rqn(q, Seq::empty(), stack) == s_dispatch(tail, it, stack));
                assert(s_dispatch(tail, it, stack).len() == 0);
            },
            GKind::Anywhere => {
                assert(tail.len() == 0);
                let flat = s_flatten(Seq::<GNode>::empty());
                assert(flat.len() == 0);
                let filtered = s_filter(sel, flat);
                assert(filtered.len() == 0);
                let it = s_apply_range(sel.range, filtered);
                lemma_range_subseq(sel.range, filtered);
                assert(it.len() == 0);
                assert(s_rqn(q, Seq::empty(), stack) == s_dispatch_flat(tail, it, stack));
            },
            GKind::Parent => {
                assert(false);
            },
            GKind::Root => {
                lemma_rqn_empty(tail, stack);
                assert(s_rqn(q, Seq::empty(), stack) == s_rqn(tail, Seq::empty(), stack));
            },
        }
    }
}

/// Dropping the head of an order-safe path leaves one.
proof fn safe_tail_order_holds(q: Seq<GSel>)
    requires
        order_safe(q),
        q.len() > 0,
    ensures
        order_safe(q.drop_first()),
{
    let tail = q.drop_first();
    assert forall|i: int| 0 <= i < tail.len() implies match (#[trigger] tail[i]).kind {
        GKind::Parent => false,
        GKind::Anywhere => i == tail.len() - 1,
        _ => true,
    } by {
        assert(tail[i] == q[i + 1]);
    }
}

/// Document-order preservation, order half, for order-safe paths: what a
/// scope resolves to occurs within the scope's pre-order flattening, in
/// order and without repetition of positions.
pub proof fn lemma_rqn_document_order(q: Seq<GSel>, cands: Seq<GNode>, stack: Seq<GNode>)
    requires
        order_safe(q),
    ensures
        is_subsequence(s_rqn(q, cands, stack), s_flatten(cands)),
    decreases q.len(), 0int, 0int,
{
    if q.len() == 0 {
    } else {
        let sel = q[0];
        let tail = q.drop_first();
        safe_tail_order_holds(q);
        match sel.kind {
            GKind::Named(_) | GKind::Any => {
                let filtered = s_filter(sel, cands);
                let it = s_apply_range(sel.range, filtered);
                lemma_filter_subseq(sel, cands);
                lemma_range_subseq(sel.range, filtered);
                lemma_subseq_trans(it, filtered, cands);
                lemma_dispatch_document_order(tail, it, stack);
                lemma_flatten_mono(it, cands);
                lemma_subseq_trans(s_dispatch(tail, it, stack), s_flatten(it), s_flatten(cands));
            },
            GKind::Anywhere => {
                assert(tail.len() == 0) by {
                    assert(q[0].kind is Anywhere);
                }
                let flat = s_flatten(cands);
                let filtered = s_filter(sel, flat);
                let it = s_apply_range(sel.range, filtered);
                lemma_filter_subseq(sel, flat);
                lemma_range_subseq(sel.range, filtered);
                lemma_subseq_trans(it, filtered, flat);
                assert(s_dispatch_flat(tail, it, stack) == it);
            },
            GKind::Parent => {
                assert(false);
            },
            GKind::Root => {
                lemma_rqn_document_order(tail, cands, stack);
            },
        }
    }
}

proof fn lemma_dispatch_document_order(q: Seq<GSel>, cands: Seq<GNode>, stack: Seq<GNode>)
    requires
        order_safe(q),
    ensures
        is_subsequence(s_dispatch(q, cands, stack), s_flatten(cands)),
    decreases q.len(), 1int, cands.len(),
{
    if q.len() == 0 {
        lemma_forest_in_flatten(cands);
    } else if cands.len() == 0 {
    } else {
        let n = cands[0];
        let entered: Seq<GNode> = match n.children {
            Option::None => s_rqn(q, Seq::empty(), stack),
            Option::Some(ch) => s_rqn(q, ch, stack.push(n)),
        };
        match n.children {
            Option::None => {
                lemma_rqn_empty(q, stack);
                assert(entered =~= Seq::<GNode>::empty());
                assert(is_subsequence(entered, s_flat_node(n)));
            },
            Option::Some(ch) => {
                lemma_rqn_document_order(q, ch, stack.push(n));
                lemma_subseq_extend_front(entered, s_flatten(ch), seq![n]);
                assert(seq![n] + s_flatten(ch) =~= s_flat_node(n));
            },
        }
        lemma_dispatch_document_order(q, cands.drop_first(), stack);
        lemma_subseq_concat(
            entered,
            s_flat_node(n),
            s_dispatch(q, cands.drop_first(), stack),
            s_flatten(cands.drop_first()),
        );
        lemma_flatten_front(cands);
    }
}

/// Document-order preservation for order-safe paths: the resolved nodes
/// occur within the document's pre-order traversal, in document order.
pub proof fn lemma_resolve_document_order(doc: Seq<GNode>, path: Seq<GSel>)
    requires
        order_safe(path),
    ensures
        is_subsequence(s_resolve(doc, path), s_flatten(doc)),
{
    lemma_rqn_document_order(path, doc, Seq::empty());
}

/// Whether `n` is one of the nodes of `scope`, or lies anywhere in one of
/// their subtrees.
pub open spec fn in_forest(scope: Seq<GNode>, n: GNode) -> bool
    decreases scope,
{
    exists|i: int| 0 <= i < scope.len() && in_tree(#[trigger] scope[i], n)
}

/// Whether `n` is `m` itself or lies anywhere below it.
pub open spec fn in_tree(m: GNode, n: GNode) -> bool
    decreases m,
{
    m == n || (m.children is Some && in_forest(m.children->0, n))
}

proof fn lemma_concat_contains(a: Seq<GNode>, b: Seq<GNode>, x: GNode)
    ensures
        (a + b).contains(x) <==> (a.contains(x) || b.contains(x)),
{
    if a.contains(x) {
        let i = choose|i: int| 0 <= i < a.len() && a[i] == x;
        assert((a + b)[i] == x);
    }
    if b.contains(x) {
        let i = choose|i: int| 0 <= i < b.len() && b[i] == x;
        assert((a + b)[a.len() + i] == x);
    }
    if (a + b).contains(x) {
        let i = choose|i: int| 0 <= i < (a + b).len() && (a + b)[i] == x;
        if i < a.len() {
            assert(a[i] == x);
        } else {
            assert(b[i - a.len()] == x);
        }
    }
}

proof fn lemma_flat_node_contains(m: GNode, n: GNode)
    ensures
        s_flat_node(m).contains(n) <==> in_tree(m, n),
    decreases m,
{
    let below: Seq<GNode> = match m.children {
        Option::Some(ch) => s_flatten(ch),
        Option::None => Seq::empty(),
    };
    lemma_concat_contains(seq![m], below, n);
    assert(seq![m].contains(n) <==> m == n) by {
        if seq![m].contains(n) {
            let i = choose|i: int| 0 <= i < 1 && seq![m][i] == n;
            assert(seq![m][0] == n);
        }
        if m == n {
            assert(seq![m][0] == n);
        }
    }
    match m.children {
        Option::Some(ch) => {
            lemma_flatten_contains(ch, n);
        },
        Option::None => {},
    }
}

/// Anywhere totality: the pre-order flattening of a scope holds exactly
/// the scope's own nodes and every node of their subtrees.
pub proof fn lemma_flatten_contains(scope: Seq<GNode>, n: GNode)
    ensures
        s_flatten(scope).contains(n) <==> in_forest(scope, n),
    decreases scope,
{
    if scope.len() == 0 {
        assert(!in_forest(scope, n));
    } else {
        let rest = scope.drop_last();
        let last = scope.last();
        lemma_flatten_contains(rest, n);
        lemma_flat_node_contains(last, n);
        lemma_concat_contains(s_flatten(rest), s_flat_node(last), n);
        assert(in_forest(scope, n) <==> (in_forest(rest, n) || in_tree(last, n))) by {
            if in_forest(rest, n) {
                let i = choose|i: int| 0 <= i < rest.len() && in_tree(rest[i], n);
                assert(scope[i] == rest[i]);
                assert(in_tree(scope[i], n));
            }
            if in_tree(last, n) {
                assert(in_tree(scope[scope.len() - 1], n));
            }
            if in_forest(scope, n) {
                let i = choose|i: int| 0 <= i < scope.len() && in_tree(scope[i], n);
                if i < rest.len() {
                    assert(rest[i] == scope[i]);
                    assert(in_tree(rest[i], n));
                } else {
                    assert(scope[i] == last);
                }
            }
        }
    }
}

/// Whether every node of `s` is a node of the `doc` forest or of one of
/// its subtrees.
pub open spec fn all_in_doc(s: Seq<GNode>, doc: Seq<GNode>) -> bool {
    forall|i: int| 0 <= i < s.len() ==> in_forest(doc, #[trigger] s[i])
}

/// Lying below a node of the forest means lying in the forest.
proof fn lemma_in_tree_trans(m: GNode, x: GNode, doc: Seq<GNode>)
    requires
        in_forest(doc, m),
        in_tree(m, x),
    ensures
        in_forest(doc, x),
{
    let i = choose|i: int| 0 <= i < doc.len() && in_tree(doc[i], m);
    lemma_in_tree_trans_tree(doc[i], m, x);
    assert(in_tree(doc[i], x));
}

/// `in_tree` is transitive.
proof fn lemma_in_tree_trans_tree(a: GNode, b: GNode, c: GNode)
    requires
        in_tree(a, b),
        in_tree(b, c),
    ensures
        in_tree(a, c),
    decreases a,
{
    if a == b {
    } else {
        let ch = a.children->0;
        let i = choose|i: int| 0 <= i < ch.len() && in_tree(ch[i], b);
        lemma_in_tree_trans_tree(ch[i], b, c);
    }
}

/// What a segment keeps comes from its candidates.
proof fn lemma_filter_in(sel: GSel, cands: Seq<GNode>, doc: Seq<GNode>)
    requires
        all_in_doc(cands, doc),
    ensures
        all_in_doc(s_filter(sel, cands), doc),
    decreases cands.len(),
{
    if cands.len() > 0 {
        lemma_filter_in(sel, cands.drop_last(), doc);
        assert(forall|i: int|
            0 <= i < cands.drop_last().len() ==> #[trigger] cands.drop_last()[i] == cands[i]);
        let f = s_filter(sel, cands);
        let fr = s_filter(sel, cands.drop_last());
        assert forall|i: int| 0 <= i < f.len() implies in_forest(doc, f[i]) by {
            if s_matches_sel(sel, cands.last()) {
                if i < fr.len() {
                    assert(f[i] == fr[i]);
                } else {
                    assert(f[i] == cands.last());
                    assert(in_forest(doc, cands[cands.len() - 1]));
                }
            } else {
                assert(f[i] == fr[i]);
            }
        }
    }
}

/// What a range keeps comes from its candidates.
proof fn lemma_range_in(r: Option<Range>, s: Seq<GNode>, doc: Seq<GNode>)
    requires
        all_in_doc(s, doc),
    ensures
        all_in_doc(s_apply_range(r, s), doc),
{
    let out = s_apply_range(r, s);
    assert forall|i: int| 0 <= i < out.len() implies in_forest(doc, out[i]) by {
        match r {
            Option::None => {},
            Option::Some(Range::All) => {},
            Option::Some(Range::One(p)) => {
                assert(out[i] == s[p as int]);
            },
            Option::Some(Range::From(p)) => {
                assert(out[i] == s[p + i]);
            },
            Option::Some(Range::To(_)) => {
                assert(out[i] == s[i]);
            },
            Option::Some(Range::Both(_, _)) => {},
        }
    }
}

/// What a flattened scope holds comes from the scope's subtrees.
proof fn lemma_flatten_in(cands: Seq<GNode>, doc: Seq<GNode>)
    requires
        all_in_doc(cands, doc),
    ensures
        all_in_doc(s_flatten(cands), doc),
{
    let flat = s_flatten(cands);
    assert forall|i: int| 0 <= i < flat.len() implies in_forest(doc, flat[i]) by {
        assert(flat.contains(flat[i]));
        lemma_flatten_contains(cands, flat[i]);
        let j = choose|j: int| 0 <= j < cands.len() && in_tree(cands[j], flat[i]);
        lemma_in_tree_trans(cands[j], flat[i], doc);
    }
}

/// Document-order preservation, membership half: whatever a path resolves
/// to, from candidates and parents lying in the document, lies in the
/// document.
pub proof fn lemma_rqn_in_document(
    q: Seq<GSel>,
    cands: Seq<GNode>,
    stack: Seq<GNode>,
    doc: Seq<GNode>,
)
    requires
        all_in_doc(cands, doc),
        all_in_doc(stack, doc),
    ensures
        all_in_doc(s_rqn(q, cands, stack), doc),
    decreases q.len(), 0int, 0int,
{
    if q.len() > 0 {
        let sel = q[0];
        let tail = q.drop_first();
        match sel.kind {
            GKind::Named(_) => {
                lemma_filter_in(sel, cands, doc);
                lemma_range_in(sel.range, s_filter(sel, cands), doc);
                lemma_dispatch_in_document(
                    tail,
                    s_apply_range(sel.range, s_filter(sel, cands)),
                    stack,
                    doc,
                );
            },
            GKind::Any => {
                lemma_filter_in(sel, cands, doc);
                lemma_range_in(sel.range, s_filter(sel, cands), doc);
                lemma_dispatch_in_document(
                    tail,
                    s_apply_range(sel.range, s_filter(sel, cands)),
                    stack,
                    doc,
                );
            },
            GKind::Anywhere => {
                lemma_flatten_in(cands, doc);
                lemma_filter_in(sel, s_flatten(cands), doc);
                lemma_range_in(sel.range, s_filter(sel, s_flatten(cands)), doc);
                let it = s_apply_range(sel.range, s_filter(sel, s_flatten(cands)));
                if tail.len() == 0 {
                    assert(s_dispatch_flat(tail, it, stack) == it);
                } else {
                    lemma_rqn_in_document(tail, it, stack, doc);
                }
            },
            GKind::Parent => {
                if stack.len() > 0 {
                    let parent = stack.last();
                    assert(in_forest(doc, stack[stack.len() - 1]));
                    assert(all_in_doc(seq![parent], doc)) by {
                        assert(seq![parent][0] == parent);
                    }
                    lemma_filter_in(sel, seq![parent], doc);
                    lemma_range_in(sel.range, s_filter(sel, seq![parent]), doc);
                    assert(all_in_doc(stack.drop_last(), doc)) by {
                        assert(forall|i: int|
                            0 <= i < stack.drop_last().len() ==> #[trigger] stack.drop_last()[i]
                                == stack[i]);
                    }
                    lemma_dispatch_in_document(
                        tail,
                        s_apply_range(sel.range, s_filter(sel, seq![parent])),
                        stack.drop_last(),
                        doc,
                    );
                }
            },
            GKind::Root => {
                lemma_rqn_in_document(tail, cands, stack, doc);
            },
        }
    }
}

proof fn lemma_dispatch_in_document(
    q: Seq<GSel>,
    cands: Seq<GNode>,
    stack: Seq<GNode>,
    doc: Seq<GNode>,
)
    requires
        all_in_doc(cands, doc),
        all_in_doc(stack, doc),
    ensures
        all_in_doc(s_dispatch(q, cands, stack), doc),
    decreases q.len(), 1int, cands.len(),
{
    if q.len() == 0 || cands.len() == 0 {
    } else {
        let n = cands[0];
        assert(in_forest(doc, cands[0]));
        let entered: Seq<GNode> = match n.children {
            Option::None => s_rqn(q, Seq::empty(), stack),
            Option::Some(ch) => s_rqn(q, ch, stack.push(n)),
        };
        match n.children {
            Option::None => {
                assert(all_in_doc(Seq::empty(), doc));
                lemma_rqn_in_document(q, Seq::empty(), stack, doc);
            },
            Option::Some(ch) => {
                assert(all_in_doc(ch, doc)) by {
                    assert forall|i: int| 0 <= i < ch.len() implies in_forest(doc, ch[i]) by {
                        assert(in_tree(ch[i], ch[i]));
                        assert(in_forest(n.children->0, ch[i]));
                        assert(in_tree(n, ch[i]));
                        lemma_in_tree_trans(n, ch[i], doc);
                    }
                }
                assert(all_in_doc(stack.push(n), doc)) by {
                    assert(forall|i: int|
                        0 <= i < stack.len() ==> #[trigger] stack.push(n)[i] == stack[i]);
                    assert(stack.push(n)[stack.len() as int] == n);
                }
                lemma_rqn_in_document(q, ch, stack.push(n), doc);
            },
        }
        assert(all_in_doc(cands.drop_first(), doc)) by {
            assert(forall|i: int|
                0 <= i < cands.drop_first().len() ==> #[trigger] cands.drop_first()[i] == cands[i
                    + 1]);
        }
        lemma_dispatch_in_document(q, cands.drop_first(), stack, doc);
        let rest_out = s_dispatch(q, cands.drop_first(), stack);
        assert forall|i: int|
            0 <= i < s_dispatch(q, cands, stack).len() implies in_forest(
            doc,
            s_dispatch(q, cands, stack)[i],
        ) by {
            if i < entered.len() {
                assert(s_dispatch(q, cands, stack)[i] == entered[i]);
            } else {
                assert(s_dispatch(q, cands, stack)[i] == rest_out[i - entered.len()]);
            }
        }
    }
}

/// Every node a path resolves to is a node of the document.
pub proof fn lemma_resolve_in_document(doc: Seq<GNode>, path: Seq<GSel>, i: int)
    requires
        0 <= i < s_resolve(doc, path).len(),
    ensures
        in_forest(doc, s_resolve(doc, path)[i]),
{
    assert(all_in_doc(doc, doc)) by {
        assert forall|j: int| 0 <= j < doc.len() implies in_forest(doc, doc[j]) by {
            assert(in_tree(doc[j], doc[j]));
        }
    }
    assert(all_in_doc(Seq::<GNode>::empty(), doc));
    lemma_rqn_in_document(path, doc, Seq::empty(), doc);
}

/// A character that may stand in a round-trippable name: an ASCII letter,
/// digit or underscore.
pub open spec fn safe_name_char(c: char) -> bool {
    ('a' <= c && c <= 'z') || ('A' <= c && c <= 'Z') || ('0' <= c && c <= '9') || c == '_'
}

/// A name whose rendering reads back as the same name: nonempty, of safe
/// characters, and not opening with a digit (which would read back as a
/// number).
pub open spec fn safe_name(s: Seq<char>) -> bool {
    &&& s.len() > 0
    &&& forall|i: int| 0 <= i < s.len() ==> safe_name_char(#[trigger] s[i])
    &&& !('0' <= s[0] && s[0] <= '9')
}

/// A range whose rendering reads back as the same range: its indices are
/// nonnegative (a negative index renders a sign that does not tokenize).
pub open spec fn safe_range(r: Option<Range>) -> bool {
    match r {
        Option::None => true,
        Option::Some(Range::One(i)) => i >= 0,
        Option::Some(Range::From(i)) => i >= 0,
        Option::Some(Range::To(j)) => j >= 0,
        Option::Some(Range::Both(i, j)) => i >= 0 && j >= 0,
        Option::Some(Range::All) => true,
    }
}

/// A segment whose rendering reads back as the same segment: a kind with a
/// safe name if it has one, an optional safe range, and no entry
/// predicate. The root marker and entry predicates are left out: their
/// renderings do not read back in general.
pub open spec fn safe_sel(s: GSel) -> bool {
    &&& s.entries is None
    &&& safe_range(s.range)
    &&& match s.kind {
        GKind::Named(n) => safe_name(n),
        GKind::Any => true,
        GKind::Anywhere => true,
        GKind::Parent => true,
        GKind::Root => false,
    }
}

/// A path of round-trippable segments.
pub open spec fn safe_path(p: Seq<GSel>) -> bool {
    forall|i: int| 0 <= i < p.len() ==> safe_sel(#[trigger] p[i])
}

/// The token a bare segment renders to.
pub open spec fn kind_token(k: GKind) -> GToken {
    match k {
        GKind::Named(n) => GToken::Alnum(n),
        GKind::Any => GToken::Star,
        GKind::Anywhere => GToken::DoubleStar,
        GKind::Parent => GToken::DoublePoint,
        GKind::Root => GToken::Slash,
    }
}

/// The tokens a range renders to, after its opening brace.
pub open spec fn range_body_tokens(r: Range) -> Seq<GToken> {
    match r {
        Range::One(i) => seq![GToken::Alnum(nat_text(i as int)), GToken::LeaveCurly],
        Range::From(i) => seq![
            GToken::Alnum(nat_text(i as int)),
            GToken::DoublePoint,
            GToken::LeaveCurly,
        ],
        Range::To(j) => seq![
            GToken::DoublePoint,
            GToken::Alnum(nat_text(j as int)),
            GToken::LeaveCurly,
        ],
        Range::Both(i, j) => seq![
            GToken::Alnum(nat_text(i as int)),
            GToken::DoublePoint,
            GToken::Alnum(nat_text(j as int)),
            GToken::LeaveCurly,
        ],
        Range::All => seq![GToken::DoublePoint, GToken::LeaveCurly],
    }
}

/// The tokens a safe segment renders to.
pub open spec fn sel_tokens(s: GSel) -> Seq<GToken> {
    seq![kind_token(s.kind)] + (match s.range {
        Option::None => Seq::<GToken>::empty(),
        Option::Some(r) => seq![GToken::EnterCurly] + range_body_tokens(r),
    })
}

/// The tokens a path of safe segments renders to: each segment's tokens,
/// then a slash.
pub open spec fn path_tokens(p: Seq<GSel>) -> Seq<GToken>
    decreases p.len(),
{
    if p.len() == 0 {
        Seq::empty()
    } else {
        sel_tokens(p[0]) + seq![GToken::Slash] + path_tokens(p.drop_first())
    }
}

/// The decimal text of a nonnegative integer is its digits, opening with a
/// nonzero one past nine, and reads back as the integer.
proof fn lemma_nat_text(n: int)
    requires
        n >= 0,
    ensures
        nat_text(n).len() >= 1,
        forall|i: int| 0 <= i < nat_text(n).len() ==> is_digit(#[trigger] nat_text(n)[i]),
        n >= 1 ==> nat_text(n)[0] != '0',
        digits_val(nat_text(n), 10) == Option::Some(n),
    decreases n,
{
    if n < 10 {
        let c = digit_char(n);
        assert(c as int == ('0' as int) + n);
        assert(nat_text(n) =~= seq![c]);
        assert(is_digit(c));
    } else {
        lemma_nat_text(n / 10);
        let x = nat_text(n / 10);
        let c = digit_char(n % 10);
        assert(c as int == ('0' as int) + n % 10);
        assert(is_digit(c));
        assert(nat_text(n) == x.push(c));
        assert(x.push(c).drop_last() =~= x);
        assert(x.push(c).last() == c);
        assert forall|i: int| 0 <= i < nat_text(n).len() implies is_digit(nat_text(n)[i]) by {
            if i < x.len() {
                assert(nat_text(n)[i] == x[i]);
            } else {
                assert(nat_text(n)[i] == c);
            }
        }
        assert(nat_text(n)[0] == x[0]);
        assert(digits_val(x.push(c), 10) == Option::Some((n / 10) * 10 + n % 10));
    }
}

/// A rendered nonnegative integer reads back as a bare integer value.
proof fn lemma_nat_text_value(n: int)
    requires
        0 <= n <= i128::MAX,
    ensures
        spec_parse_alnum(nat_text(n)) == Ok::<GValue, crate::error::ParseStringError>(
            GValue::Int(n),
        ),
{
    lemma_nat_text(n);
    let t = nat_text(n);
    assert(is_digit(t[0]));
    assert(t[0] != '-' && t[0] != '+');
    if t.len() >= 2 {
        assert(t[0] != '0') by {
            if n < 10 {
                assert(t.len() == 1);
            }
        }
    }
    assert(crate::chars::is_numeric_char(t[0]));
    lemma_dot_count_digits(t);
}

/// A digit string has no dots.
proof fn lemma_dot_count_digits(s: Seq<char>)
    requires
        forall|i: int| 0 <= i < s.len() ==> is_digit(#[trigger] s[i]),
    ensures
        dot_count(s) == 0,
    decreases s.len(),
{
    if s.len() > 0 {
        assert(forall|i: int|
            0 <= i < s.drop_first().len() ==> #[trigger] s.drop_first()[i] == s[i + 1]);
        lemma_dot_count_digits(s.drop_first());
    }
}

/// Scanning an alphanumeric token takes exactly a digit run, stopping at a
/// pair of dots.
proof fn lemma_alnum_scan_dots(n: Seq<char>, s: Seq<char>)
    requires
        forall|i: int| 0 <= i < n.len() ==> safe_name_char(#[trigger] n[i]),
    ensures
        alnum_token_len(n + (seq!['.', '.'] + s), false) == n.len(),
    decreases n.len(),
{
    if n.len() == 0 {
        let t = n + (seq!['.', '.'] + s);
        assert(t =~= seq!['.', '.'] + s);
        assert(t[0] == '.');
        assert(t.drop_first() =~= seq!['.'] + s);
        assert(t.drop_first()[0] == '.');
        assert(alnum_token_len(t.drop_first(), true) == -1);
        assert(alnum_token_len(t, false) == 0);
    } else {
        let t = n + (seq!['.', '.'] + s);
        assert(t[0] == n[0]);
        assert(safe_name_char(n[0]));
        assert(is_token_char(n[0]));
        assert(n[0] != '.');
        assert(t.drop_first() =~= n.drop_first() + (seq!['.', '.'] + s));
        assert(forall|i: int|
            0 <= i < n.drop_first().len() ==> safe_name_char(#[trigger] n.drop_first()[i]));
        lemma_alnum_scan_dots(n.drop_first(), s);
        assert(alnum_token_len(t, false) == 1 + alnum_token_len(t.drop_first(), false));
    }
}

/// A digit is a safe name character.
proof fn lemma_digits_safe(n: Seq<char>)
    requires
        forall|i: int| 0 <= i < n.len() ==> is_digit(#[trigger] n[i]),
    ensures
        forall|i: int| 0 <= i < n.len() ==> safe_name_char(#[trigger] n[i]),
{
}

/// Tokenizing a rendered safe range yields its tokens, then whatever
/// follows the closing brace.
#[verifier::rlimit(100)]
proof fn lemma_tokens_of_range(r: Range, s: Seq<char>)
    requires
        safe_range(Option::Some(r)),
    ensures
        tokens_of(range_text(r) + s) == seq![GToken::EnterCurly] + range_body_tokens(r)
            + tokens_of(s),
{
    let t = range_text(r) + s;
    assert(t[0] == '{');
    assert(take_ws(t) == 0);
    assert(t.skip(0) =~= t);
    assert(token_at(t) == (GToken::EnterCurly, 1int));
    match r {
        Range::One(i) => {
            lemma_nat_text(i as int);
            let d = nat_text(i as int);
            lemma_digits_safe(d);
            let after = d + (seq!['}'] + s);
            assert(t.skip(1) =~= after);
            lemma_alnum_scan(d, seq!['}'] + s);
            assert(after =~= d + seq!['}'] + s);
            assert(after[0] == d[0]);
            assert(!is_ws_char(after[0]));
            assert(take_ws(after) == 0);
            assert(after.skip(0) =~= after);
            assert((d + (seq!['}'] + s)).take(d.len() as int) == d);
            assert(token_at(after) == (GToken::Alnum(d), d.len() as int));
            let close = seq!['}'] + s;
            assert(after.skip(d.len() as int) =~= close);
            assert(close[0] == '}');
            assert(take_ws(close) == 0);
            assert(close.skip(0) =~= close);
            assert(token_at(close) == (GToken::LeaveCurly, 1int));
            assert(close.skip(1) =~= s);
            assert(tokens_of(close) == seq![GToken::LeaveCurly] + tokens_of(s));
            assert(tokens_of(after) == seq![GToken::Alnum(d)] + tokens_of(close));
            assert(tokens_of(t) == seq![GToken::EnterCurly] + tokens_of(after));
            assert(tokens_of(t) =~= seq![GToken::EnterCurly] + range_body_tokens(r) + tokens_of(
                s,
            ));
        },
        Range::From(i) => {
            lemma_nat_text(i as int);
            let d = nat_text(i as int);
            lemma_digits_safe(d);
            let after = d + (seq!['.', '.'] + (seq!['}'] + s));
            assert(t.skip(1) =~= after);
            lemma_alnum_scan_dots(d, seq!['}'] + s);
            assert(after[0] == d[0]);
            assert(!is_ws_char(after[0]));
            assert(take_ws(after) == 0);
            assert(after.skip(0) =~= after);
            assert(after.take(d.len() as int) =~= d);
            assert(alnum_token_len(after, false) == d.len());
            assert(token_at(after) == (GToken::Alnum(d), d.len() as int));
            let dots = seq!['.', '.'] + (seq!['}'] + s);
            assert(after.skip(d.len() as int) =~= dots);
            assert(dots[0] == '.');
            assert(dots[1] == '.');
            assert(take_ws(dots) == 0);
            assert(dots.skip(0) =~= dots);
            assert(token_at(dots) == (GToken::DoublePoint, 2int));
            let close = seq!['}'] + s;
            assert(dots.skip(2) =~= close);
            assert(take_ws(close) == 0);
            assert(close.skip(0) =~= close);
            assert(token_at(close) == (GToken::LeaveCurly, 1int));
            assert(close.skip(1) =~= s);
            assert(tokens_of(close) == seq![GToken::LeaveCurly] + tokens_of(s));
            assert(tokens_of(dots) == seq![GToken::DoublePoint] + tokens_of(close));
            assert(tokens_of(after) == seq![GToken::Alnum(d)] + tokens_of(dots));
            assert(tokens_of(t) == seq![GToken::EnterCurly] + tokens_of(after));
            assert(tokens_of(t) =~= seq![GToken::EnterCurly] + range_body_tokens(r) + tokens_of(
                s,
            ));
        },
        Range::To(j) => {
            lemma_nat_text(j as int);
            let d = nat_text(j as int);
            lemma_digits_safe(d);
            let dots = seq!['.', '.'] + (d + (seq!['}'] + s));
            assert(t.skip(1) =~= dots);
            assert(dots[0] == '.');
            assert(dots[1] == '.');
            assert(take_ws(dots) == 0);
            assert(dots.skip(0) =~= dots);
            assert(token_at(dots) == (GToken::DoublePoint, 2int));
            let after = d + (seq!['}'] + s);
            assert(dots.skip(2) =~= after);
            lemma_alnum_scan(d, seq!['}'] + s);
            assert(after[0] == d[0]);
            assert(!is_ws_char(after[0]));
            assert(take_ws(after) == 0);
            assert(after.skip(0) =~= after);
            assert(after.take(d.len() as int) =~= d);
            assert(token_at(after) == (GToken::Alnum(d), d.len() as int));
            let close = seq!['}'] + s;
            assert(after.skip(d.len() as int) =~= close);
            assert(take_ws(close) == 0);
            assert(close.skip(0) =~= close);
            assert(token_at(close) == (GToken::LeaveCurly, 1int));
            assert(close.skip(1) =~= s);
            assert(tokens_of(close) == seq![GToken::LeaveCurly] + tokens_of(s));
            assert(tokens_of(after) == seq![GToken::Alnum(d)] + tokens_of(close));
            assert(tokens_of(dots) == seq![GToken::DoublePoint] + tokens_of(after));
            assert(tokens_of(t) == seq![GToken::EnterCurly] + tokens_of(dots));
            assert(tokens_of(t) =~= seq![GToken::EnterCurly] + range_body_tokens(r) + tokens_of(
                s,
            ));
        },
        Range::Both(i, j) => {
            lemma_nat_text(i as int);
            lemma_nat_text(j as int);
            let di = nat_text(i as int);
            let dj = nat_text(j as int);
            lemma_digits_safe(di);
            lemma_digits_safe(dj);
            let after_i = di + (seq!['.', '.'] + (dj + (seq!['}'] + s)));
            assert(t.skip(1) =~= after_i);
            lemma_alnum_scan_dots(di, dj + (seq!['}'] + s));
            assert(after_i[0] == di[0]);
            assert(!is_ws_char(after_i[0]));
            assert(take_ws(after_i) == 0);
            assert(after_i.skip(0) =~= after_i);
            assert(after_i.take(di.len() as int) =~= di);
            assert(alnum_token_len(after_i, false) == di.len());
            assert(token_at(after_i) == (GToken::Alnum(di), di.len() as int));
            let dots = seq!['.', '.'] + (dj + (seq!['}'] + s));
            assert(after_i.skip(di.len() as int) =~= dots);
            assert(dots[0] == '.');
            assert(dots[1] == '.');
            assert(take_ws(dots) == 0);
            assert(dots.skip(0) =~= dots);
            assert(token_at(dots) == (GToken::DoublePoint, 2int));
            let after_j = dj + (seq!['}'] + s);
            assert(dots.skip(2) =~= after_j);
            lemma_alnum_scan(dj, seq!['}'] + s);
            assert(after_j[0] == dj[0]);
            assert(!is_ws_char(after_j[0]));
            assert(take_ws(after_j) == 0);
            assert(after_j.skip(0) =~= after_j);
            assert(after_j.take(dj.len() as int) =~= dj);
            assert(token_at(after_j) == (GToken::Alnum(dj), dj.len() as int));
            let close = seq!['}'] + s;
            assert(after_j.skip(dj.len() as int) =~= close);
            assert(take_ws(close) == 0);
            assert(close.skip(0) =~= close);
            assert(token_at(close) == (GToken::LeaveCurly, 1int));
            assert(close.skip(1) =~= s);
            assert(tokens_of(close) == seq![GToken::LeaveCurly] + tokens_of(s));
            assert(tokens_of(after_j) == seq![GToken::Alnum(dj)] + tokens_of(close));
            assert(tokens_of(dots) == seq![GToken::DoublePoint] + tokens_of(after_j));
            assert(tokens_of(after_i) == seq![GToken::Alnum(di)] + tokens_of(dots));
            assert(tokens_of(t) == seq![GToken::EnterCurly] + tokens_of(after_i));
            assert(tokens_of(t) =~= seq![GToken::EnterCurly] + range_body_tokens(r) + tokens_of(
                s,
            ));
        },
        Range::All => {
            let dots = seq!['.', '.'] + (seq!['}'] + s);
            assert(t.skip(1) =~= dots);
            assert(dots[0] == '.');
            assert(dots[1] == '.');
            assert(take_ws(dots) == 0);
            assert(dots.skip(0) =~= dots);
            assert(token_at(dots) == (GToken::DoublePoint, 2int));
            let close = seq!['}'] + s;
            assert(dots.skip(2) =~= close);
            assert(take_ws(close) == 0);
            assert(close.skip(0) =~= close);
            assert(token_at(close) == (GToken::LeaveCurly, 1int));
            assert(close.skip(1) =~= s);
            assert(tokens_of(close) == seq![GToken::LeaveCurly] + tokens_of(s));
            assert(tokens_of(dots) == seq![GToken::DoublePoint] + tokens_of(close));
            assert(tokens_of(t) == seq![GToken::EnterCurly] + tokens_of(dots));
            assert(tokens_of(t) =~= seq![GToken::EnterCurly] + range_body_tokens(r) + tokens_of(
                s,
            ));
        },
    }
}

/// One range-parser step reading a rendered nonnegative integer.
proof fn lemma_range_step_int(i: i128, toks: Seq<GToken>, idx0: Option<int>, has_sep: bool)
    requires
        i >= 0,
    ensures
        !has_sep ==> s_range(
            seq![GToken::Alnum(nat_text(i as int))] + toks,
            Option::None,
            Option::None,
            false,
        ) == s_range(toks, Option::Some(i as int), Option::None, false),
        has_sep ==> s_range(
            seq![GToken::Alnum(nat_text(i as int))] + toks,
            idx0,
            Option::None,
            true,
        ) == s_range(toks, idx0, Option::Some(i as int), true),
{
    lemma_nat_text_value(i as int);
    let full0 = seq![GToken::Alnum(nat_text(i as int))] + toks;
    assert(full0[0] == GToken::Alnum(nat_text(i as int)));
    assert(full0.drop_first() =~= toks);
}

/// One range-parser step reading the separator.
proof fn lemma_range_step_dots(toks: Seq<GToken>, idx0: Option<int>)
    ensures
        s_range(seq![GToken::DoublePoint] + toks, idx0, Option::None, false) == s_range(
            toks,
            idx0,
            Option::None,
            true,
        ),
{
    let full = seq![GToken::DoublePoint] + toks;
    assert(full[0] == GToken::DoublePoint);
    assert(full.drop_first() =~= toks);
}

/// One range-parser step reading the closing brace.
proof fn lemma_range_step_close(toks: Seq<GToken>, idx0: Option<int>, idx1: Option<int>, has_sep: bool)
    ensures
        s_range(seq![GToken::LeaveCurly] + toks, idx0, idx1, has_sep) == (match (
            idx0,
            idx1,
            has_sep,
        ) {
            (Option::None, Option::None, false) => Err(crate::error::GParseError::RangeEmpty),
            (Option::None, Option::None, true) => Ok((Range::All, toks)),
            (Option::Some(i), Option::None, false) => Ok((Range::One(i as i128), toks)),
            (Option::Some(i), Option::None, true) => Ok((Range::From(i as i128), toks)),
            (Option::None, Option::Some(j), true) => Ok((Range::To(j as i128), toks)),
            (Option::None, Option::Some(_), false) => Err(
                crate::error::GParseError::RangeMissingSeparator,
            ),
            (Option::Some(i), Option::Some(j), true) => Ok((Range::Both(i as i128, j as i128), toks)),
            (Option::Some(_), Option::Some(_), false) => Err(
                crate::error::GParseError::RangeMissingSeparator,
            ),
        }),
{
    let full = seq![GToken::LeaveCurly] + toks;
    assert(full[0] == GToken::LeaveCurly);
    assert(full.drop_first() =~= toks);
}

/// Parsing a rendered safe range's tokens after the opening brace rebuilds
/// exactly the range, leaving what follows.
proof fn lemma_range_parses(r: Range, rest: Seq<GToken>)
    requires
        safe_range(Option::Some(r)),
    ensures
        s_range(range_body_tokens(r) + rest, Option::None, Option::None, false) == Ok::<
            (Range, Seq<GToken>),
            crate::error::GParseError,
        >((r, rest)),
{
    match r {
        Range::One(i) => {
            let t1 = seq![GToken::LeaveCurly] + rest;
            assert(range_body_tokens(r) + rest =~= seq![GToken::Alnum(nat_text(i as int))] + t1);
            lemma_range_step_int(i, t1, Option::None, false);
            lemma_range_step_close(rest, Option::Some(i as int), Option::None, false);
        },
        Range::From(i) => {
            let t2 = seq![GToken::LeaveCurly] + rest;
            let t1 = seq![GToken::DoublePoint] + t2;
            assert(range_body_tokens(r) + rest =~= seq![GToken::Alnum(nat_text(i as int))] + t1);
            lemma_range_step_int(i, t1, Option::None, false);
            lemma_range_step_dots(t2, Option::Some(i as int));
            lemma_range_step_close(rest, Option::Some(i as int), Option::None, true);
        },
        Range::To(j) => {
            let t2 = seq![GToken::LeaveCurly] + rest;
            let t1 = seq![GToken::Alnum(nat_text(j as int))] + t2;
            assert(range_body_tokens(r) + rest =~= seq![GToken::DoublePoint] + t1);
            lemma_range_step_dots(t1, Option::None);
            lemma_range_step_int(j, t2, Option::None, true);
            lemma_range_step_close(rest, Option::None, Option::Some(j as int), true);
        },
        Range::Both(i, j) => {
            let t3 = seq![GToken::LeaveCurly] + rest;
            let t2 = seq![GToken::Alnum(nat_text(j as int))] + t3;
            let t1 = seq![GToken::DoublePoint] + t2;
            assert(range_body_tokens(r) + rest =~= seq![GToken::Alnum(nat_text(i as int))] + t1);
            lemma_range_step_int(i, t1, Option::None, false);
            lemma_range_step_dots(t2, Option::Some(i as int));
            lemma_range_step_int(j, t3, Option::Some(i as int), true);
            lemma_range_step_close(rest, Option::Some(i as int), Option::Some(j as int), true);
        },
        Range::All => {
            let t1 = seq![GToken::LeaveCurly] + rest;
            assert(range_body_tokens(r) + rest =~= seq![GToken::DoublePoint] + t1);
            lemma_range_step_dots(t1, Option::None);
            lemma_range_step_close(rest, Option::None, Option::None, true);
        },
    }
}

/// A path's text starts with its first segment's text.
proof fn lemma_path_text_front(p: Seq<GSel>)
    requires
        p.len() > 0,
    ensures
        path_text(p) == sel_text(p[0]) + seq!['/'] + path_text(p.drop_first()),
    decreases p.len(),
{
    if p.len() == 1 {
        assert(p.drop_last().len() == 0);
        assert(p.drop_first().len() == 0);
        assert(p.last() == p[0]);
        assert(path_text(p.drop_last()) + sel_text(p.last()) + seq!['/'] =~= sel_text(p[0])
            + seq!['/'] + path_text(p.drop_first()));
    } else {
        let q = p.drop_last();
        lemma_path_text_front(q);
        assert(q[0] == p[0]);
        assert(p.drop_first().drop_last() =~= q.drop_first());
        assert(p.drop_first().last() == p.last());
        assert(path_text(p.drop_first()) == path_text(p.drop_first().drop_last()) + sel_text(
            p.drop_first().last(),
        ) + seq!['/']);
        assert((sel_text(p[0]) + seq!['/'] + path_text(q.drop_first())) + sel_text(p.last())
            + seq!['/'] =~= sel_text(p[0]) + seq!['/'] + (path_text(q.drop_first()) + sel_text(
            p.last(),
        ) + seq!['/']));
    }
}

/// A safe segment's text is its kind's text followed by its range's text.
proof fn lemma_safe_sel_text(s: GSel)
    requires
        safe_sel(s),
    ensures
        s.range is None ==> sel_text(s) == kind_text(s.kind),
        s.range is Some ==> sel_text(s) == kind_text(s.kind) + range_text(s.range->0),
{
    match s.range {
        Option::None => {
            assert(sel_text(s) =~= kind_text(s.kind));
        },
        Option::Some(r) => {
            assert(sel_text(s) =~= kind_text(s.kind) + range_text(r));
        },
    }
}

/// Scanning an alphanumeric token takes exactly a safe name, stopping at
/// whatever follows it that cannot continue the token.
proof fn lemma_alnum_scan(n: Seq<char>, s: Seq<char>)
    requires
        forall|i: int| 0 <= i < n.len() ==> safe_name_char(#[trigger] n[i]),
        s.len() == 0 || !is_token_char(s[0]),
    ensures
        alnum_token_len(n + s, false) == n.len(),
        (n + s).take(n.len() as int) == n,
    decreases n.len(),
{
    if n.len() == 0 {
        assert(n + s =~= s);
        assert((n + s).take(0) =~= n);
    } else {
        assert((n + s)[0] == n[0]);
        assert(safe_name_char(n[0]));
        assert(is_token_char(n[0]));
        assert(n[0] != '.');
        assert((n + s).drop_first() =~= n.drop_first() + s);
        assert(forall|i: int|
            0 <= i < n.drop_first().len() ==> safe_name_char(#[trigger] n.drop_first()[i]));
        lemma_alnum_scan(n.drop_first(), s);
        assert((n + s).take(n.len() as int) =~= n);
    }
}

/// Tokenizing a safe segment's text followed by a slash yields the
/// segment's tokens, the slash, and whatever the rest yields; the rest
/// must not begin with a slash (which would fuse into `//`).
proof fn lemma_tokens_of_full_sel(s: GSel, r: Seq<char>)
    requires
        safe_sel(s),
        r.len() == 0 || r[0] != '/',
    ensures
        tokens_of(sel_text(s) + seq!['/'] + r) == sel_tokens(s) + seq![GToken::Slash] + tokens_of(
            r,
        ),
{
    lemma_safe_sel_text(s);
    match s.range {
        Option::None => {
            lemma_tokens_of_sel(s.kind, r);
            assert(sel_text(s) + seq!['/'] + r =~= kind_text(s.kind) + seq!['/'] + r);
            assert(sel_tokens(s) =~= seq![kind_token(s.kind)]);
            assert(seq![kind_token(s.kind), GToken::Slash] =~= sel_tokens(s) + seq![
                GToken::Slash,
            ]);
        },
        Option::Some(rg) => {
            let k = s.kind;
            let body = range_text(rg) + (seq!['/'] + r);
            let t = kind_text(k) + body;
            assert(sel_text(s) + seq!['/'] + r =~= t);
            assert(body[0] == '{');
            lemma_tokens_of_range(rg, seq!['/'] + r);
            let slash_r = seq!['/'] + r;
            assert(take_ws(slash_r) == 0);
            assert(slash_r.skip(0) =~= slash_r);
            if r.len() > 0 {
                assert(slash_r[1] == r[0]);
            }
            assert(token_at(slash_r) == (GToken::Slash, 1int));
            assert(slash_r.skip(1) =~= r);
            assert(tokens_of(slash_r) == seq![GToken::Slash] + tokens_of(r));
            assert(tokens_of(body) == seq![GToken::EnterCurly] + range_body_tokens(rg) + (seq![
                GToken::Slash,
            ] + tokens_of(r)));
            match k {
                GKind::Named(n) => {
                    assert(t =~= n + body);
                    assert(!is_ws_char(n[0]));
                    assert(t[0] == n[0]);
                    assert(take_ws(t) == 0);
                    assert(t.skip(0) =~= t);
                    assert(!is_token_char(body[0]));
                    lemma_alnum_scan(n, body);
                    assert(alnum_token_len(t, false) == n.len());
                    assert(n[0] != '"' && n[0] != '\'');
                    assert(is_alnum_char(n[0]) || n[0] == '_');
                    assert(token_at(t) == (GToken::Alnum(n), n.len() as int));
                    assert(t.skip(n.len() as int) =~= body);
                },
                GKind::Any => {
                    assert(t[0] == '*');
                    assert(t[1] == '{');
                    assert(take_ws(t) == 0);
                    assert(t.skip(0) =~= t);
                    assert(token_at(t) == (GToken::Star, 1int));
                    assert(t.skip(1) =~= body);
                },
                GKind::Anywhere => {
                    assert(t[0] == '*');
                    assert(t[1] == '*');
                    assert(take_ws(t) == 0);
                    assert(t.skip(0) =~= t);
                    assert(token_at(t) == (GToken::DoubleStar, 2int));
                    assert(t.skip(2) =~= body);
                },
                GKind::Parent => {
                    assert(t[0] == '.');
                    assert(t[1] == '.');
                    assert(take_ws(t) == 0);
                    assert(t.skip(0) =~= t);
                    assert(token_at(t) == (GToken::DoublePoint, 2int));
                    assert(t.skip(2) =~= body);
                },
                GKind::Root => {},
            }
            assert(tokens_of(t) == seq![kind_token(k)] + tokens_of(body));
            assert(seq![kind_token(k)] + (seq![GToken::EnterCurly] + range_body_tokens(rg) + (seq![
                GToken::Slash,
            ] + tokens_of(r))) =~= sel_tokens(s) + seq![GToken::Slash] + tokens_of(r));
        },
    }
}

/// Tokenizing a bare safe segment's text followed by a slash yields the
/// segment's token, the slash, and whatever the rest yields.
proof fn lemma_tokens_of_sel(k: GKind, r: Seq<char>)
    requires
        match k {
            GKind::Named(n) => safe_name(n),
            GKind::Root => false,
            _ => true,
        },
        r.len() == 0 || r[0] != '/',
    ensures
        tokens_of(kind_text(k) + seq!['/'] + r) == seq![kind_token(k), GToken::Slash] + tokens_of(
            r,
        ),
{
    let t = kind_text(k) + seq!['/'] + r;
    let slash_r = seq!['/'] + r;
    // the slash token itself
    assert(take_ws(slash_r) == 0);
    assert(slash_r.skip(0) =~= slash_r);
    if r.len() > 0 {
        assert(slash_r[1] == r[0]);
    }
    assert(token_at(slash_r) == (GToken::Slash, 1int));
    assert(slash_r.skip(1) =~= r);
    assert(tokens_of(slash_r) == seq![GToken::Slash] + tokens_of(r));
    match k {
        GKind::Named(n) => {
            assert(t =~= n + slash_r);
            assert(!is_ws_char(n[0]));
            assert(t[0] == n[0]);
            assert(take_ws(t) == 0);
            assert(t.skip(0) =~= t);
            assert(!is_token_char(slash_r[0]));
            lemma_alnum_scan(n, slash_r);
            assert(alnum_token_len(t, false) == n.len());
            assert(n[0] != '"' && n[0] != '\'');
            assert(is_alnum_char(n[0]) || n[0] == '_');
            assert(token_at(t) == (GToken::Alnum(n), n.len() as int));
            assert(t.skip(n.len() as int) =~= slash_r);
            assert(tokens_of(t) == seq![GToken::Alnum(n)] + tokens_of(slash_r));
            assert(seq![GToken::Alnum(n)] + (seq![GToken::Slash] + tokens_of(r)) =~= seq![
                kind_token(k),
                GToken::Slash,
            ] + tokens_of(r));
        },
        GKind::Any => {
            assert(t[0] == '*');
            assert(t[1] == '/');
            assert(take_ws(t) == 0);
            assert(t.skip(0) =~= t);
            assert(token_at(t) == (GToken::Star, 1int));
            assert(t.skip(1) =~= slash_r);
            assert(tokens_of(t) == seq![GToken::Star] + tokens_of(slash_r));
            assert(seq![GToken::Star] + (seq![GToken::Slash] + tokens_of(r)) =~= seq![
                kind_token(k),
                GToken::Slash,
            ] + tokens_of(r));
        },
        GKind::Anywhere => {
            assert(t[0] == '*');
            assert(t[1] == '*');
            assert(take_ws(t) == 0);
            assert(t.skip(0) =~= t);
            assert(token_at(t) == (GToken::DoubleStar, 2int));
            assert(t.skip(2) =~= slash_r);
            assert(tokens_of(t) == seq![GToken::DoubleStar] + tokens_of(slash_r));
            assert(seq![GToken::DoubleStar] + (seq![GToken::Slash] + tokens_of(r)) =~= seq![
                kind_token(k),
                GToken::Slash,
            ] + tokens_of(r));
        },
        GKind::Parent => {
            assert(t[0] == '.');
            assert(t[1] == '.');
            assert(take_ws(t) == 0);
            assert(t.skip(0) =~= t);
            assert(token_at(t) == (GToken::DoublePoint, 2int));
            assert(t.skip(2) =~= slash_r);
            assert(tokens_of(t) == seq![GToken::DoublePoint] + tokens_of(slash_r));
            assert(seq![GToken::DoublePoint] + (seq![GToken::Slash] + tokens_of(r)) =~= seq![
                kind_token(k),
                GToken::Slash,
            ] + tokens_of(r));
        },
        GKind::Root => {},
    }
}

/// Tokenizing a safe path's text yields its segments' tokens.
proof fn lemma_path_tokenizes(p: Seq<GSel>)
    requires
        safe_path(p),
    ensures
        tokens_of(path_text(p)) == path_tokens(p),
    decreases p.len(),
{
    if p.len() == 0 {
        assert(path_text(p).len() == 0);
        assert(path_text(p).skip(take_ws(path_text(p))).len() == 0);
    } else {
        lemma_path_text_front(p);
        assert(safe_sel(p[0]));
        let rest = p.drop_first();
        assert(safe_path(rest)) by {
            assert(forall|i: int| 0 <= i < rest.len() ==> #[trigger] rest[i] == p[i + 1]);
        }
        let r = path_text(rest);
        if rest.len() > 0 {
            lemma_path_text_front(rest);
            lemma_safe_sel_text(rest[0]);
            assert(kind_text(rest[0].kind).len() >= 1) by {
                match rest[0].kind {
                    GKind::Named(n) => {},
                    _ => {},
                }
            }
            assert(r[0] == kind_text(rest[0].kind)[0]);
            assert(r[0] != '/') by {
                match rest[0].kind {
                    GKind::Named(n) => {
                        assert(safe_name_char(n[0]));
                    },
                    _ => {},
                }
            }
        }
        lemma_tokens_of_full_sel(p[0], r);
        assert(path_text(p) == sel_text(p[0]) + seq!['/'] + r);
        lemma_path_tokenizes(rest);
    }
}

/// A safe name reads back as a bare string value.
proof fn lemma_safe_name_value(n: Seq<char>)
    requires
        safe_name(n),
    ensures
        spec_parse_alnum(n) == Ok::<GValue, crate::error::ParseStringError>(GValue::Str(n)),
{
    assert(safe_name_char(n[0]));
    assert(n[0] != '-' && n[0] != '+');
    if n.len() >= 2 {
        assert(safe_name_char(n[1]));
    }
    assert(!crate::chars::is_numeric_char(n[0]));
}

/// Parsing a safe path's tokens rebuilds exactly its segments, after
/// whatever was parsed before.
proof fn lemma_path_parses(p: Seq<GSel>, acc: Seq<GSel>)
    requires
        safe_path(p),
    ensures
        s_path(path_tokens(p), acc, Option::None) == Ok::<
            Seq<GSel>,
            crate::error::GParseError,
        >(acc + p),
    decreases p.len(),
{
    if p.len() == 0 {
        assert(acc + p =~= acc);
    } else {
        let toks = path_tokens(p);
        let rest = p.drop_first();
        assert(safe_path(rest)) by {
            assert(forall|i: int| 0 <= i < rest.len() ==> #[trigger] rest[i] == p[i + 1]);
        }
        assert(safe_sel(p[0]));
        assert(toks[0] == kind_token(p[0].kind));
        let after_kind: Seq<GToken> = (match p[0].range {
            Option::None => Seq::<GToken>::empty(),
            Option::Some(r) => seq![GToken::EnterCurly] + range_body_tokens(r),
        }) + seq![GToken::Slash] + path_tokens(rest);
        assert(toks.drop_first() =~= after_kind);
        lemma_path_parses(rest, acc.push(p[0]));
        assert(acc.push(p[0]) + rest =~= acc + p);
        let bare = bare_sel(p[0].kind);
        match p[0].kind {
            GKind::Named(n) => {
                lemma_safe_name_value(n);
            },
            GKind::Root => {},
            _ => {},
        }
        assert(s_path(toks, acc, Option::None) == s_path(after_kind, acc, Option::Some(bare)));
        match p[0].range {
            Option::None => {
                assert(bare == p[0]);
                assert(after_kind =~= seq![GToken::Slash] + path_tokens(rest));
                assert(after_kind[0] == GToken::Slash);
                assert(after_kind.drop_first() =~= path_tokens(rest));
                assert(s_path(after_kind, acc, Option::Some(p[0])) == s_path(
                    path_tokens(rest),
                    acc.push(p[0]),
                    Option::None,
                ));
            },
            Option::Some(r) => {
                assert(after_kind =~= seq![GToken::EnterCurly] + (range_body_tokens(r) + (seq![
                    GToken::Slash,
                ] + path_tokens(rest))));
                assert(after_kind[0] == GToken::EnterCurly);
                assert(after_kind.drop_first() =~= range_body_tokens(r) + (seq![GToken::Slash]
                    + path_tokens(rest)));
                lemma_range_parses(r, seq![GToken::Slash] + path_tokens(rest));
                let with_range = GSel {
                    kind: bare.kind,
                    entries: bare.entries,
                    range: Option::Some(r),
                };
                assert(with_range == p[0]);
                assert(s_path(after_kind, acc, Option::Some(bare)) == s_path(
                    seq![GToken::Slash] + path_tokens(rest),
                    acc,
                    Option::Some(p[0]),
                ));
                let slash_toks = seq![GToken::Slash] + path_tokens(rest);
                assert(slash_toks[0] == GToken::Slash);
                assert(slash_toks.drop_first() =~= path_tokens(rest));
                assert(s_path(slash_toks, acc, Option::Some(p[0])) == s_path(
                    path_tokens(rest),
                    acc.push(p[0]),
                    Option::None,
                ));
            },
        }
    }
}

/// Round-trip display: rendering a path of safely named segments with
/// optional nonnegative ranges, and parsing the rendering, yields the path
/// again.
pub proof fn lemma_parse_display_round_trip(p: Seq<GSel>)
    requires
        safe_path(p),
    ensures
        spec_parse_path(path_text(p)) == Ok::<Seq<GSel>, crate::error::GParseError>(p),
{
    lemma_path_tokenizes(p);
    lemma_path_parses(p, Seq::empty());
    assert(Seq::<GSel>::empty() + p =~= p);
}

/// Round-trip display for a rooted path: a leading root marker renders as
/// the path's leading slash and reads back as the root marker.
pub proof fn lemma_parse_display_round_trip_rooted(p: Seq<GSel>)
    requires
        p.len() >= 1,
        p[0] == bare_sel(GKind::Root),
        safe_path(p.drop_first()),
    ensures
        spec_parse_path(path_text(p)) == Ok::<Seq<GSel>, crate::error::GParseError>(p),
{
    lemma_path_text_front(p);
    assert(sel_text(p[0]) =~= Seq::<char>::empty());
    let rest = p.drop_first();
    let r = path_text(rest);
    assert(path_text(p) =~= seq!['/'] + r);
    if rest.len() > 0 {
        lemma_path_text_front(rest);
        lemma_safe_sel_text(rest[0]);
        assert(kind_text(rest[0].kind).len() >= 1) by {
            match rest[0].kind {
                GKind::Named(n) => {},
                _ => {},
            }
        }
        assert(r[0] == kind_text(rest[0].kind)[0]);
        assert(r[0] != '/') by {
            match rest[0].kind {
                GKind::Named(n) => {
                    assert(safe_name_char(n[0]));
                },
                _ => {},
            }
        }
    }
    let t = seq!['/'] + r;
    assert(take_ws(t) == 0);
    assert(t.skip(0) =~= t);
    if r.len() > 0 {
        assert(t[1] == r[0]);
    }
    assert(token_at(t) == (GToken::Slash, 1int));
    assert(t.skip(1) =~= r);
    lemma_path_tokenizes(rest);
    assert(tokens_of(t) == seq![GToken::Slash] + path_tokens(rest));
    lemma_path_parses(rest, seq![bare_sel(GKind::Root)]);
    assert(seq![bare_sel(GKind::Root)] + rest =~= p);
    assert(spec_parse_path(path_text(p)) == s_path(
        seq![GToken::Slash] + path_tokens(rest),
        Seq::empty(),
        Option::None,
    ));
    assert((seq![GToken::Slash] + path_tokens(rest))[0] == GToken::Slash);
    assert((seq![GToken::Slash] + path_tokens(rest)).drop_first() =~= path_tokens(rest));
    assert(Seq::<GSel>::empty().push(bare_sel(GKind::Root)) =~= seq![bare_sel(GKind::Root)]);
}

/// Every node an entries-filtered segment keeps satisfies the predicate;
/// in particular `**` with a predicate keeps exactly the nodes of the
/// flattened scope that satisfy it.
pub proof fn lemma_filter_keeps_matching(sel: GSel, cands: Seq<GNode>, i: int)
    requires
        0 <= i < s_filter(sel, cands).len(),
    ensures
        s_matches_sel(sel, s_filter(sel, cands)[i]),
        sel_entries_ok(sel, s_filter(sel, cands)[i]),
    decreases cands.len(),
{
    if cands.len() > 0 {
        let rest = cands.drop_last();
        let fr = s_filter(sel, rest);
        if s_matches_sel(sel, cands.last()) {
            if i < fr.len() {
                lemma_filter_keeps_matching(sel, rest, i);
            }
        } else {
            lemma_filter_keeps_matching(sel, rest, i);
        }
    }
}

} // verus!
