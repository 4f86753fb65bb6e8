//! What a fact that is taken in does to the answers, where the arithmetic of transforms is
//! exact.

use crate::chain::{lemma_position, lemma_span_extended, ChainView};
use crate::error::InsertionErrorView;
use crate::exact::{
    exact_arithmetic, lemma_associative, lemma_cancel, lemma_identity_inverse,
    lemma_inverse_of_product, lemma_product_split, lemma_span_product, lemma_span_transitivity,
    lemma_unit,
};
use crate::transform::{composed, inverted, RigidTransform};
use crate::tset::{lemma_group_of, TransformSetView};
use vstd::prelude::*;

verus! {

/// Two chains with the same edges over a stretch have the same product over it.
pub proof fn lemma_product_same_edges(a: ChainView, b: ChainView, i: int, j: int, shift: int)
    requires
        forall|p: int| i <= p < j ==> a.edges[p] == #[trigger] b.edges[p + shift],
    ensures
        a.product(i, j) == b.product(i + shift, j + shift),
    decreases j - i,
{
    if j > i {
        lemma_product_same_edges(a, b, i, j - 1, shift);
        assert(a.edges[j - 1] == b.edges[j - 1 + shift]);
    }
}

/// Where the arithmetic is exact, a frame that was hung on the frame at position `from` by
/// the transform `tf` is reached from that frame by `tf`.
pub proof fn lemma_appended_answer(chain: ChainView, name: Seq<char>, from: int, tf: RigidTransform)
    requires
        exact_arithmetic(),
        chain.wf(),
        0 <= from < chain.names.len(),
    ensures
        chain.extended(name, chain.edge_from(from, tf)).span(from, chain.names.len() as int) == tf,
{
    let n = chain.names.len() as int;
    let edge = chain.edge_from(from, tf);
    let after = chain.extended(name, edge);
    let to_from = chain.from_start(from);
    let to_last = chain.from_start(n - 1);
    lemma_span_product(chain, from, n - 1);
    lemma_span_product(after, from, n);
    lemma_product_same_edges(after, chain, 0, from, 0);
    lemma_product_same_edges(after, chain, 0, n - 1, 0);
    assert(after.from_start(n) == composed(to_last, edge));
    lemma_inverse_of_product(inverted(to_from), to_last);
    lemma_inverse_of_product(to_from, to_from);
    let back = composed(inverted(to_last), to_from);
    assert(edge == composed(back, tf));
    lemma_associative(to_last, back, tf);
    lemma_cancel(to_last, to_from);
    lemma_cancel(to_from, tf);
}

/// Where the arithmetic is exact, a chain gives back each of its edges as a step.
pub proof fn lemma_steps(chain: ChainView)
    requires
        exact_arithmetic(),
    ensures
        chain.steps() == chain.edges,
{
    assert forall|p: int| 0 <= p < chain.edges.len() implies chain.span(p, p + 1)
        == chain.edges[p] by {
        lemma_span_product(chain, p, p + 1);
        lemma_product_split(chain, 0, p, p + 1);
        assert(chain.product(p, p + 1) == composed(chain.product(p, p), chain.edges[p]));
        lemma_unit(chain.edges[p]);
        lemma_cancel(chain.from_start(p), chain.edges[p]);
    }
    assert(chain.steps() =~= chain.edges);
}

/// Where the arithmetic is exact, what leads from a frame of the one chain to a frame of
/// the other, after the two were joined, is what leads to the end of the one, then the
/// bridge, then what leads from the start of the other.
pub proof fn lemma_merged_answer(a: ChainView, b: ChainView, bridge: RigidTransform, i: int, j: int)
    requires
        exact_arithmetic(),
        a.wf(),
        b.wf(),
        0 <= i < a.names.len(),
        0 <= j < b.names.len(),
    ensures
        a.merged(b, bridge).span(i, a.names.len() + j) == composed(
            composed(a.span(i, a.names.len() - 1), bridge),
            b.span(0, j),
        ),
{
    let e = RigidTransform::spec_identity();
    let n = a.names.len() as int;
    let m = a.merged(b, bridge);
    lemma_steps(b);
    lemma_span_product(m, i, n + j);
    lemma_span_product(a, i, n - 1);
    lemma_span_product(b, 0, j);
    lemma_product_same_edges(m, a, 0, i, 0);
    lemma_product_same_edges(m, a, 0, n - 1, 0);
    assert forall|p: int| n <= p < n + j implies m.edges[p] == #[trigger] b.edges[p + (-n)] by {}
    lemma_product_same_edges(m, b, n, n + j, -n);
    lemma_product_split(m, 0, n, n + j);
    assert(m.from_start(n) == composed(a.from_start(n - 1), bridge));
    lemma_identity_inverse();
    assert(b.from_start(0) == e);
    lemma_unit(b.from_start(j));
    let to_i = inverted(a.from_start(i));
    let to_last = a.from_start(n - 1);
    let onward = b.from_start(j);
    lemma_associative(to_i, to_last, bridge);
    lemma_associative(to_i, composed(to_last, bridge), onward);
}

/// Where the arithmetic is exact, a fact between two different frames that were not
/// related, once it is taken in, is answered as it was given.
pub proof fn lemma_inserted_is_answered(
    view: TransformSetView,
    after: TransformSetView,
    src: Seq<char>,
    dst: Seq<char>,
    tf: RigidTransform,
)
    requires
        exact_arithmetic(),
        view.wf(),
        after.wf(),
        src != dst,
        view.get(src, dst) is None,
        view.inserted(src, dst, tf) == Ok::<TransformSetView, InsertionErrorView>(
            after,
        ),
    ensures
        after.get(src, dst) == Some(tf),
{
    match (view.group_of(src), view.group_of(dst)) {
        (None, None) => {
            let chain = ChainView::single(src).extended(dst, tf);
            let id = view.groups.len() as int;
            assert(after.groups[id] == Some(chain));
            assert(chain.names[0] == src);
            assert(chain.names[1] == dst);
            assert(after.holds(id, src));
            assert(after.holds(id, dst));
            lemma_group_of(after, id, src);
            lemma_group_of(after, id, dst);
            lemma_position(chain, src, 0);
            lemma_position(chain, dst, 1);
            lemma_span_product(chain, 0, 1);
            assert(chain.product(0, 1) == composed(chain.product(0, 0), chain.edges[0]));
            lemma_unit(tf);
            lemma_identity_inverse();
        },
        (Some(g), None) => {
            let chain = view.groups[g].unwrap();
            let i = chain.position(src).unwrap();
            let n = chain.names.len() as int;
            let grown = chain.extended(dst, chain.edge_from(i, tf));
            assert(view.holds(g, src));
            assert(chain.names[i] == src);
            assert(!chain.names.contains(dst)) by {
                if chain.names.contains(dst) {
                    assert(view.holds(g, dst));
                }
            }
            assert(after.groups[g] == Some(grown));
            assert(grown.names[i] == src);
            assert(grown.names[n] == dst);
            assert(after.holds(g, src));
            assert(after.holds(g, dst));
            lemma_group_of(after, g, src);
            lemma_group_of(after, g, dst);
            lemma_position(grown, src, i);
            lemma_position(grown, dst, n);
            lemma_appended_answer(chain, dst, i, tf);
        },
        (None, Some(h)) => {
            let chain = view.groups[h].unwrap();
            let j = chain.position(dst).unwrap();
            let n = chain.names.len() as int;
            let grown = chain.extended(src, chain.edge_from(j, inverted(tf)));
            assert(view.holds(h, dst));
            assert(chain.names[j] == dst);
            assert(!chain.names.contains(src)) by {
                if chain.names.contains(src) {
                    assert(view.holds(h, src));
                }
            }
            assert(after.groups[h] == Some(grown));
            assert(grown.names[j] == dst);
            assert(grown.names[n] == src);
            assert(after.holds(h, src));
            assert(after.holds(h, dst));
            lemma_group_of(after, h, src);
            lemma_group_of(after, h, dst);
            lemma_position(grown, dst, j);
            lemma_position(grown, src, n);
            lemma_appended_answer(chain, src, j, inverted(tf));
            lemma_inverse_of_product(tf, tf);
        },
        (Some(g), Some(h)) => {
            lemma_bridged_answer(view, after, src, dst, tf, src, dst);
            let a = view.groups[g].unwrap();
            let b = view.groups[h].unwrap();
            assert(view.holds(g, src));
            assert(view.holds(h, dst));
            lemma_group_of(view, g, src);
            lemma_group_of(view, h, dst);
            lemma_unit(tf);
        },
    }
}

/// Where the arithmetic is exact, a fact that joins two groups makes every frame of the
/// one lead to every frame of the other by way of the fact: to the source of the fact,
/// then the transform of the fact, then on from its destination.
pub proof fn lemma_bridged_answer(
    view: TransformSetView,
    after: TransformSetView,
    src: Seq<char>,
    dst: Seq<char>,
    tf: RigidTransform,
    x: Seq<char>,
    y: Seq<char>,
)
    requires
        exact_arithmetic(),
        view.wf(),
        after.wf(),
        view.inserted(src, dst, tf) == Ok::<TransformSetView, InsertionErrorView>(
            after,
        ),
        view.group_of(src) is Some,
        view.group_of(dst) is Some,
        view.group_of(src) != view.group_of(dst),
        view.group_of(x) == view.group_of(src),
        view.group_of(y) == view.group_of(dst),
    ensures
        after.get(x, y) == Some(
            composed(composed(view.get(x, src).unwrap(), tf), view.get(dst, y).unwrap()),
        ),
{
    let g = view.group_of(src).unwrap();
    let h = view.group_of(dst).unwrap();
    let a = view.groups[g].unwrap();
    let b = view.groups[h].unwrap();
    assert(view.holds(g, src));
    assert(view.holds(h, dst));
    assert(view.holds(g, x));
    assert(view.holds(h, y));
    let n = a.names.len() as int;
    let last = n - 1;
    let at_src = a.names.index_of(src);
    let at_dst = b.names.index_of(dst);
    let i = a.names.index_of(x);
    let j = b.names.index_of(y);
    assert(a.names[at_src] == src);
    assert(b.names[at_dst] == dst);
    assert(a.names[i] == x);
    assert(b.names[j] == y);
    let bridge = TransformSetView::bridge(a, b, src, dst, tf);
    let joined = a.merged(b, bridge);
    let id = view.groups.len() as int;
    assert(after.groups[id] == Some(joined));
    assert(joined.names[i] == x);
    assert(joined.names[n + j] == y);
    assert(after.holds(id, x));
    assert(after.holds(id, y));
    lemma_group_of(after, id, x);
    lemma_group_of(after, id, y);
    lemma_position(joined, x, i);
    lemma_position(joined, y, n + j);
    lemma_merged_answer(a, b, bridge, i, j);
    lemma_span_transitivity(a, i, last, at_src);
    lemma_span_transitivity(b, at_dst, 0, j);
    let to_last = a.span(i, last);
    let back = a.span(last, at_src);
    let home = b.span(at_dst, 0);
    let onward = b.span(0, j);
    assert(bridge == composed(composed(back, tf), home));
    lemma_associative(to_last, composed(back, tf), home);
    lemma_associative(to_last, back, tf);
    lemma_associative(composed(composed(to_last, back), tf), home, onward);
}

/// A fact that hangs a new frame on a group leaves every transform between frames of that
/// group as it was.
pub proof fn lemma_appended_keeps_answers(
    chain: ChainView,
    name: Seq<char>,
    edge: RigidTransform,
    a: Seq<char>,
    b: Seq<char>,
)
    requires
        chain.wf(),
        !chain.names.contains(name),
        chain.get(a, b) is Some,
    ensures
        chain.extended(name, edge).get(a, b) == chain.get(a, b),
{
    let after = chain.extended(name, edge);
    let i = chain.names.index_of(a);
    let j = chain.names.index_of(b);
    assert(chain.names[i] == a);
    assert(chain.names[j] == b);
    assert(after.names[i] == a);
    assert(after.names[j] == b);
    assert(after.names.no_duplicates()) by {
        assert forall|p: int, q: int|
            0 <= p < after.names.len() && 0 <= q < after.names.len() && p != q implies after.names[p]
            != after.names[q] by {
            if p < chain.names.len() {
                assert(chain.names.contains(chain.names[p]));
            }
            if q < chain.names.len() {
                assert(chain.names.contains(chain.names[q]));
            }
        }
    }
    lemma_position(after, a, i);
    lemma_position(after, b, j);
    lemma_span_extended(chain, name, edge, i, j);
}

/// Where the arithmetic is exact, joining a chain to the end of another changes nothing
/// between two frames of the one that comes first.
pub proof fn lemma_merged_keeps_first(
    a: ChainView,
    b: ChainView,
    bridge: RigidTransform,
    i: int,
    j: int,
)
    requires
        exact_arithmetic(),
        a.wf(),
        0 <= i < a.names.len(),
        0 <= j < a.names.len(),
    ensures
        a.merged(b, bridge).span(i, j) == a.span(i, j),
{
    let m = a.merged(b, bridge);
    lemma_span_product(m, i, j);
    lemma_span_product(a, i, j);
    lemma_product_same_edges(m, a, 0, i, 0);
    lemma_product_same_edges(m, a, 0, j, 0);
}

/// Where the arithmetic is exact, joining a chain to the end of another changes nothing
/// between two frames of the one that comes second.
pub proof fn lemma_merged_keeps_second(
    a: ChainView,
    b: ChainView,
    bridge: RigidTransform,
    i: int,
    j: int,
)
    requires
        exact_arithmetic(),
        a.wf(),
        b.wf(),
        a.names.len() > 0,
        0 <= i < b.names.len(),
        0 <= j < b.names.len(),
    ensures
        a.merged(b, bridge).span(a.names.len() + i, a.names.len() + j) == b.span(i, j),
{
    let n = a.names.len() as int;
    let m = a.merged(b, bridge);
    lemma_steps(b);
    lemma_span_product(m, n + i, n + j);
    lemma_span_product(b, i, j);
    assert forall|p: int| n <= p < n + i implies m.edges[p] == #[trigger] b.edges[p + (-n)] by {}
    assert forall|p: int| n <= p < n + j implies m.edges[p] == #[trigger] b.edges[p + (-n)] by {}
    lemma_product_same_edges(m, b, n, n + i, -n);
    lemma_product_same_edges(m, b, n, n + j, -n);
    lemma_product_split(m, 0, n, n + i);
    lemma_product_split(m, 0, n, n + j);
    let base = m.from_start(n);
    let to_i = b.from_start(i);
    let to_j = b.from_start(j);
    lemma_inverse_of_product(base, to_i);
    lemma_associative(inverted(to_i), inverted(base), composed(base, to_j));
    lemma_cancel(base, to_j);
}

/// Where the arithmetic is exact, a fact that is taken in changes no answer that was
/// there.
pub proof fn lemma_insert_keeps_answers(
    view: TransformSetView,
    after: TransformSetView,
    src: Seq<char>,
    dst: Seq<char>,
    tf: RigidTransform,
    a: Seq<char>,
    b: Seq<char>,
)
    requires
        exact_arithmetic(),
        view.wf(),
        after.wf(),
        view.inserted(src, dst, tf) == Ok::<TransformSetView, InsertionErrorView>(after),
        view.get(a, b) is Some,
    ensures
        after.get(a, b) == view.get(a, b),
{
    let g = view.group_of(a).unwrap();
    let chain = view.groups[g].unwrap();
    assert(view.holds(g, a));
    assert(view.holds(g, b));
    let i = chain.names.index_of(a);
    let j = chain.names.index_of(b);
    assert(chain.names[i] == a);
    assert(chain.names[j] == b);
    lemma_position(chain, a, i);
    lemma_position(chain, b, j);
    let joins = view.group_of(src) is Some && view.group_of(dst) is Some && view.group_of(src)
        != view.group_of(dst);
    if joins {
        let first = view.group_of(src).unwrap();
        let second = view.group_of(dst).unwrap();
        assert(view.holds(first, src));
        assert(view.holds(second, dst));
        let one = view.groups[first].unwrap();
        let other = view.groups[second].unwrap();
        let bridge = TransformSetView::bridge(one, other, src, dst, tf);
        let joined = one.merged(other, bridge);
        let id = view.groups.len() as int;
        let n = one.names.len() as int;
        assert(after.groups[id] == Some(joined));
        if g == first {
            assert(joined.names[i] == a);
            assert(joined.names[j] == b);
            assert(after.holds(id, a));
            assert(after.holds(id, b));
            lemma_group_of(after, id, a);
            lemma_group_of(after, id, b);
            lemma_position(joined, a, i);
            lemma_position(joined, b, j);
            lemma_merged_keeps_first(one, other, bridge, i, j);
        } else if g == second {
            assert(joined.names[n + i] == a);
            assert(joined.names[n + j] == b);
            assert(after.holds(id, a));
            assert(after.holds(id, b));
            lemma_group_of(after, id, a);
            lemma_group_of(after, id, b);
            lemma_position(joined, a, n + i);
            lemma_position(joined, b, n + j);
            lemma_merged_keeps_second(one, other, bridge, i, j);
        } else {
            assert(after.groups[g] == view.groups[g]);
            assert(after.holds(g, a));
            assert(after.holds(g, b));
            lemma_group_of(after, g, a);
            lemma_group_of(after, g, b);
        }
    } else {
        let touched = if view.group_of(src) is Some {
            view.group_of(src).unwrap()
        } else if view.group_of(dst) is Some {
            view.group_of(dst).unwrap()
        } else {
            view.groups.len() as int
        };
        if g == touched {
            let grown = after.groups[g].unwrap();
            assert(view.inserted(src, dst, tf) == view.inserted_into(g, src, dst, tf));
            assert(chain.inserted(src, dst, tf) == Ok::<ChainView, InsertionErrorView>(grown));
            if grown != chain {
                let fresh = if chain.names.contains(src) {
                    dst
                } else {
                    src
                };
                assert(!chain.names.contains(fresh));
                assert(grown.names == chain.names.push(fresh));
                lemma_appended_keeps_answers(chain, fresh, grown.edges[chain.edges.len() as int], a, b);
                assert(grown.edges =~= chain.edges.push(grown.edges[chain.edges.len() as int]));
                assert(grown == chain.extended(fresh, grown.edges[chain.edges.len() as int]));
            }
            assert(grown.names[i] == a);
            assert(grown.names[j] == b);
        } else {
            assert(after.groups[g] == view.groups[g]);
        }
        assert(after.holds(g, a));
        assert(after.holds(g, b));
        lemma_group_of(after, g, a);
        lemma_group_of(after, g, b);
    }
}

} // verus!
