//! What holds where the arithmetic of transforms is exact.
//!
//! Floating-point arithmetic is exact only up to rounding, so nothing here is claimed of
//! the numbers that come out. What is shown is that the doubling table and the walk over
//! it compute the product of the edges between two frames, in whatever way the table
//! groups them.

use crate::chain::ChainView;
use crate::doubling::{lemma_pow2_positive, pow2};
use crate::transform::{composed, inverted, RigidTransform};
use crate::tset::TransformSetView;
use vstd::prelude::*;

verus! {

/// Whether the arithmetic of transforms is exact: composition is associative, the identity
/// changes nothing, and a transform and its inverse undo each other.
#[verifier::opaque]
pub open spec fn exact_arithmetic() -> bool {
    &&& forall|a: RigidTransform, b: RigidTransform, c: RigidTransform|
        #[trigger] composed(composed(a, b), c) == composed(a, composed(b, c))
    &&& forall|a: RigidTransform| #[trigger]
        composed(RigidTransform::spec_identity(), a) == a
    &&& forall|a: RigidTransform| #[trigger]
        composed(a, RigidTransform::spec_identity()) == a
    &&& forall|a: RigidTransform|
        composed(#[trigger] inverted(a), a) == RigidTransform::spec_identity()
    &&& forall|a: RigidTransform|
        composed(a, #[trigger] inverted(a)) == RigidTransform::spec_identity()
}

/// Where the arithmetic is exact, three transforms may be composed in either grouping.
pub proof fn lemma_associative(a: RigidTransform, b: RigidTransform, c: RigidTransform)
    requires
        exact_arithmetic(),
    ensures
        composed(composed(a, b), c) == composed(a, composed(b, c)),
{
    reveal(exact_arithmetic);
}

/// Where the arithmetic is exact, the identity before or after a transform changes
/// nothing.
pub proof fn lemma_unit(a: RigidTransform)
    requires
        exact_arithmetic(),
    ensures
        composed(RigidTransform::spec_identity(), a) == a,
        composed(a, RigidTransform::spec_identity()) == a,
{
    reveal(exact_arithmetic);
}

/// Where the arithmetic is exact, a transform and its inverse undo each other.
pub proof fn lemma_undo(a: RigidTransform)
    requires
        exact_arithmetic(),
    ensures
        composed(inverted(a), a) == RigidTransform::spec_identity(),
        composed(a, inverted(a)) == RigidTransform::spec_identity(),
{
    reveal(exact_arithmetic);
}

/// Where the arithmetic is exact, a transform after its inverse, or its inverse after it,
/// in front of another transform leaves that other transform.
pub proof fn lemma_cancel(a: RigidTransform, b: RigidTransform)
    requires
        exact_arithmetic(),
    ensures
        composed(inverted(a), composed(a, b)) == b,
        composed(a, composed(inverted(a), b)) == b,
{
    lemma_associative(inverted(a), a, b);
    lemma_associative(a, inverted(a), b);
    lemma_undo(a);
    lemma_unit(b);
}

/// Where the arithmetic is exact, what undoes a transform is its inverse.
pub proof fn lemma_inverse_unique(a: RigidTransform, b: RigidTransform)
    requires
        exact_arithmetic(),
        composed(a, b) == RigidTransform::spec_identity(),
    ensures
        b == inverted(a),
{
    lemma_cancel(a, b);
    lemma_unit(inverted(a));
}

/// Where the arithmetic is exact, the identity is its own inverse.
pub proof fn lemma_identity_inverse()
    requires
        exact_arithmetic(),
    ensures
        inverted(RigidTransform::spec_identity()) == RigidTransform::spec_identity(),
{
    let e = RigidTransform::spec_identity();
    lemma_unit(e);
    lemma_inverse_unique(e, e);
}

/// Where the arithmetic is exact, the inverse of a product is the product of the inverses
/// the other way round, and the inverse of an inverse is the transform itself.
pub proof fn lemma_inverse_of_product(a: RigidTransform, b: RigidTransform)
    requires
        exact_arithmetic(),
    ensures
        inverted(composed(a, b)) == composed(inverted(b), inverted(a)),
        inverted(inverted(a)) == a,
{
    let back = composed(inverted(b), inverted(a));
    lemma_associative(a, b, back);
    lemma_cancel(b, inverted(a));
    lemma_undo(a);
    lemma_inverse_unique(composed(a, b), back);
    lemma_inverse_unique(inverted(a), a);
}

impl ChainView {
    /// The edges from position `i` up to position `j`, composed one after the other.
    pub open spec fn product(self, i: int, j: int) -> RigidTransform
        decreases j - i,
    {
        if j <= i {
            RigidTransform::spec_identity()
        } else {
            composed(self.product(i, j - 1), self.edges[j - 1])
        }
    }

    /// The product of the edges from the first frame to position `i`.
    pub open spec fn from_start(self, i: int) -> RigidTransform {
        self.product(0, i)
    }
}

/// Where the arithmetic is exact, a product of edges may be cut anywhere.
pub proof fn lemma_product_split(chain: ChainView, i: int, j: int, k: int)
    requires
        exact_arithmetic(),
        i <= j <= k,
    ensures
        chain.product(i, k) == composed(chain.product(i, j), chain.product(j, k)),
    decreases k - j,
{
    if j == k {
        lemma_unit(chain.product(i, j));
    } else {
        lemma_product_split(chain, i, j, k - 1);
        lemma_associative(chain.product(i, j), chain.product(j, k - 1), chain.edges[k - 1]);
    }
}

/// Where the arithmetic is exact, an entry of the table is the product of the edges that
/// it spans.
pub proof fn lemma_entry_product(chain: ChainView, p: int, k: nat)
    requires
        exact_arithmetic(),
    ensures
        chain.entry(p, k) == chain.product(p, p + pow2(k)),
    decreases k,
{
    if k == 0 {
        assert(pow2(0) == 1);
        assert(chain.product(p, p + 1) == composed(chain.product(p, p), chain.edges[p]));
        lemma_unit(chain.edges[p]);
    } else {
        let half = pow2((k - 1) as nat);
        lemma_pow2_positive((k - 1) as nat);
        lemma_entry_product(chain, p, (k - 1) as nat);
        lemma_entry_product(chain, p + half, (k - 1) as nat);
        lemma_product_split(chain, p, p + half, p + pow2(k));
    }
}

/// Where the arithmetic is exact, a walk adds to what it has gathered the product of the
/// edges that are ahead of it.
pub proof fn lemma_walk_product(chain: ChainView, at: int, rest: nat, level: nat, acc: RigidTransform)
    requires
        exact_arithmetic(),
    ensures
        chain.walk(at, rest, level, acc) == composed(
            acc,
            chain.product(at, at + rest * pow2(level)),
        ),
    decreases rest,
{
    let width = pow2(level);
    lemma_pow2_positive(level);
    if rest == 0 {
        assert(rest * width == 0) by (nonlinear_arith)
            requires
                rest == 0,
        ;
        lemma_unit(acc);
    } else {
        assert(pow2(level + 1) == 2 * width);
        assert(rest * width == (rest / 2) * (2 * width) + (if rest % 2 == 1 {
            width as int
        } else {
            0
        })) by (nonlinear_arith)
            requires
                rest == 2 * (rest / 2) + rest % 2,
                0 <= rest % 2 < 2,
        ;
        assert((rest / 2) * (2 * width) >= 0) by (nonlinear_arith)
            requires
                rest / 2 >= 0,
                width >= 0,
        ;
        let end = at + rest * width;
        if rest % 2 == 1 {
            let next = composed(acc, chain.entry(at, level));
            lemma_walk_product(chain, at + width, rest / 2, level + 1, next);
            lemma_entry_product(chain, at, level);
            lemma_product_split(chain, at, at + width, end);
            lemma_associative(acc, chain.product(at, at + width), chain.product(at + width, end));
        } else {
            lemma_walk_product(chain, at, rest / 2, level + 1, acc);
        }
    }
}

/// Where the arithmetic is exact, what lies between two frames of a chain is what leads
/// from the first frame to the one, undone, and then what leads from the first frame to
/// the other.
pub proof fn lemma_span_product(chain: ChainView, i: int, j: int)
    requires
        exact_arithmetic(),
        0 <= i,
        0 <= j,
    ensures
        chain.span(i, j) == composed(inverted(chain.from_start(i)), chain.from_start(j)),
{
    let e = RigidTransform::spec_identity();
    assert(pow2(0) == 1);
    if i <= j {
        lemma_walk_product(chain, i, (j - i) as nat, 0, e);
        lemma_unit(chain.product(i, j));
        lemma_product_split(chain, 0, i, j);
        lemma_cancel(chain.from_start(i), chain.product(i, j));
    } else {
        lemma_walk_product(chain, j, (i - j) as nat, 0, e);
        lemma_unit(chain.product(j, i));
        lemma_product_split(chain, 0, j, i);
        let head = chain.from_start(j);
        lemma_cancel(head, chain.product(j, i));
        assert(chain.product(j, i) == composed(inverted(head), chain.from_start(i)));
        lemma_inverse_of_product(inverted(head), chain.from_start(i));
        lemma_inverse_of_product(head, head);
    }
}

/// Where the arithmetic is exact, the transform from one frame of a chain to another is
/// the inverse of the transform back, whichever of the two stands first.
pub proof fn lemma_chain_symmetry_exact(chain: ChainView, a: Seq<char>, b: Seq<char>)
    requires
        exact_arithmetic(),
        chain.names.contains(a),
        chain.names.contains(b),
    ensures
        chain.get(a, b) == Some(inverted(chain.get(b, a).unwrap())),
{
    let i = chain.names.index_of(a);
    let j = chain.names.index_of(b);
    lemma_span_transitivity(chain, i, j, i);
}

/// Where the arithmetic is exact, going from one frame of a chain to a second and on to a
/// third is going from the first to the third.
pub proof fn lemma_chain_transitivity_exact(chain: ChainView, a: Seq<char>, b: Seq<char>, c: Seq<char>)
    requires
        exact_arithmetic(),
        chain.names.contains(a),
        chain.names.contains(b),
        chain.names.contains(c),
    ensures
        composed(chain.get(a, b).unwrap(), chain.get(b, c).unwrap()) == chain.get(a, c).unwrap(),
{
    let i = chain.names.index_of(a);
    let j = chain.names.index_of(b);
    let k = chain.names.index_of(c);
    lemma_span_transitivity(chain, i, j, k);
}

/// Where the arithmetic is exact, going from one position of a chain to a second and on
/// to a third is going from the first to the third, and going back is the inverse of
/// going forth.
pub proof fn lemma_span_transitivity(chain: ChainView, i: int, j: int, k: int)
    requires
        exact_arithmetic(),
        0 <= i,
        0 <= j,
        0 <= k,
    ensures
        composed(chain.span(i, j), chain.span(j, k)) == chain.span(i, k),
        chain.span(i, j) == inverted(chain.span(j, i)),
{
    lemma_span_product(chain, i, j);
    lemma_span_product(chain, j, k);
    lemma_span_product(chain, i, k);
    lemma_span_product(chain, j, i);
    let to_i = inverted(chain.from_start(i));
    let from_j = chain.from_start(j);
    let from_k = chain.from_start(k);
    lemma_associative(to_i, from_j, composed(inverted(from_j), from_k));
    lemma_cancel(from_j, from_k);
    lemma_inverse_of_product(inverted(from_j), chain.from_start(i));
    lemma_inverse_of_product(from_j, from_j);
}

/// Where the arithmetic is exact, the transform from one frame to another is the inverse
/// of the transform back.
pub proof fn lemma_symmetry_exact(view: TransformSetView, a: Seq<char>, b: Seq<char>)
    requires
        exact_arithmetic(),
        view.wf(),
        view.get(a, b) is Some,
    ensures
        view.get(a, b) == Some(inverted(view.get(b, a).unwrap())),
{
    let g = view.group_of(a).unwrap();
    lemma_chain_symmetry_exact(view.groups[g].unwrap(), a, b);
}

/// Where the arithmetic is exact, going from one frame to a second and on to a third is
/// going from the first to the third.
pub proof fn lemma_transitivity_exact(view: TransformSetView, a: Seq<char>, b: Seq<char>, c: Seq<char>)
    requires
        exact_arithmetic(),
        view.wf(),
        view.get(a, b) is Some,
        view.get(b, c) is Some,
    ensures
        view.get(a, c) is Some,
        composed(view.get(a, b).unwrap(), view.get(b, c).unwrap()) == view.get(a, c).unwrap(),
{
    let g = view.group_of(a).unwrap();
    lemma_chain_transitivity_exact(view.groups[g].unwrap(), a, b, c);
}

} // verus!
