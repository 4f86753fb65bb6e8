//! What holds of the answers of a set of transforms as they are computed.
//!
//! What holds only where the arithmetic of transforms is exact is in [`crate::exact`],
//! [`crate::growth`] and [`crate::order`].

use crate::chain::ChainView;
use crate::transform::{inverted, RigidTransform};
use crate::tset::{lemma_group_of, TransformSetView};
use vstd::prelude::*;

verus! {

/// Whether a chain holds `a` and `b`, and `a` stands before `b`.
pub open spec fn stands_before(chain: ChainView, a: Seq<char>, b: Seq<char>) -> bool {
    &&& chain.names.contains(a)
    &&& chain.names.contains(b)
    &&& chain.names.index_of(a) < chain.names.index_of(b)
}

/// From a frame to itself leads the identity.
pub proof fn lemma_chain_identity(chain: ChainView, f: Seq<char>)
    requires
        chain.names.contains(f),
    ensures
        chain.get(f, f) == Some(RigidTransform::spec_identity()),
{
}

/// From a known frame to itself leads the identity.
pub proof fn lemma_identity(view: TransformSetView, f: Seq<char>)
    requires
        view.wf(),
        view.contains(f),
    ensures
        view.get(f, f) == Some(RigidTransform::spec_identity()),
{
    let g = choose|g: int| view.holds(g, f);
    lemma_group_of(view, g, f);
    lemma_chain_identity(view.groups[g].unwrap(), f);
}

/// Between two frames there is a transform exactly when both are known and in one group.
pub proof fn lemma_absent(view: TransformSetView, a: Seq<char>, b: Seq<char>)
    requires
        view.wf(),
    ensures
        view.get(a, b) is Some <==> view.contains(a) && view.contains(b) && view.group_of(a)
            == view.group_of(b),
        view.get(a, b) is Some <==> view.get(b, a) is Some,
{
    if view.contains(a) && view.contains(b) && view.group_of(a) == view.group_of(b) {
        let g = choose|g: int| view.holds(g, a);
        lemma_group_of(view, g, a);
        let h = choose|h: int| view.holds(h, b);
        lemma_group_of(view, h, b);
    }
}

/// Of the two transforms between two frames of a chain, the one that leads back towards
/// the start of the chain is the inverse of the other.
pub proof fn lemma_chain_symmetry(chain: ChainView, a: Seq<char>, b: Seq<char>)
    requires
        stands_before(chain, b, a),
    ensures
        chain.get(a, b) == Some(inverted(chain.get(b, a).unwrap())),
{
}

/// Of the two transforms between two frames of a group, the one that leads back towards
/// the start of the chain of that group is the inverse of the other.
pub proof fn lemma_symmetry(view: TransformSetView, g: int, a: Seq<char>, b: Seq<char>)
    requires
        view.wf(),
        view.holds(g, a),
        view.holds(g, b),
        stands_before(view.groups[g].unwrap(), b, a),
    ensures
        view.get(a, b) == Some(inverted(view.get(b, a).unwrap())),
{
    lemma_group_of(view, g, a);
    lemma_group_of(view, g, b);
    lemma_chain_symmetry(view.groups[g].unwrap(), a, b);
}

} // verus!
