//! The mathematical model of one connected group: a chain of frames, and between each
//! frame and the next the transform that leads from the one to the other.

use crate::doubling::{lemma_pow2_positive, pow2};
use crate::coord::FactView;
use crate::error::InsertionErrorView;
use crate::transform::{close, composed, inverted, RigidTransform, TOLERANCE_PARTS};
use vstd::prelude::*;

verus! {

/// A chain of frames. `edges[p]` leads from frame `names[p]` to frame `names[p + 1]`.
pub struct ChainView {
    pub names: Seq<Seq<char>>,
    pub edges: Seq<RigidTransform>,
}

impl ChainView {
    /// No frame stands twice, and there is one edge between each frame and the next.
    pub open spec fn wf(self) -> bool {
        &&& self.names.no_duplicates()
        &&& self.names.len() == 0 ==> self.edges.len() == 0
        &&& self.names.len() > 0 ==> self.edges.len() + 1 == self.names.len()
    }

    /// The chain without frames.
    pub open spec fn empty() -> ChainView {
        ChainView { names: Seq::empty(), edges: Seq::empty() }
    }

    pub open spec fn contains(self, name: Seq<char>) -> bool {
        self.names.contains(name)
    }

    /// Where a frame stands in the chain.
    pub open spec fn position(self, name: Seq<char>) -> Option<int> {
        if self.names.contains(name) {
            Some(self.names.index_of(name))
        } else {
            None
        }
    }

    /// The transform across `pow2(k)` edges from position `p` on: the two halves composed,
    /// each of them built in the same way.
    pub open spec fn entry(self, p: int, k: nat) -> RigidTransform
        decreases k,
    {
        if k == 0 {
            self.edges[p]
        } else {
            composed(
                self.entry(p, (k - 1) as nat),
                self.entry(p + pow2((k - 1) as nat), (k - 1) as nat),
            )
        }
    }

    /// Goes on from position `at`, where `acc` has been gathered and `rest * pow2(level)`
    /// edges are still ahead: each binary digit of `rest` that is set, lowest first, adds
    /// the entry of its level on the right and moves on by the width of that entry.
    pub open spec fn walk(self, at: int, rest: nat, level: nat, acc: RigidTransform) -> RigidTransform
        decreases rest,
    {
        if rest == 0 {
            acc
        } else if rest % 2 == 1 {
            self.walk(
                at + pow2(level),
                rest / 2,
                level + 1,
                composed(acc, self.entry(at, level)),
            )
        } else {
            self.walk(at, rest / 2, level + 1, acc)
        }
    }

    /// The transform from the frame at position `from` to the frame at position `to`. Towards
    /// the end of the chain it is gathered by [`Self::walk`], starting from the identity;
    /// towards the start it is the inverse of what leads the other way.
    pub open spec fn span(self, from: int, to: int) -> RigidTransform {
        if from <= to {
            self.walk(from, (to - from) as nat, 0, RigidTransform::spec_identity())
        } else {
            inverted(self.walk(to, (from - to) as nat, 0, RigidTransform::spec_identity()))
        }
    }

    /// The transform between two frames, where the chain holds both.
    pub open spec fn get(self, src: Seq<char>, dst: Seq<char>) -> Option<RigidTransform> {
        match (self.position(src), self.position(dst)) {
            (Some(i), Some(j)) => Some(self.span(i, j)),
            _ => None,
        }
    }

    /// The chain with one frame more at its end, reached from the last by `edge`.
    pub open spec fn extended(self, name: Seq<char>, edge: RigidTransform) -> ChainView {
        ChainView { names: self.names.push(name), edges: self.edges.push(edge) }
    }

    /// The chain of one frame.
    pub open spec fn single(name: Seq<char>) -> ChainView {
        ChainView { names: seq![name], edges: Seq::empty() }
    }

    /// The edge that puts a new frame at the end of the chain, where `tf` leads from the
    /// frame at position `from` to the new frame.
    pub open spec fn edge_from(self, from: int, tf: RigidTransform) -> RigidTransform {
        composed(inverted(self.span(from, self.names.len() - 1)), tf)
    }

    /// The fact that the chain holds between position `p` and the next.
    pub open spec fn fact(self, p: int) -> FactView {
        FactView { src: self.names[p], dst: self.names[p + 1], tf: self.edges[p] }
    }

    /// One fact for each frame and the next, in the order of the chain.
    pub open spec fn facts(self) -> Seq<FactView> {
        Seq::new(self.edges.len(), |p: int| self.fact(p))
    }

    /// The edges between neighbours as the chain itself gives them back: `span(p, p + 1)`
    /// for each position `p` but the last.
    pub open spec fn steps(self) -> Seq<RigidTransform> {
        Seq::new(self.edges.len(), |p: int| self.span(p, p + 1))
    }

    /// This chain, then `bridge` from its last frame to the first frame of `other`, then
    /// `other` step by step.
    pub open spec fn merged(self, other: ChainView, bridge: RigidTransform) -> ChainView {
        ChainView {
            names: self.names + other.names,
            edges: self.edges + seq![bridge] + other.steps(),
        }
    }

    /// No frame of this chain is a frame of `other`.
    pub open spec fn disjoint(self, other: ChainView) -> bool {
        forall|name: Seq<char>| !(self.names.contains(name) && other.names.contains(name))
    }

    /// Whether the entry of level `k` at position `p` agrees, within the tolerance, with
    /// its two halves composed.
    pub open spec fn halves_agree(self, p: int, k: nat) -> bool {
        close(
            self.entry(p, k),
            composed(
                self.entry(p, (k - 1) as nat),
                self.entry(p + pow2((k - 1) as nat), (k - 1) as nat),
            ),
            TOLERANCE_PARTS,
        )
    }

    /// Every entry above level 0 agrees, within the tolerance, with its two halves composed.
    pub open spec fn consistent(self) -> bool {
        forall|p: int, k: nat|
            0 <= p && k >= 1 && p + pow2(k) <= self.edges.len() ==> #[trigger] self.halves_agree(
                p,
                k,
            )
    }

    /// What becomes of the chain when it is told that `tf` leads from `src` to `dst`.
    ///
    /// A frame may be related to itself by the identity alone, and an empty chain then takes
    /// it as its only frame. Two new frames start an empty chain, and are refused by any
    /// other. One new frame goes to the end of the chain. Of two frames that the chain
    /// holds the fact must agree with what the chain says, and changes nothing.
    pub open spec fn inserted(self, src: Seq<char>, dst: Seq<char>, tf: RigidTransform) -> Result<
        ChainView,
        InsertionErrorView,
    > {
        if src == dst {
            if !close(tf, RigidTransform::spec_identity(), TOLERANCE_PARTS) {
                Err(InsertionErrorView::InvalidSelfLoop { coord: src, actual: tf })
            } else if self.names.contains(src) {
                Ok(self)
            } else if self.names.len() == 0 {
                Ok(ChainView::single(src))
            } else {
                Err(InsertionErrorView::DisjointCoordinates { src, dst })
            }
        } else {
            match (self.position(src), self.position(dst)) {
                (None, None) => {
                    if self.names.len() == 0 {
                        Ok(ChainView::single(src).extended(dst, tf))
                    } else {
                        Err(InsertionErrorView::DisjointCoordinates { src, dst })
                    }
                },
                (None, Some(j)) => Ok(self.extended(src, self.edge_from(j, inverted(tf)))),
                (Some(i), None) => Ok(self.extended(dst, self.edge_from(i, tf))),
                (Some(i), Some(j)) => {
                    if close(tf, self.span(i, j), TOLERANCE_PARTS) {
                        Ok(self)
                    } else {
                        Err(
                            InsertionErrorView::InconsistentTransform {
                                expect: self.span(i, j),
                                actual: tf,
                            },
                        )
                    }
                },
            }
        }
    }
}

/// The position of a frame is the one index at which the chain holds its name.
pub proof fn lemma_position(chain: ChainView, name: Seq<char>, i: int)
    requires
        chain.names.no_duplicates(),
        0 <= i < chain.names.len(),
        chain.names[i] == name,
    ensures
        chain.position(name) == Some(i),
{
    assert(chain.names.contains(name));
    let j = chain.names.index_of(name);
    assert(chain.names[j] == name);
}

/// An entry reads only the edges that it spans, so it is the same in a longer chain.
pub proof fn lemma_entry_extended(chain: ChainView, name: Seq<char>, edge: RigidTransform, p: int, k: nat)
    requires
        0 <= p,
        p + pow2(k) <= chain.edges.len(),
    ensures
        chain.extended(name, edge).entry(p, k) == chain.entry(p, k),
    decreases k,
{
    if k > 0 {
        let half = pow2((k - 1) as nat);
        lemma_pow2_positive((k - 1) as nat);
        lemma_entry_extended(chain, name, edge, p, (k - 1) as nat);
        lemma_entry_extended(chain, name, edge, p + half, (k - 1) as nat);
    }
}

/// A walk reads only the edges that are ahead of it, so it is the same in a longer chain.
pub proof fn lemma_walk_extended(
    chain: ChainView,
    name: Seq<char>,
    edge: RigidTransform,
    at: int,
    rest: nat,
    level: nat,
    acc: RigidTransform,
)
    requires
        0 <= at,
        at + rest * pow2(level) <= chain.edges.len(),
    ensures
        chain.extended(name, edge).walk(at, rest, level, acc) == chain.walk(at, rest, level, acc),
    decreases rest,
{
    if rest > 0 {
        let width = pow2(level);
        lemma_pow2_positive(level);
        assert(rest == 2 * (rest / 2) + rest % 2);
        assert(rest * width == (rest / 2) * pow2(level + 1) + (rest % 2) * width)
            by (nonlinear_arith)
            requires
                rest == 2 * (rest / 2) + rest % 2,
                pow2(level + 1) == 2 * width,
        ;
        if rest % 2 == 1 {
            lemma_entry_extended(chain, name, edge, at, level);
            lemma_walk_extended(
                chain,
                name,
                edge,
                at + width,
                rest / 2,
                level + 1,
                composed(acc, chain.entry(at, level)),
            );
        } else {
            lemma_walk_extended(chain, name, edge, at, rest / 2, level + 1, acc);
        }
    }
}

/// What lies between two frames of a chain is the same in a longer chain.
pub proof fn lemma_span_extended(chain: ChainView, name: Seq<char>, edge: RigidTransform, from: int, to: int)
    requires
        0 <= from <= chain.edges.len(),
        0 <= to <= chain.edges.len(),
    ensures
        chain.extended(name, edge).span(from, to) == chain.span(from, to),
{
    assert(pow2(0) == 1);
    if from <= to {
        assert((to - from) * pow2(0) == to - from);
        lemma_walk_extended(
            chain,
            name,
            edge,
            from,
            (to - from) as nat,
            0,
            RigidTransform::spec_identity(),
        );
    } else {
        assert((from - to) * pow2(0) == from - to);
        lemma_walk_extended(
            chain,
            name,
            edge,
            to,
            (from - to) as nat,
            0,
            RigidTransform::spec_identity(),
        );
    }
}

} // verus!
