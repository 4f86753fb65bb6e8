//! One fact: the transform that leads from one named frame to another.

use crate::transform::RigidTransform;
use vstd::prelude::*;

verus! {

/// Represent coordinate transformation in 3D Euclidean space: `tf` leads from the frame
/// `src` to the frame `dst`.
#[derive(Debug, Clone)]
pub struct CoordTransform {
    pub src: String,
    pub dst: String,
    pub tf: RigidTransform,
}

/// A [`CoordTransform`] with its names as sequences of characters.
pub struct FactView {
    pub src: Seq<char>,
    pub dst: Seq<char>,
    pub tf: RigidTransform,
}

impl View for CoordTransform {
    type V = FactView;

    open spec fn view(&self) -> FactView {
        FactView { src: self.src@, dst: self.dst@, tf: self.tf }
    }
}

/// The facts of a list, each by its view.
pub open spec fn fact_views(facts: Seq<CoordTransform>) -> Seq<FactView> {
    Seq::new(facts.len(), |k: int| facts[k]@)
}

} // verus!
