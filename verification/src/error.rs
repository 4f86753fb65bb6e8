use crate::transform::RigidTransform;
use vstd::prelude::*;

verus! {

/// Why a fact was not taken in.
#[derive(Debug)]
pub enum InsertionError {
    /// The fact disagrees with what the known facts already say of the same two frames.
    InconsistentTransform { expect: RigidTransform, actual: RigidTransform },
    /// Neither frame belongs to the group that was asked to take the fact.
    DisjointCoordinates { src: String, dst: String },
    /// The fact relates a frame to itself by a transform that is not the identity.
    InvalidSelfLoop { coord: String, actual: RigidTransform },
}

/// An [`InsertionError`] with its names as sequences of characters.
pub enum InsertionErrorView {
    InconsistentTransform { expect: RigidTransform, actual: RigidTransform },
    DisjointCoordinates { src: Seq<char>, dst: Seq<char> },
    InvalidSelfLoop { coord: Seq<char>, actual: RigidTransform },
}

impl View for InsertionError {
    type V = InsertionErrorView;

    open spec fn view(&self) -> InsertionErrorView {
        match self {
            InsertionError::InconsistentTransform { expect, actual } => {
                InsertionErrorView::InconsistentTransform { expect: *expect, actual: *actual }
            },
            InsertionError::DisjointCoordinates { src, dst } => {
                InsertionErrorView::DisjointCoordinates { src: src@, dst: dst@ }
            },
            InsertionError::InvalidSelfLoop { coord, actual } => {
                InsertionErrorView::InvalidSelfLoop { coord: coord@, actual: *actual }
            },
        }
    }
}

impl InsertionError {
    /// The error for a fact `actual` where the known facts give `expect`.
    pub fn inconsistent_transform_error(expect: RigidTransform, actual: RigidTransform) -> (e:
        InsertionError)
        ensures
            e@ == (InsertionErrorView::InconsistentTransform { expect, actual }),
    {
        InsertionError::InconsistentTransform { expect, actual }
    }
}

} // verus!
