//! Named reference frames and the rigid transforms between them.
//!
//! A [`TransformSet`] takes in facts of the form "this transform leads from frame `a` to
//! frame `b`", in any order, and answers what leads from any frame to any other that the
//! facts relate, directly or through other frames. The frames that are related form a
//! group. Each group is kept as a [`MutualSet`]: a chain of its frames with a doubling
//! table over it, so that a new frame is appended and a transform is looked up in a
//! number of compositions that grows with the logarithm of the length of the chain.
//!
//! Transforms are composed, inverted and compared by `nalgebra`. The verifier knows these
//! three operations by name only, so what is proved of a set is how it combines them, not
//! what comes out in numbers: see [`transform`] for the names, [`laws`] for what holds of
//! the answers as they are computed, and [`exact`] for what holds where the arithmetic is
//! exact.

pub mod bulk;
pub mod chain;
pub mod coord;
pub mod doubling;
pub mod error;
pub mod exact;
pub mod growth;
pub mod laws;
pub mod mutual_set;
pub mod names;
pub mod options;
pub mod order;
pub mod rotation;
pub mod seqs;
pub mod topo_sort;
pub mod transform;
pub mod tset;
pub mod unit;

pub use crate::coord::CoordTransform;
pub use crate::error::InsertionError;
pub use crate::mutual_set::MutualSet;
pub use crate::options::{AngleFormat, FileFormat, KeepTranslation, RotationFormat};
pub use crate::rotation::{EulerAxis, EulerAxisOrder, UnexpectedAxisCode};
pub use crate::topo_sort::{Component, TopologicalSort};
pub use crate::transform::{RigidTransform, TOLERANCE_PARTS};
pub use crate::tset::TransformSet;
pub use crate::unit::{split_angle, AngleUnit};
