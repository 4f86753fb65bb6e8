use vstd::prelude::*;
use noisy_float::types::R64;

verus! {

/// A rigid transform of three-dimensional space: a rotation, held as the quaternion
/// `[i, j, k, w]`, followed by a translation `[x, y, z]`.
///
/// The components are opaque to the verifier. Everything the library knows of a
/// transform it knows through [`composed`], [`inverted`], [`close`] and [`whole`].
///
/// The components are carried as the arithmetic gave them. A product that leaves the range
/// of finite numbers is kept as it came out, and no operation of this library panics on
/// it.
#[verifier::external_body]
#[derive(Copy, Debug, PartialEq)]
pub struct RigidTransform {
    pub rotation: [R64; 4],
    pub translation: [R64; 3],
}

/// The product `a * b`, as `nalgebra` multiplies two isometries: where `a` leads from one
/// frame to a second and `b` from the second to a third, it leads from the first to the
/// third.
pub uninterp spec fn composed(a: RigidTransform, b: RigidTransform) -> RigidTransform;

/// The transform that leads back where `a` leads forth, as `nalgebra` inverts an isometry.
pub uninterp spec fn inverted(a: RigidTransform) -> RigidTransform;

/// Calls `nalgebra`'s `Isometry3 * Isometry3` on the two transforms. The product depends on
/// the fourteen components alone, and the contract gives it the name [`composed`].
#[verifier::external_body]
fn compose_raw(a: &RigidTransform, b: &RigidTransform) -> (r: RigidTransform)
    ensures
        r == composed(*a, *b),
{
    let a = nalgebra::Isometry3::from_parts(
        nalgebra::Translation3::from(a.translation.map(R64::raw)),
        nalgebra::Unit::new_unchecked(nalgebra::Quaternion::from(a.rotation.map(R64::raw))),
    );
    let b = nalgebra::Isometry3::from_parts(
        nalgebra::Translation3::from(b.translation.map(R64::raw)),
        nalgebra::Unit::new_unchecked(nalgebra::Quaternion::from(b.rotation.map(R64::raw))),
    );
    let p = a * b;
    RigidTransform {
        rotation: <[_; 4]>::from(p.rotation.into_inner().coords).map(R64::unchecked_new),
        translation: <[_; 3]>::from(p.translation).map(R64::unchecked_new),
    }
}

/// Calls `nalgebra`'s `Isometry3::inverse`. The contract gives the result the name [`inverted`].
#[verifier::external_body]
fn invert_raw(a: &RigidTransform) -> (r: RigidTransform)
    ensures
        r == inverted(*a),
{
    let p = nalgebra::Isometry3::from_parts(
        nalgebra::Translation3::from(a.translation.map(R64::raw)),
        nalgebra::Unit::new_unchecked(nalgebra::Quaternion::from(a.rotation.map(R64::raw))),
    ).inverse();
    RigidTransform {
        rotation: <[_; 4]>::from(p.rotation.into_inner().coords).map(R64::unchecked_new),
        translation: <[_; 3]>::from(p.translation).map(R64::unchecked_new),
    }
}

/// The tolerance of every comparison between transforms: one part in this many.
pub const TOLERANCE_PARTS: u32 = 1_000_000;

/// The transform whose seven components are the given whole numbers.
pub uninterp spec fn whole(rotation: Seq<i32>, translation: Seq<i32>) -> RigidTransform;

/// Whether `a` and `b` agree, component by component, to within one part in `parts`, as
/// `approx`'s `abs_diff_eq` compares two `nalgebra` isometries. A rotation also agrees with
/// the negated quaternion, which stands for the same rotation.
pub uninterp spec fn close(a: RigidTransform, b: RigidTransform, parts: u32) -> bool;

/// Converts each whole number with `R64::new`, which takes every finite value. The contract
/// gives the transform the name [`whole`].
#[verifier::external_body]
fn whole_raw(rotation: [i32; 4], translation: [i32; 3]) -> (r: RigidTransform)
    ensures
        r == whole(rotation@, translation@),
{
    RigidTransform {
        rotation: rotation.map(|c| R64::new(c.into())),
        translation: translation.map(|c| R64::new(c.into())),
    }
}

/// Calls `approx::AbsDiffEq::abs_diff_eq` on the two isometries with the tolerance
/// `1 / parts`. The contract gives the answer the name [`close`].
#[verifier::external_body]
fn close_raw(a: &RigidTransform, b: &RigidTransform, parts: u32) -> (r: bool)
    ensures
        r == close(*a, *b, parts),
{
    let a = nalgebra::Isometry3::from_parts(
        nalgebra::Translation3::from(a.translation.map(R64::raw)),
        nalgebra::Unit::new_unchecked(nalgebra::Quaternion::from(a.rotation.map(R64::raw))),
    );
    let b = nalgebra::Isometry3::from_parts(
        nalgebra::Translation3::from(b.translation.map(R64::raw)),
        nalgebra::Unit::new_unchecked(nalgebra::Quaternion::from(b.rotation.map(R64::raw))),
    );
    approx::AbsDiffEq::abs_diff_eq(&a, &b, num::Float::recip(parts.into()))
}

impl Clone for RigidTransform {
    fn clone(&self) -> (r: Self)
        ensures
            r == *self,
    {
        *self
    }
}

impl RigidTransform {
    /// This transform and then `then`: from the frame that this one starts at to the frame
    /// that `then` leads to.
    pub fn compose(&self, then: &RigidTransform) -> (r: RigidTransform)
        ensures
            r == composed(*self, *then),
    {
        compose_raw(self, then)
    }

    /// The transform that changes nothing: no rotation, no translation.
    pub open spec fn spec_identity() -> RigidTransform {
        whole(seq![0i32, 0i32, 0i32, 1i32], seq![0i32, 0i32, 0i32])
    }

    /// The transform that changes nothing.
    pub fn identity() -> (r: RigidTransform)
        ensures
            r == Self::spec_identity(),
    {
        let r = whole_raw([0, 0, 0, 1], [0, 0, 0]);
        assert([0i32, 0i32, 0i32, 1i32]@ =~= seq![0i32, 0i32, 0i32, 1i32]);
        assert([0i32, 0i32, 0i32]@ =~= seq![0i32, 0i32, 0i32]);
        r
    }

    /// Whether this transform and `other` agree to within one part in `parts`.
    pub fn approx_eq(&self, other: &RigidTransform, parts: u32) -> (r: bool)
        ensures
            r == close(*self, *other, parts),
    {
        close_raw(self, other, parts)
    }

    /// The transform that leads back where this one leads forth.
    pub fn inverse(&self) -> (r: RigidTransform)
        ensures
            r == inverted(*self),
    {
        invert_raw(self)
    }
}

} // verus!
