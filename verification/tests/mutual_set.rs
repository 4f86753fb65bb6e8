use approx::AbsDiffEq;
use nalgebra as na;
use noisy_float::types::r64;
use tf_format::{InsertionError, MutualSet, RigidTransform};

fn to_iso(tf: &RigidTransform) -> na::Isometry3<f64> {
    let [i, j, k, w] = tf.rotation.map(|c| c.raw());
    let [x, y, z] = tf.translation.map(|c| c.raw());
    na::Isometry3::from_parts(
        na::Translation3::new(x, y, z),
        na::Unit::new_unchecked(na::Quaternion::new(w, i, j, k)),
    )
}

fn from_iso(iso: &na::Isometry3<f64>) -> RigidTransform {
    let q = iso.rotation.into_inner();
    let t = iso.translation.vector;
    RigidTransform {
        rotation: [r64(q.i), r64(q.j), r64(q.k), r64(q.w)],
        translation: [r64(t.x), r64(t.y), r64(t.z)],
    }
}

fn pose(rr: f64, rp: f64, ry: f64, tx: f64, ty: f64, tz: f64) -> na::Isometry3<f64> {
    na::Isometry3::from_parts(
        na::Translation3::new(tx, ty, tz),
        na::UnitQuaternion::from_euler_angles(rr.to_radians(), rp.to_radians(), ry.to_radians()),
    )
}

fn close(a: &na::Isometry3<f64>, b: &na::Isometry3<f64>) -> bool {
    a.abs_diff_eq(b, 1e-6)
}

#[test]
fn chain_of_many_frames_answers_every_pair() {
    let n = 37;
    let steps: Vec<na::Isometry3<f64>> = (0..n)
        .map(|p| pose(p as f64, 2.0 * p as f64, -3.0 * p as f64, p as f64, 1.0, -0.5 * p as f64))
        .collect();
    let mut set = MutualSet::new();
    for p in 0..n {
        let src = format!("f{}", p);
        let dst = format!("f{}", p + 1);
        set.insert(&src, &dst, from_iso(&steps[p])).unwrap();
        assert!(set.assert_consistency());
    }
    assert_eq!(set.len(), n + 1);
    for a in 0..=n {
        for b in 0..=n {
            let got = to_iso(&set.get(&format!("f{}", a), &format!("f{}", b)).unwrap());
            let (lo, hi) = if a <= b { (a, b) } else { (b, a) };
            let mut expect = na::Isometry3::identity();
            for p in lo..hi {
                expect *= steps[p];
            }
            if a > b {
                expect = expect.inverse();
            }
            assert!(close(&got, &expect), "{} -> {}", a, b);
        }
    }
}

#[test]
fn new_frame_may_hang_off_any_known_frame() {
    let a_b = pose(0.0, 10.0, 20.0, 100.0, -70.0, 255.0);
    let a_c = pose(5.0, 0.0, 30.0, 10.0, 0.0, 3.0);
    let d_a = pose(0.0, 0.0, -30.0, -10.0, 0.0, 3.0);
    let mut set = MutualSet::new();
    set.insert("a", "b", from_iso(&a_b)).unwrap();
    set.insert("a", "c", from_iso(&a_c)).unwrap();
    set.insert("d", "a", from_iso(&d_a)).unwrap();
    assert_eq!(set.coord_iter(), vec!["a", "b", "c", "d"]);
    assert!(close(&to_iso(&set.get("b", "c").unwrap()), &(a_b.inverse() * a_c)));
    assert!(close(&to_iso(&set.get("d", "c").unwrap()), &(d_a * a_c)));
    assert!(close(&to_iso(&set.get("c", "d").unwrap()), &(d_a * a_c).inverse()));
    assert!(set.get("a", "x").is_none());
    assert!(set.get("x", "a").is_none());
}

#[test]
fn ledger_rejects_what_it_cannot_place() {
    let a_b = pose(0.0, 10.0, 20.0, 1.0, 2.0, 3.0);
    let mut set = MutualSet::new();
    set.insert("a", "b", from_iso(&a_b)).unwrap();
    let before = set.get("a", "b").unwrap();

    let err = set.insert("x", "y", from_iso(&a_b)).unwrap_err();
    assert!(matches!(err, InsertionError::DisjointCoordinates { ref src, ref dst } if src == "x" && dst == "y"));

    let wrong = pose(0.0, 10.0, 21.0, 1.0, 2.0, 3.0);
    let err = set.insert("a", "b", from_iso(&wrong)).unwrap_err();
    match err {
        InsertionError::InconsistentTransform { expect, actual } => {
            assert_eq!(expect, before);
            assert_eq!(actual, from_iso(&wrong));
        }
        other => panic!("{:?}", other),
    }

    let err = set.insert("a", "a", from_iso(&wrong)).unwrap_err();
    assert!(matches!(err, InsertionError::InvalidSelfLoop { ref coord, .. } if coord == "a"));
    let err = set.insert("z", "z", from_iso(&wrong)).unwrap_err();
    assert!(matches!(err, InsertionError::InvalidSelfLoop { ref coord, .. } if coord == "z"));

    set.insert("a", "a", RigidTransform::identity()).unwrap();
    set.insert("b", "a", from_iso(&a_b.inverse())).unwrap();
    assert_eq!(set.get("a", "b").unwrap(), before);
    assert_eq!(set.coord_iter(), vec!["a", "b"]);
}

#[test]
fn identity_is_nalgebras_identity() {
    assert_eq!(RigidTransform::identity(), from_iso(&na::Isometry3::identity()));
    let t = from_iso(&pose(1.0, 2.0, 3.0, 4.0, 5.0, 6.0));
    assert_eq!(t.compose(&t.inverse()).approx_eq(&RigidTransform::identity(), 1_000_000), true);
    assert_eq!(t.approx_eq(&RigidTransform::identity(), 1_000_000), false);
    assert_ne!(t.compose(&t), t);
    assert_ne!(t.inverse(), t);
}

#[test]
fn merge_appends_the_other_chain() {
    let a_b = pose(0.0, 10.0, 20.0, 1.0, 2.0, 3.0);
    let c_d = pose(3.0, 0.0, 30.0, 10.0, 0.0, 3.0);
    let d_e = pose(0.0, 7.0, -30.0, -10.0, 0.0, 3.0);
    let b_c = pose(1.0, 2.0, 3.0, 4.0, 5.0, 6.0);
    let mut left = MutualSet::new();
    left.insert("a", "b", from_iso(&a_b)).unwrap();
    let mut right = MutualSet::new();
    right.insert("c", "d", from_iso(&c_d)).unwrap();
    right.insert("d", "e", from_iso(&d_e)).unwrap();
    let joined = left.merge(right, from_iso(&b_c)).ok().unwrap();
    assert_eq!(joined.coord_iter(), vec!["a", "b", "c", "d", "e"]);
    assert!(joined.assert_consistency());
    assert!(close(&to_iso(&joined.get("a", "e").unwrap()), &(a_b * b_c * c_d * d_e)));
    assert!(close(&to_iso(&joined.get("e", "b").unwrap()), &(b_c * c_d * d_e).inverse()));

    let mut other = MutualSet::new();
    other.insert("e", "f", from_iso(&a_b)).unwrap();
    let (joined, other) = joined.merge(other, from_iso(&b_c)).err().unwrap();
    assert_eq!(joined.len(), 5);
    assert_eq!(other.len(), 2);
    let (joined, empty) = joined.merge(MutualSet::new(), from_iso(&b_c)).err().unwrap();
    assert_eq!(joined.len(), 5);
    assert_eq!(empty.len(), 0);
}

#[test]
fn ledger_exports_one_fact_for_each_neighbouring_pair() {
    let a_b = pose(0.0, 10.0, 20.0, 1.0, 2.0, 3.0);
    let a_c = pose(3.0, 0.0, 30.0, 10.0, 0.0, 3.0);
    let mut set = MutualSet::default();
    assert!(set.to_facts().is_empty());
    assert!(set.assert_consistency());
    set.insert("a", "b", from_iso(&a_b)).unwrap();
    set.insert("a", "c", from_iso(&a_c)).unwrap();
    let facts = set.to_facts();
    assert_eq!(facts.len(), 2);
    assert_eq!((facts[0].src.as_str(), facts[0].dst.as_str()), ("a", "b"));
    assert_eq!((facts[1].src.as_str(), facts[1].dst.as_str()), ("b", "c"));
    assert_eq!(facts[0].tf, from_iso(&a_b));
    assert!(close(&to_iso(&facts[1].tf), &(a_b.inverse() * a_c)));
    assert_eq!(set.position("c"), Some(2));
    assert_eq!(set.position("d"), None);
    assert_eq!(set.get_by_range(1, 1), RigidTransform::identity());
    assert_eq!(set.get_by_range(2, 0), set.get_by_range(0, 2).inverse());
    assert_eq!(Some(set.get_by_range(0, 2)), set.get("a", "c"));

    let copy = set.clone();
    set.insert("c", "d", from_iso(&a_b)).unwrap();
    assert_eq!(copy.len(), 3);
    assert_eq!(set.len(), 4);
    assert_eq!(copy.get("a", "c"), set.get("a", "c"));

    let single = MutualSet::create("only");
    assert_eq!(single.coord_iter(), vec!["only"]);
    assert_eq!(single.get("only", "only"), Some(RigidTransform::identity()));
}

#[test]
fn tolerance_is_one_part_in_a_million() {
    let exact = pose(0.0, 0.0, 0.0, 1.0, 2.0, 3.0);
    let near = pose(0.0, 0.0, 0.0, 1.0 + 0.9e-6, 2.0, 3.0);
    let far = pose(0.0, 0.0, 0.0, 1.0 + 1.1e-6, 2.0, 3.0);
    assert_eq!(tf_format::TOLERANCE_PARTS, 1_000_000);
    assert!(from_iso(&exact).approx_eq(&from_iso(&near), tf_format::TOLERANCE_PARTS));
    assert!(!from_iso(&exact).approx_eq(&from_iso(&far), tf_format::TOLERANCE_PARTS));
    let mut set = MutualSet::new();
    set.insert("a", "b", from_iso(&exact)).unwrap();
    assert!(set.insert("a", "b", from_iso(&near)).is_ok());
    assert!(set.insert("a", "b", from_iso(&far)).is_err());
}
