use approx::AbsDiffEq;
use nalgebra as na;
use noisy_float::types::r64;
use tf_format::{CoordTransform, InsertionError, RigidTransform, TransformSet};

fn to_iso(tf: &RigidTransform) -> na::Isometry3<f64> {
    let [i, j, k, w] = tf.rotation.map(|c| c.raw());
    let [x, y, z] = tf.translation.map(|c| c.raw());
    na::Isometry3::from_parts(
        na::Translation3::new(x, y, z),
        na::Unit::new_unchecked(na::Quaternion::new(w, i, j, k)),
    )
}

fn from_iso(iso: &na::Isometry3<f64>) -> RigidTransform {
    let q = iso.rotation.into_inner();
    let t = iso.translation.vector;
    RigidTransform {
        rotation: [r64(q.i), r64(q.j), r64(q.k), r64(q.w)],
        translation: [r64(t.x), r64(t.y), r64(t.z)],
    }
}

fn make_iso3(rr: f64, rp: f64, ry: f64, tx: f64, ty: f64, tz: f64) -> na::Isometry3<f64> {
    na::Isometry3::from_parts(
        na::Translation3::new(tx, ty, tz),
        na::UnitQuaternion::from_euler_angles(rr.to_radians(), rp.to_radians(), ry.to_radians()),
    )
}

fn fact(src: &str, dst: &str, tf: &na::Isometry3<f64>) -> CoordTransform {
    CoordTransform {
        src: src.to_string(),
        dst: dst.to_string(),
        tf: from_iso(tf),
    }
}

fn get(set: &TransformSet, src: &str, dst: &str) -> Option<na::Isometry3<f64>> {
    set.get(src, dst).map(|tf| to_iso(&tf))
}

fn assert_close(a: &na::Isometry3<f64>, b: &na::Isometry3<f64>) {
    assert!(a.abs_diff_eq(b, 1e-6), "{:?} != {:?}", a, b);
}

fn vehicle_facts() -> Vec<CoordTransform> {
    vec![
        fact("map", "car", &make_iso3(0f64, 10f64, 20f64, 100.0, -70.0, 255.0)),
        fact("car", "lidar1", &make_iso3(0f64, 0f64, 30f64, 10.0, 0.0, 3.0)),
        fact("car", "lidar2", &make_iso3(0f64, 0f64, -30f64, -10.0, 0.0, 3.0)),
    ]
}

#[test]
fn transfrom_set_serde() {
    let set = TransformSet::try_from_iter(vehicle_facts()).unwrap();

    let map_to_car = make_iso3(0f64, 10f64, 20f64, 100.0, -70.0, 255.0);
    let car_to_lidar1 = make_iso3(0f64, 0f64, 30f64, 10.0, 0.0, 3.0);
    let car_to_lidar2 = make_iso3(0f64, 0f64, -30f64, -10.0, 0.0, 3.0);

    let lidar1_to_car = car_to_lidar1.inverse();
    let lidar1_to_lidar2 = lidar1_to_car * car_to_lidar2;

    assert!(set.get("map", "xxx").is_none());
    assert!(set.get("xxx", "map").is_none());
    assert!(set.get("xxx", "yyy").is_none());

    assert_close(&get(&set, "car", "lidar1").unwrap(), &car_to_lidar1);
    assert_close(&get(&set, "car", "lidar2").unwrap(), &car_to_lidar2);

    assert_close(
        &get(&set, "lidar1", "lidar2").unwrap(),
        &get(&set, "lidar2", "lidar1").unwrap().inverse(),
    );

    assert_close(&get(&set, "lidar1", "lidar2").unwrap(), &lidar1_to_lidar2);

    assert_close(
        &get(&set, "map", "car").unwrap(),
        &get(&set, "car", "map").unwrap().inverse(),
    );
    assert_close(&get(&set, "map", "car").unwrap(), &map_to_car);

    assert_close(
        &(get(&set, "lidar1", "car").unwrap() * get(&set, "car", "lidar2").unwrap()),
        &get(&set, "lidar1", "lidar2").unwrap(),
    );

    assert_close(
        &(get(&set, "lidar1", "car").unwrap() * get(&set, "car", "lidar1").unwrap()),
        &get(&set, "lidar1", "lidar1").unwrap(),
    );

    assert_close(&get(&set, "map", "map").unwrap(), &na::Isometry3::identity());
}

#[test]
fn transform_set_consistency_test() {
    let mut set = TransformSet::default();

    let map_to_car = make_iso3(0f64, 10f64, 20f64, 100.0, -70.0, 255.0);
    let car_to_lidar1 = make_iso3(0f64, 0f64, 30f64, 10.0, 0.0, 3.0);
    let car_to_lidar2 = make_iso3(0f64, 0f64, -30f64, -10.0, 0.0, 3.0);

    let car_to_map = map_to_car.inverse();
    let lidar1_to_car = car_to_lidar1.inverse();
    let lidar2_to_car = car_to_lidar2.inverse();
    let lidar1_to_lidar2 = lidar1_to_car * car_to_lidar2;
    let lidar2_to_lidar1 = lidar1_to_lidar2.inverse();
    let map_to_lidar1 = map_to_car * car_to_lidar1;
    let map_to_lidar2 = map_to_car * car_to_lidar2;
    let lidar1_to_map = map_to_lidar1.inverse();
    let lidar2_to_map = map_to_lidar2.inverse();

    set.insert("car", "lidar1", from_iso(&car_to_lidar1)).unwrap();
    set.insert("car", "map", from_iso(&car_to_map)).unwrap();
    set.insert("car", "lidar2", from_iso(&car_to_lidar2)).unwrap();
    set.insert("lidar1", "car", from_iso(&lidar1_to_car)).unwrap();
    set.insert("map", "car", from_iso(&map_to_car)).unwrap();
    set.insert("lidar2", "car", from_iso(&lidar2_to_car)).unwrap();

    let check = |src: &str, dst: &str, expect: &na::Isometry3<f64>| {
        assert_close(&get(&set, src, dst).unwrap(), expect);
    };

    check("car", "lidar1", &car_to_lidar1);
    check("car", "lidar2", &car_to_lidar2);
    check("car", "map", &car_to_map);
    check("map", "car", &map_to_car);
    check("map", "lidar1", &map_to_lidar1);
    check("map", "lidar2", &map_to_lidar2);
    check("lidar1", "car", &lidar1_to_car);
    check("lidar1", "lidar2", &lidar1_to_lidar2);
    check("lidar1", "map", &lidar1_to_map);
    check("lidar2", "car", &lidar2_to_car);
    check("lidar2", "lidar1", &lidar2_to_lidar1);
    check("lidar2", "map", &lidar2_to_map);
}

#[test]
fn identity_for_every_known_frame() {
    let set = TransformSet::try_from_iter(vehicle_facts()).unwrap();
    for frame in ["map", "car", "lidar1", "lidar2"] {
        assert_eq!(set.get(frame, frame), Some(RigidTransform::identity()));
    }
}

#[test]
fn one_direction_is_the_inverse_of_the_other() {
    let set = TransformSet::try_from_iter(vehicle_facts()).unwrap();
    let frames = ["map", "car", "lidar1", "lidar2"];
    for a in frames {
        for b in frames {
            let forth = set.get(a, b).unwrap();
            let back = set.get(b, a).unwrap();
            assert_close(&to_iso(&forth), &to_iso(&back).inverse());
            if a != b {
                assert!(forth == back.inverse() || back == forth.inverse());
            }
        }
    }
}

#[test]
fn composition_is_transitive() {
    let set = TransformSet::try_from_iter(vehicle_facts()).unwrap();
    let frames = ["map", "car", "lidar1", "lidar2"];
    for a in frames {
        for b in frames {
            for c in frames {
                assert_close(
                    &(get(&set, a, b).unwrap() * get(&set, b, c).unwrap()),
                    &get(&set, a, c).unwrap(),
                );
            }
        }
    }
}

#[test]
fn unknown_and_disjoint_frames_give_nothing() {
    let mut set = TransformSet::new();
    let tf = make_iso3(1.0, 2.0, 3.0, 4.0, 5.0, 6.0);
    set.insert("a", "b", from_iso(&tf)).unwrap();
    set.insert("c", "d", from_iso(&tf)).unwrap();
    assert!(set.contains_coord("a"));
    assert!(set.contains_coord("d"));
    assert!(!set.contains_coord("e"));
    assert!(set.get("a", "e").is_none());
    assert!(set.get("e", "a").is_none());
    assert!(set.get("e", "e").is_none());
    assert!(set.get("a", "c").is_none());
    assert!(set.get("d", "b").is_none());
    assert!(set.get("a", "b").is_some());
    assert!(set.get("d", "c").is_some());
}

#[test]
fn any_order_of_the_facts_gives_the_same_answers() {
    let frames = ["map", "car", "lidar1", "lidar2"];
    let orders: [[usize; 3]; 6] = [
        [0, 1, 2],
        [0, 2, 1],
        [1, 0, 2],
        [1, 2, 0],
        [2, 0, 1],
        [2, 1, 0],
    ];
    let reference = TransformSet::try_from_iter(vehicle_facts()).unwrap();
    for order in orders {
        let given = vehicle_facts();
        let facts: Vec<CoordTransform> = order.iter().map(|&k| given[k].clone()).collect();
        let set = TransformSet::try_from_iter(facts).unwrap();
        for a in frames {
            for b in frames {
                assert_close(&get(&set, a, b).unwrap(), &get(&reference, a, b).unwrap());
            }
        }
    }
}

#[test]
fn rejected_facts_change_nothing() {
    let mut set = TransformSet::try_from_iter(vehicle_facts()).unwrap();
    let frames = ["map", "car", "lidar1", "lidar2"];
    let mut before = Vec::new();
    for a in frames {
        for b in frames {
            before.push(set.get(a, b));
        }
    }
    let wrong = make_iso3(0f64, 0f64, 31f64, 10.0, 0.0, 3.0);
    let err = set.insert("car", "lidar1", from_iso(&wrong)).unwrap_err();
    match err {
        InsertionError::InconsistentTransform { expect, actual } => {
            assert_eq!(Some(expect), set.get("car", "lidar1"));
            assert_eq!(actual, from_iso(&wrong));
        }
        other => panic!("{:?}", other),
    }
    let err = set.insert("car", "car", from_iso(&wrong)).unwrap_err();
    assert!(matches!(err, InsertionError::InvalidSelfLoop { ref coord, .. } if coord == "car"));
    let err = set.insert("new", "new", from_iso(&wrong)).unwrap_err();
    assert!(matches!(err, InsertionError::InvalidSelfLoop { ref coord, .. } if coord == "new"));
    assert!(!set.contains_coord("new"));
    let mut after = Vec::new();
    for a in frames {
        for b in frames {
            after.push(set.get(a, b));
        }
    }
    assert_eq!(before, after);
}

#[test]
fn scenario_with_map_car_and_two_lidars() {
    let set = TransformSet::try_from_iter(vehicle_facts()).unwrap();
    assert_close(
        &get(&set, "lidar1", "lidar2").unwrap(),
        &(get(&set, "car", "lidar1").unwrap().inverse() * get(&set, "car", "lidar2").unwrap()),
    );
    assert_close(&get(&set, "map", "map").unwrap(), &na::Isometry3::identity());
    assert_close(
        &(get(&set, "lidar1", "car").unwrap() * get(&set, "car", "lidar1").unwrap()),
        &na::Isometry3::identity(),
    );
}

#[test]
fn bridging_fact_merges_two_groups() {
    let map_to_car = make_iso3(0f64, 10f64, 20f64, 100.0, -70.0, 255.0);
    let lidar1_to_lidar2 = make_iso3(0f64, 0f64, -60f64, -17.0, 5.0, 0.0);
    let car_to_lidar1 = make_iso3(0f64, 0f64, 30f64, 10.0, 0.0, 3.0);
    let mut set = TransformSet::new();
    set.insert("map", "car", from_iso(&map_to_car)).unwrap();
    set.insert("lidar1", "lidar2", from_iso(&lidar1_to_lidar2)).unwrap();
    assert!(set.get("map", "lidar2").is_none());
    set.insert("car", "lidar1", from_iso(&car_to_lidar1)).unwrap();
    assert_close(
        &get(&set, "map", "lidar2").unwrap(),
        &(get(&set, "map", "car").unwrap() * car_to_lidar1 * get(&set, "lidar1", "lidar2").unwrap()),
    );
    assert_close(&get(&set, "map", "car").unwrap(), &map_to_car);
    assert_close(&get(&set, "lidar1", "lidar2").unwrap(), &lidar1_to_lidar2);
    assert_close(&get(&set, "car", "lidar1").unwrap(), &car_to_lidar1);
    assert_close(
        &get(&set, "lidar2", "map").unwrap(),
        &(map_to_car * car_to_lidar1 * lidar1_to_lidar2).inverse(),
    );
}

#[test]
fn merge_may_bridge_any_two_frames() {
    let mut set = TransformSet::new();
    let mut steps = Vec::new();
    for p in 0..9 {
        steps.push(make_iso3(p as f64, 3.0, -2.0 * p as f64, 1.0, p as f64, -1.0));
    }
    for p in 0..4 {
        set.insert(&format!("a{}", p), &format!("a{}", p + 1), from_iso(&steps[p])).unwrap();
    }
    for p in 0..5 {
        set.insert(&format!("b{}", p), &format!("b{}", p + 1), from_iso(&steps[p + 4])).unwrap();
    }
    let bridge = make_iso3(7.0, 8.0, 9.0, -3.0, 2.0, 1.0);
    set.insert("b3", "a1", from_iso(&bridge)).unwrap();
    let mut a1_to_a4 = na::Isometry3::identity();
    for p in 1..4 {
        a1_to_a4 *= steps[p];
    }
    let mut b0_to_b3 = na::Isometry3::identity();
    for p in 0..3 {
        b0_to_b3 *= steps[p + 4];
    }
    assert_close(&get(&set, "b0", "a4").unwrap(), &(b0_to_b3 * bridge * a1_to_a4));
    assert_close(&get(&set, "a4", "b0").unwrap(), &(b0_to_b3 * bridge * a1_to_a4).inverse());
    assert_close(&get(&set, "b3", "a1").unwrap(), &bridge);
    for p in 0..5 {
        assert!(set.contains_coord(&format!("a{}", p)));
    }
    set.insert("a0", "b5", from_iso(&get(&set, "a0", "b5").unwrap())).unwrap();
}

#[test]
fn bulk_build_reports_bad_facts() {
    let turned = make_iso3(0.0, 0.0, 1.0, 0.0, 0.0, 0.0);
    let mut facts = vehicle_facts();
    facts.push(fact("car", "car", &turned));
    facts.push(fact("map", "map", &turned));
    match TransformSet::try_from_iter(facts).unwrap_err() {
        InsertionError::InvalidSelfLoop { coord, actual } => {
            assert_eq!(coord, "car");
            assert_eq!(actual, from_iso(&turned));
        }
        other => panic!("{:?}", other),
    }

    let mut facts = vehicle_facts();
    let wrong = make_iso3(0f64, 0f64, 0f64, 0.0, 0.0, 0.0);
    facts.push(fact("lidar2", "lidar1", &wrong));
    match TransformSet::try_from_iter(facts).unwrap_err() {
        InsertionError::InconsistentTransform { expect, actual } => {
            let reference = TransformSet::try_from_iter(vehicle_facts()).unwrap();
            assert_close(&to_iso(&expect), &get(&reference, "lidar2", "lidar1").unwrap());
            assert_eq!(actual, from_iso(&wrong));
        }
        other => panic!("{:?}", other),
    }
}

#[test]
fn bulk_build_takes_loops_and_separate_groups() {
    let tf = make_iso3(1.0, 2.0, 3.0, 4.0, 5.0, 6.0);
    let facts = vec![
        fact("alone", "alone", &na::Isometry3::identity()),
        fact("a", "b", &tf),
        fact("c", "b", &tf),
        fact("x", "y", &tf),
        fact("b", "b", &na::Isometry3::identity()),
    ];
    let set = TransformSet::try_from_iter(facts).unwrap();
    assert!(set.contains_coord("alone"));
    assert_eq!(set.get("alone", "alone"), Some(RigidTransform::identity()));
    assert!(set.get("alone", "a").is_none());
    assert!(set.get("a", "x").is_none());
    assert_close(&get(&set, "a", "c").unwrap(), &(tf * tf.inverse()));
    assert_close(&get(&set, "y", "x").unwrap(), &tf.inverse());
    let empty = TransformSet::try_from_iter(Vec::new()).unwrap();
    assert!(!empty.contains_coord("a"));
    assert!(empty.to_facts().is_empty());
}

#[test]
fn exported_facts_build_the_same_set_again() {
    let mut set = TransformSet::try_from_iter(vehicle_facts()).unwrap();
    let tf = make_iso3(1.0, 2.0, 3.0, 4.0, 5.0, 6.0);
    set.insert("x", "y", from_iso(&tf)).unwrap();
    let facts = set.to_facts();
    assert_eq!(facts.len(), 4);
    let names: Vec<(String, String)> = facts.iter().map(|f| (f.src.clone(), f.dst.clone())).collect();
    assert_eq!(
        names,
        vec![
            ("map".to_string(), "car".to_string()),
            ("car".to_string(), "lidar1".to_string()),
            ("lidar1".to_string(), "lidar2".to_string()),
            ("x".to_string(), "y".to_string()),
        ]
    );
    let again = TransformSet::try_from_iter(facts).unwrap();
    let frames = ["map", "car", "lidar1", "lidar2", "x", "y"];
    for a in frames {
        for b in frames {
            match (get(&set, a, b), get(&again, a, b)) {
                (Some(one), Some(other)) => assert_close(&one, &other),
                (None, None) => {}
                other => panic!("{} -> {}: {:?}", a, b, other),
            }
        }
    }
}

#[test]
fn copy_answers_as_the_set_it_was_made_from() {
    let mut set = TransformSet::try_from_iter(vehicle_facts()).unwrap();
    let copy = set.clone();
    let tf = make_iso3(1.0, 2.0, 3.0, 4.0, 5.0, 6.0);
    set.insert("lidar2", "radar", from_iso(&tf)).unwrap();
    assert!(set.contains_coord("radar"));
    assert!(!copy.contains_coord("radar"));
    let frames = ["map", "car", "lidar1", "lidar2"];
    for a in frames {
        for b in frames {
            assert_eq!(set.get(a, b), copy.get(a, b));
        }
    }
}

#[test]
fn self_loop_on_a_new_frame_founds_a_group_of_one() {
    let mut set = TransformSet::new();
    set.insert("a", "a", RigidTransform::identity()).unwrap();
    assert!(set.contains_coord("a"));
    assert_eq!(set.get("a", "a"), Some(RigidTransform::identity()));
    assert!(set.to_facts().is_empty());
    let tf = make_iso3(1.0, 2.0, 3.0, 4.0, 5.0, 6.0);
    set.insert("b", "a", from_iso(&tf)).unwrap();
    assert_close(&get(&set, "a", "b").unwrap(), &tf.inverse());
    assert_eq!(set.to_facts().len(), 1);
}

struct Lcg(u64);

impl Lcg {
    fn next(&mut self) -> u64 {
        self.0 = self.0.wrapping_mul(6364136223846793005).wrapping_add(1442695040888963407);
        self.0 >> 33
    }

    fn below(&mut self, n: usize) -> usize {
        (self.next() % n as u64) as usize
    }

    fn unit(&mut self) -> f64 {
        (self.next() % 2_000_001) as f64 / 1_000_000.0 - 1.0
    }

    fn pose(&mut self) -> na::Isometry3<f64> {
        make_iso3(
            180.0 * self.unit(),
            90.0 * self.unit(),
            180.0 * self.unit(),
            10.0 * self.unit(),
            10.0 * self.unit(),
            10.0 * self.unit(),
        )
    }
}

#[test]
fn facts_in_any_order_and_direction_give_the_poses_back() {
    let mut rng = Lcg(2024);
    for round in 0..40 {
        let frames = 2 + rng.below(24);
        let roots = 1 + rng.below(3);
        let world: Vec<na::Isometry3<f64>> = (0..frames).map(|_| rng.pose()).collect();
        let name = |f: usize| format!("frame{}", f);
        let mut group: Vec<usize> = (0..frames).collect();
        let mut facts = Vec::new();
        for f in roots.min(frames)..frames {
            let parent = rng.below(f);
            group[f] = group[parent];
            let (src, dst) = if rng.below(2) == 0 { (parent, f) } else { (f, parent) };
            facts.push((src, dst));
        }
        for _ in 0..rng.below(5) {
            let a = rng.below(frames);
            let b = rng.below(frames);
            if group[a] == group[b] {
                facts.push((a, b));
            }
        }
        for k in (1..facts.len()).rev() {
            facts.swap(k, rng.below(k + 1));
        }
        let relative = |a: usize, b: usize| world[a].inverse() * world[b];

        let mut grown = TransformSet::new();
        for &(a, b) in &facts {
            grown.insert(&name(a), &name(b), from_iso(&relative(a, b))).unwrap();
        }
        let built = TransformSet::try_from_iter(
            facts.iter().map(|&(a, b)| fact(&name(a), &name(b), &relative(a, b))).collect(),
        )
        .unwrap();
        let again = TransformSet::try_from_iter(grown.to_facts()).unwrap();

        let known: Vec<bool> = (0..frames)
            .map(|f| facts.iter().any(|&(a, b)| a == f || b == f))
            .collect();
        for a in 0..frames {
            assert_eq!(grown.contains_coord(&name(a)), known[a], "round {}", round);
            assert_eq!(built.contains_coord(&name(a)), known[a], "round {}", round);
            for b in 0..frames {
                let related = known[a] && known[b] && group[a] == group[b];
                for set in [&grown, &built, &again] {
                    match get(set, &name(a), &name(b)) {
                        Some(tf) => {
                            assert!(related || (a == b && known[a]), "round {}: {} {}", round, a, b);
                            assert_close(&tf, &relative(a, b));
                        }
                        None => {
                            let lonely = set.to_facts().iter().all(|f| f.src != name(a) && f.dst != name(a));
                            assert!(!related || lonely, "round {}: {} {}", round, a, b);
                        }
                    }
                }
            }
        }
    }
}
