use std::f64::consts::PI;

use opw_kinematics::singularity::{kinematic_singularity, wrist_coupling, Coupling, Singularity};

/// Radians to the library's nanodegrees.
fn rad(x: f64) -> i64 {
    (x.to_degrees() * 1e9).round() as i64
}

fn joints(j: [f64; 6]) -> [i64; 6] {
    [rad(j[0]), rad(j[1]), rad(j[2]), rad(j[3]), rad(j[4]), rad(j[5])]
}

#[test]
fn test_singularity_a() {
    // Joint 5 at a half turn (or at zero) aligns the wrist.
    assert_eq!(kinematic_singularity(&joints([0.0, 0.8, 0.0, 0.0, PI, 0.0])).unwrap(),
               Singularity::A);
    assert_eq!(kinematic_singularity(&joints([0.0, 0.8, 0.0, 0.0, -PI, 0.0])).unwrap(),
               Singularity::A);
    assert_eq!(kinematic_singularity(&joints([0.0, 0.8, 0.0, 0.0, 0.0, PI])).unwrap(),
               Singularity::A);
    assert_eq!(kinematic_singularity(&joints([0.0, 0.8, 0.0, 0.0, 3. * PI, 0.0])).unwrap(),
               Singularity::A);
}

#[test]
fn test_no_singularity() {
    let j = joints([0.0, 0.1, 0.2, 0.3, 0.4, PI]);
    assert_eq!(kinematic_singularity(&j), None);
}

#[test]
fn singularity_threshold_edges() {
    let deg: i64 = 1_000_000_000;
    // 0.01 degree is the threshold, exclusive.
    let at = |j5: i64| kinematic_singularity(&[0, 0, 0, 0, j5, 0]);
    assert_eq!(at(9_999_999), Some(Singularity::A));
    assert_eq!(at(10_000_000), None);
    assert_eq!(at(-9_999_999), Some(Singularity::A));
    assert_eq!(at(180 * deg + 9_999_999), Some(Singularity::A));
    assert_eq!(at(180 * deg - 10_000_000), None);
    assert_eq!(at(-180 * deg), Some(Singularity::A));
    assert_eq!(at(720 * deg + 5), Some(Singularity::A));
    assert_eq!(at(90 * deg), None);
}

#[test]
fn wrist_coupling_kinds() {
    let deg: i64 = 1_000_000_000;
    assert_eq!(wrist_coupling(0), Some(Coupling::Same));
    assert_eq!(wrist_coupling(360 * deg - 1), Some(Coupling::Same));
    assert_eq!(wrist_coupling(180 * deg), Some(Coupling::Opposite));
    assert_eq!(wrist_coupling(-180 * deg + 3), Some(Coupling::Opposite));
    assert_eq!(wrist_coupling(45 * deg), None);
}
