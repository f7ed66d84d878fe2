use opw_kinematics::parameters::{ParameterError, Parameters};

/// The parameter file of the FANUC M-16iB/20.
const FANUC_M16IB20: &str = "\
# FANUC m16ib20
opw_kinematics_geometric_parameters:
  a1: 0.15
  a2: -0.10
  b: 0.0
  c1: 0.525
  c2: 0.77
  c3: 0.74
  c4: 0.10
opw_kinematics_joint_offsets: [0.0, 0.0, deg(-90.0), 0.0, 0.0, deg(180.0)]
opw_kinematics_joint_sign_corrections: [1, 1, -1, -1, -1, -1]
";

/// Meters to the library's nanometers.
fn meters(x: f64) -> i64 {
    (x * 1e9).round() as i64
}

/// Radians to the library's nanodegrees.
fn radians(x: f64) -> i64 {
    (x.to_degrees() * 1e9).round() as i64
}

#[test]
fn test_parameters_from_yaml() {
    let loaded = Parameters::from_yaml(FANUC_M16IB20.as_bytes())
        .expect("Failed to load parameters from file");

    let expected = Parameters {
        a1: meters(0.15),
        a2: meters(-0.10),
        b: meters(0.0),
        c1: meters(0.525),
        c2: meters(0.77),
        c3: meters(0.74),
        c4: meters(0.10),
        offsets: [0, 0, radians(-90.0_f64.to_radians()), 0, 0, radians(180.0_f64.to_radians())],
        sign_corrections: [1, 1, -1, -1, -1, -1],
    };

    assert_eq!(expected.a1, loaded.a1);
    assert_eq!(expected.a2, loaded.a2);
    assert_eq!(expected.b, loaded.b);
    assert_eq!(expected.c1, loaded.c1);
    assert_eq!(expected.c2, loaded.c2);
    assert_eq!(expected.c3, loaded.c3);
    assert_eq!(expected.c4, loaded.c4);
    assert_eq!(expected.offsets, loaded.offsets);
    assert_eq!(expected.sign_corrections, loaded.sign_corrections);
}

#[test]
fn parameters_exact_fixed_point_values() {
    let p = Parameters::from_yaml(FANUC_M16IB20.as_bytes()).unwrap();
    assert_eq!(p.a1, 150_000_000);
    assert_eq!(p.a2, -100_000_000);
    assert_eq!(p.c1, 525_000_000);
    assert_eq!(p.offsets, [0, 0, -90_000_000_000, 0, 0, 180_000_000_000]);
    let conv = p.convention();
    assert_eq!(conv.sign_corrections, [1, 1, -1, -1, -1, -1]);
}

#[test]
fn parameters_radian_offsets_are_converted() {
    let text = "a1: 1\na2: 2\nb: 3\nc1: 4\nc2: 5\nc3: 6\nc4: 7\n\
                opw_kinematics_joint_offsets: [1.570796327, -3.141592654, 0, 1, deg(0.5), +2]\n\
                opw_kinematics_joint_sign_corrections: [1,1,1,1,1,1]\n";
    let p = Parameters::from_yaml(text.as_bytes()).unwrap();
    assert_eq!(p.a1, 1_000_000_000);
    assert_eq!(p.c4, 7_000_000_000);
    // Radians to nanodegrees, rounded toward zero.
    assert_eq!(p.offsets[0], 90_000_000_011);
    assert_eq!(p.offsets[1], -180_000_000_023);
    assert_eq!(p.offsets[3], 57_295_779_513);
    assert_eq!(p.offsets[4], 500_000_000);
    assert_eq!(p.offsets[5], 114_591_559_026);
    for k in 0..6 {
        assert!((p.offsets[k] - radians([1.570796327, -3.141592654, 0.0, 1.0, 0.5f64.to_radians(), 2.0][k])).abs() < 10);
    }
}

#[test]
fn parameters_missing_key() {
    let text = FANUC_M16IB20.replace("  c3: 0.74\n", "");
    assert_eq!(Parameters::from_yaml(text.as_bytes()), Err(ParameterError::MissingKey));
    assert_eq!(Parameters::from_yaml(b""), Err(ParameterError::MissingKey));
}

#[test]
fn parameters_bad_values() {
    let bad = [
        FANUC_M16IB20.replace("a2: -0.10", "a2: -0.1x"),
        FANUC_M16IB20.replace("c1: 0.525", "c1: .525"),
        FANUC_M16IB20.replace("c2: 0.77", "c2: 0.7700000001"),
        FANUC_M16IB20.replace("c2: 0.77", "c2: 1234567890"),
        FANUC_M16IB20.replace("[1, 1, -1, -1, -1, -1]", "[1, 1, -1, -1, -1]"),
        FANUC_M16IB20.replace("[1, 1, -1, -1, -1, -1]", "[1, 1, -1, -1, -1, 2]"),
        FANUC_M16IB20.replace("deg(180.0)]", "deg(180.0)"),
        FANUC_M16IB20.replace("deg(-90.0)", "deg(-90.0"),
    ];
    for text in bad.iter() {
        assert_eq!(Parameters::from_yaml(text.as_bytes()), Err(ParameterError::BadValue), "{}", text);
    }
}

#[test]
fn parameters_first_error_in_key_order() {
    let text = FANUC_M16IB20.replace("a1: 0.15", "a1: x").replace("  b: 0.0\n", "");
    assert_eq!(Parameters::from_yaml(text.as_bytes()), Err(ParameterError::BadValue));
}
