use opw_kinematics::angle::{nearest_to, normalize, HALF_TURN, TURN};
use opw_kinematics::joints::{decode, encode, JointConvention};

const DEG: i64 = 1_000_000_000;

#[test]
fn normalize_wraps_into_half_open_turn() {
    assert_eq!(normalize(HALF_TURN), HALF_TURN);
    assert_eq!(normalize(-HALF_TURN), HALF_TURN);
    assert_eq!(normalize(3 * HALF_TURN), HALF_TURN);
    assert_eq!(normalize(TURN + 5), 5);
    assert_eq!(normalize(-TURN - 5), -5);
    assert_eq!(normalize(270 * DEG), -90 * DEG);
    assert_eq!(normalize(-190 * DEG), 170 * DEG);
    assert_eq!(normalize(0), 0);
}

#[test]
fn nearest_to_previous_value() {
    // -179 degrees seen from 179 degrees is 181 degrees.
    assert_eq!(nearest_to(-179 * DEG, 179 * DEG), 181 * DEG);
    assert_eq!(nearest_to(10 * DEG, 710 * DEG), 730 * DEG);
    assert_eq!(nearest_to(5 * DEG, 0), 5 * DEG);
    // The half turn boundary: exactly half a turn away goes up.
    assert_eq!(nearest_to(HALF_TURN, 0), HALF_TURN);
    assert_eq!(nearest_to(-HALF_TURN, 0), HALF_TURN);
}

fn convention() -> JointConvention {
    JointConvention {
        offsets: [0, 0, -90 * DEG, 0, 0, 180 * DEG],
        sign_corrections: [1, 1, -1, -1, -1, -1],
    }
}

#[test]
fn encode_applies_offset_then_sign_and_wraps() {
    let conv = convention();
    let theta = [10 * DEG, 20 * DEG, 30 * DEG, 40 * DEG, 50 * DEG, 60 * DEG];
    let j = encode(&theta, &conv);
    // (30 - 90) * -1 = 60; (60 + 180) * -1 = -240, wrapped to 120.
    assert_eq!(j, [10 * DEG, 20 * DEG, 60 * DEG, -40 * DEG, -50 * DEG, 120 * DEG]);
}

#[test]
fn decode_applies_sign_then_offset() {
    let conv = convention();
    let j = [10 * DEG, 20 * DEG, 60 * DEG, -40 * DEG, -50 * DEG, 120 * DEG];
    let theta = decode(&j, &conv);
    assert_eq!(theta, [10 * DEG, 20 * DEG, 30 * DEG, 40 * DEG, 50 * DEG, -300 * DEG]);
}

#[test]
fn decode_of_encode_is_the_same_angle() {
    let conv = convention();
    let theta = [-170 * DEG, 95 * DEG, 179 * DEG, -45 * DEG, 1, 360 * DEG + 7];
    let back = decode(&encode(&theta, &conv), &conv);
    for i in 0..6 {
        assert_eq!((back[i] - theta[i]).rem_euclid(TURN), 0);
    }
}
