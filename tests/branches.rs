use opw_kinematics::angle::HALF_TURN;
use opw_kinematics::branches::{inverse_candidates, keep_verified, ArmSolution, WRIST_ZERO};
use opw_kinematics::joints::JointConvention;

const DEG: i64 = 1_000_000_000;

fn plain() -> JointConvention {
    JointConvention { offsets: [0; 6], sign_corrections: [1; 6] }
}

fn arm(t: [i64; 6]) -> ArmSolution {
    ArmSolution {
        theta1: Some(t[0]),
        theta2: Some(t[1]),
        theta3: Some(t[2]),
        theta4: Some(t[3]),
        theta5: Some(t[4]),
        theta6: Some(t[5]),
        aligned_theta6: Some(77 * DEG),
    }
}

#[test]
fn eight_candidates_with_wrist_flips() {
    let arms = [
        arm([10 * DEG, 20 * DEG, 30 * DEG, 40 * DEG, 50 * DEG, 60 * DEG]),
        arm([10 * DEG, 25 * DEG, 35 * DEG, 45 * DEG, 55 * DEG, 65 * DEG]),
        arm([-170 * DEG, 21 * DEG, 31 * DEG, 41 * DEG, 51 * DEG, 61 * DEG]),
        arm([-170 * DEG, 22 * DEG, 32 * DEG, 42 * DEG, 52 * DEG, 62 * DEG]),
    ];
    let c = inverse_candidates(&arms, &plain());
    assert_eq!(c.len(), 8);
    assert_eq!(c[0], Some([10 * DEG, 20 * DEG, 30 * DEG, 40 * DEG, 50 * DEG, 60 * DEG]));
    assert_eq!(c[3], Some([-170 * DEG, 22 * DEG, 32 * DEG, 42 * DEG, 52 * DEG, 62 * DEG]));
    // Flip of the first: theta4 + 180, -theta5, theta6 - 180.
    assert_eq!(c[4], Some([10 * DEG, 20 * DEG, 30 * DEG, -140 * DEG, -50 * DEG, -120 * DEG]));
    assert_eq!(c[7], Some([-170 * DEG, 22 * DEG, 32 * DEG, -138 * DEG, -52 * DEG, -118 * DEG]));
}

#[test]
fn aligned_wrist_fixes_theta4_at_zero() {
    let a = arm([0, 0, 0, 33 * DEG, WRIST_ZERO - 1, 44 * DEG]);
    let b = arm([0, 0, 0, 33 * DEG, WRIST_ZERO, 44 * DEG]);
    let c = inverse_candidates(&[a, b, a, b], &plain());
    assert_eq!(c[0], Some([0, 0, 0, 0, WRIST_ZERO - 1, 77 * DEG]));
    assert_eq!(c[1], Some([0, 0, 0, 33 * DEG, WRIST_ZERO, 44 * DEG]));
    assert_eq!(c[4], Some([0, 0, 0, HALF_TURN, -(WRIST_ZERO - 1), 77 * DEG - HALF_TURN]));
}

#[test]
fn undefined_angles_give_no_candidate() {
    let mut a = arm([0, 0, 0, 0, 90 * DEG, 0]);
    a.theta2 = None;
    let mut b = arm([0, 0, 0, 0, 90 * DEG, 0]);
    b.theta4 = None;
    let mut d = arm([0, 0, 0, 0, 0, 0]);
    // Undefined general-case wrist solution is not used where the wrist is aligned.
    d.theta4 = None;
    d.theta6 = None;
    let ok = arm([1, 2, 3, 4, 90 * DEG, 6]);
    let c = inverse_candidates(&[a, b, d, ok], &plain());
    assert_eq!(c[0], None);
    assert_eq!(c[1], None);
    assert_eq!(c[2], Some([0, 0, 0, 0, 0, 77 * DEG]));
    assert_eq!(c[3], Some([1, 2, 3, 4, 90 * DEG, 6]));
    assert_eq!(c[4], None);
    assert_eq!(c[5], None);
}

#[test]
fn candidates_use_the_joint_convention() {
    let conv = JointConvention {
        offsets: [0, 0, -90 * DEG, 0, 0, 180 * DEG],
        sign_corrections: [1, 1, -1, -1, -1, -1],
    };
    let a = arm([10 * DEG, 20 * DEG, 30 * DEG, 40 * DEG, 50 * DEG, 60 * DEG]);
    let c = inverse_candidates(&[a, a, a, a], &conv);
    assert_eq!(c[0], Some([10 * DEG, 20 * DEG, 60 * DEG, -40 * DEG, -50 * DEG, 120 * DEG]));
}

#[test]
fn keep_verified_keeps_order_and_drops_failures() {
    let j = |x: i64| [x, 0, 0, 0, 0, 0];
    let cands = vec![Some(j(1)), None, Some(j(3)), Some(j(4)), None, Some(j(6)), Some(j(7)), Some(j(8))];
    let ok = vec![true, true, false, true, true, true, false, true];
    let r = keep_verified(&cands, &ok);
    assert_eq!(r, vec![j(1), j(4), j(6), j(8)]);
}

#[test]
fn keep_verified_never_more_than_offered() {
    let j = [0i64; 6];
    let cands = vec![Some(j); 8];
    let r = keep_verified(&cands, &vec![true; 8]);
    assert_eq!(r.len(), 8);
    let r = keep_verified(&cands, &vec![false; 8]);
    assert!(r.is_empty());
}
