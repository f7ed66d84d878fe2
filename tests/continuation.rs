use opw_kinematics::angle::HALF_TURN;
use opw_kinematics::continuation::{
    joint_distance, redistribute, renormalize, resolve_continuing, resolve_singular,
};
use opw_kinematics::ranking::stable_order;
use opw_kinematics::search::{SearchStep, SingularSearch};
use opw_kinematics::singularity::Coupling;

const DEG: i64 = 1_000_000_000;

fn d(j: [i64; 6]) -> [i64; 6] {
    [j[0] * DEG, j[1] * DEG, j[2] * DEG, j[3] * DEG, j[4] * DEG, j[5] * DEG]
}

#[test]
fn stable_order_sorts_and_keeps_ties() {
    let keys = vec![5u64, 1, 5, 0, 1, 9];
    assert_eq!(stable_order(&keys), vec![3, 1, 4, 0, 2, 5]);
    assert_eq!(stable_order(&vec![]), Vec::<usize>::new());
}

#[test]
fn renormalize_moves_each_joint_near_previous() {
    let prev = d([179, 0, 350, -170, 0, 0]);
    let c = d([-179, 360, -10, 170, 0, 180]);
    assert_eq!(renormalize(&c, &prev), d([181, 0, 350, -190, 0, 180]));
}

#[test]
fn joint_distance_sums_absolute_differences() {
    assert_eq!(joint_distance(&d([1, 2, 3, 4, 5, 6]), &d([0, 4, 3, 0, 5, -6])), 19 * DEG as u64);
}

#[test]
fn redistribute_same_direction_splits_the_sum() {
    // Joint 5 near zero: the pose fixes joint 4 + joint 6 = 100 degrees.
    let prev = d([10, 20, 30, 40, 0, 60]);
    let c = d([10, 20, 30, 0, 0, 100]);
    assert_eq!(redistribute(&c, &prev, Coupling::Same), prev);
    // A different sum (110): each joint moves by half of the 10 degrees.
    let c = d([10, 20, 30, 10, 0, 100]);
    assert_eq!(redistribute(&c, &prev, Coupling::Same), d([10, 20, 30, 45, 0, 65]));
}

#[test]
fn redistribute_opposite_direction_splits_the_difference() {
    // Joint 5 near a half turn: the pose fixes joint 4 - joint 6.
    let prev = d([10, 20, 30, 40, 180, 60]);
    let c = d([10, 20, 30, 0, -180, 20]);
    assert_eq!(redistribute(&c, &prev, Coupling::Opposite), prev);
    // Difference 10 instead of -20: 30 degrees, split 15 and 15.
    let c = d([10, 20, 30, 10, 180, 0]);
    assert_eq!(redistribute(&c, &prev, Coupling::Opposite), d([10, 20, 30, 55, 180, 45]));
}

#[test]
fn redistribute_odd_shift_keeps_the_sum_exact() {
    let prev = [0, 0, 0, 0, 0, 0];
    let c = [0, 0, 0, 3, 0, 0];
    assert_eq!(redistribute(&c, &prev, Coupling::Same), [0, 0, 0, 1, 0, 2]);
    let c = [0, 0, 0, -3, 0, 0];
    assert_eq!(redistribute(&c, &prev, Coupling::Same), [0, 0, 0, -1, 0, -2]);
}

#[test]
fn resolve_singular_only_at_aligned_wrist() {
    let prev = d([10, 20, 30, 40, 0, 60]);
    assert_eq!(resolve_singular(&d([10, 20, 30, 0, 90, 100]), &prev), None);
    assert_eq!(resolve_singular(&d([10, 20, 30, 0, 0, 100]), &prev), Some(prev));
}

#[test]
fn resolve_continuing_sorts_by_distance() {
    let prev = d([0, 0, 0, 0, 0, 0]);
    let exact = vec![d([90, 0, 0, 0, 0, 0]), d([10, 10, 0, 0, 0, 0]), d([-5, 0, 0, 0, 0, 0])];
    let r = resolve_continuing(&exact, Some(d([0, 0, 0, 0, 30, 0])), &prev);
    assert_eq!(r, vec![d([-5, 0, 0, 0, 0, 0]), d([10, 10, 0, 0, 0, 0]), d([0, 0, 0, 0, 30, 0]),
                       d([90, 0, 0, 0, 0, 0])]);
    for w in r.windows(2) {
        assert!(joint_distance(&w[0], &prev) <= joint_distance(&w[1], &prev));
    }
}

#[test]
fn resolve_continuing_puts_previous_first() {
    let prev = d([10, 20, 30, 40, 50, 60]);
    // The same vector up to whole turns ranks first and comes back as `prev`.
    let exact = vec![d([11, 20, 30, 40, 50, 60]), d([370, 20, -330, 40, 50, 420])];
    let r = resolve_continuing(&exact, None, &prev);
    assert_eq!(r[0], prev);
    assert_eq!(r[1], d([11, 20, 30, 40, 50, 60]));
}

#[test]
fn resolve_continuing_renormalizes_near_previous() {
    let prev = d([170, 0, 0, 0, 0, 0]);
    let r = resolve_continuing(&vec![d([-175, 0, 0, 0, 0, 0])], None, &prev);
    assert_eq!(r, vec![d([185, 0, 0, 0, 0, 0])]);
    assert!(resolve_continuing(&vec![], None, &prev).is_empty());
}

#[test]
fn continuity_at_wrist_singularity_same_direction() {
    // The exact solution at the singularity splits joints 4 and 6 by the
    // zero-theta4 convention; the probe finds a singular candidate, which is
    // redistributed back to the previous joints.
    let prev = d([10, 20, 30, 40, 0, 60]);
    let exact = vec![d([10, 20, 30, 0, 0, 100]), d([-170, 40, 150, 0, 0, 100])];
    let (mut s, step) = SingularSearch::start(&exact, &prev);
    assert_eq!(step, SearchStep::Probe(0));
    let step = s.probed(exact.clone());
    assert_eq!(step, SearchStep::Check(prev));
    let step = s.checked(true);
    assert_eq!(step, SearchStep::Finish(Some(prev)));
    let r = resolve_continuing(&exact, Some(prev), &prev);
    assert_eq!(r[0], prev);
}

#[test]
fn continuity_at_wrist_singularity_opposite_direction() {
    let prev = d([10, 20, 30, 40, -180, 60]);
    let c = d([10, 20, 30, 0, 180, 20]);
    let j = resolve_singular(&c, &prev).unwrap();
    assert_eq!(j, prev);
    let r = resolve_continuing(&vec![c], Some(j), &prev);
    assert_eq!(r[0], prev);
    assert_eq!(r[0][4], -HALF_TURN);
}

#[test]
fn search_ends_at_once_without_singular_solution() {
    let prev = d([0, 0, 0, 0, 30, 0]);
    let (_, step) = SingularSearch::start(&vec![d([0, 0, 0, 0, 30, 0])], &prev);
    assert_eq!(step, SearchStep::Finish(None));
}

#[test]
fn search_probes_each_axis_then_gives_up() {
    let prev = d([0, 0, 0, 0, 0, 0]);
    let (mut s, step) = SingularSearch::start(&vec![prev], &prev);
    assert_eq!(step, SearchStep::Probe(0));
    assert_eq!(s.probed(vec![d([0, 0, 0, 0, 30, 0])]), SearchStep::Probe(1));
    assert_eq!(s.probed(vec![]), SearchStep::Probe(2));
    // A failed check moves on to the next singular candidate, then the end.
    let a = d([0, 0, 0, 10, 0, -10]);
    let b = d([0, 0, 0, 0, 0, 2]);
    assert_eq!(s.probed(vec![a, d([0, 0, 0, 0, 45, 0]), b]), SearchStep::Check(prev));
    assert_eq!(s.checked(false), SearchStep::Check(d([0, 0, 0, 1, 0, 1])));
    assert_eq!(s.checked(false), SearchStep::Finish(None));
}
