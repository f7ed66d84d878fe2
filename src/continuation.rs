//! Choosing joint values continuous with a previous configuration: the
//! redistribution of joints 4 and 6 at an aligned wrist, the wrapping of
//! each joint toward the previous value, and the ranking by distance.
use vstd::prelude::*;
use crate::angle::{
    in_limit, lemma_normal_same, lemma_same_angle_arith, nearest_to, normal_of,
    normalize, same_angle, ANGLE_LIMIT, HALF_TURN,
};
use crate::joints::{joints_in_limit, Joints};
use crate::ranking::{is_stable_order, lemma_stable_order_keys, lists, stable_order};
use crate::singularity::{coupling_of, wrist_coupling, Coupling};

verus! {

pub open spec fn abs(x: int) -> int {
    if x < 0 {
        -x
    } else {
        x
    }
}

/// Total per-joint distance between two joint vectors.
pub open spec fn distance(a: Joints, b: Joints) -> int {
    abs(a[0] - b[0]) + abs(a[1] - b[1]) + abs(a[2] - b[2]) + abs(a[3] - b[3]) + abs(a[4] - b[4])
        + abs(a[5] - b[5])
}

/// Joint `i` of `c` taken to the representative nearest to `prev[i]`.
pub open spec fn renormalized(c: Joints, prev: Joints, i: int) -> int {
    prev[i] + normal_of(c[i] - prev[i])
}

/// Total per-joint angular distance from `prev` to `c`, each joint counted
/// the short way round.
pub open spec fn angular_distance(c: Joints, prev: Joints) -> int {
    abs(normal_of(c[0] - prev[0])) + abs(normal_of(c[1] - prev[1])) + abs(
        normal_of(c[2] - prev[2]),
    ) + abs(normal_of(c[3] - prev[3])) + abs(normal_of(c[4] - prev[4])) + abs(
        normal_of(c[5] - prev[5]),
    )
}

/// Each joint of `c` is the same angle as that of `prev`.
pub open spec fn same_joints(c: Joints, prev: Joints) -> bool {
    forall|i: int| 0 <= i < 6 ==> #[trigger] same_angle(c[i] as int, prev[i] as int)
}

/// Each joint of `c` taken to the representative of its angle nearest to
/// the same joint of `prev`.
pub fn renormalize(c: &Joints, prev: &Joints) -> (r: Joints)
    requires
        joints_in_limit(*prev),
    ensures
        forall|i: int| 0 <= i < 6 ==> #[trigger] r[i] == renormalized(*c, *prev, i),
        forall|i: int| 0 <= i < 6 ==> #[trigger] same_angle(r[i] as int, c[i] as int),
        forall|i: int| 0 <= i < 6 ==> abs(#[trigger] r[i] - prev[i]) <= HALF_TURN,
        distance(r, *prev) == angular_distance(*c, *prev),
{
    let mut r: Joints = [0i64; 6];
    let mut i: usize = 0;
    while i < 6
        invariant
            joints_in_limit(*prev),
            0 <= i <= 6,
            forall|k: int| 0 <= k < i ==> #[trigger] r[k] == renormalized(*c, *prev, k),
            forall|k: int| 0 <= k < i ==> #[trigger] same_angle(r[k] as int, c[k] as int),
        decreases 6 - i,
    {
        assert(in_limit(prev[i as int] as int));
        r[i] = nearest_to(c[i], prev[i]);
        i = i + 1;
    }
    r
}

fn abs_diff(x: i64, y: i64) -> (r: u64)
    requires
        abs(x - y) <= 2 * ANGLE_LIMIT,
    ensures
        r == abs(x - y),
{
    if x >= y {
        (x - y) as u64
    } else {
        (y - x) as u64
    }
}

/// Total per-joint distance of two vectors, for joints at most twice
/// `ANGLE_LIMIT` apart (so that the sum fits in `u64`).
pub fn joint_distance(a: &Joints, b: &Joints) -> (r: u64)
    requires
        forall|i: int| 0 <= i < 6 ==> abs(#[trigger] a[i] - b[i]) <= 2 * ANGLE_LIMIT,
    ensures
        r == distance(*a, *b),
{
    assert(abs(a[0] - b[0]) <= 2 * ANGLE_LIMIT && abs(a[1] - b[1]) <= 2 * ANGLE_LIMIT);
    assert(abs(a[2] - b[2]) <= 2 * ANGLE_LIMIT && abs(a[3] - b[3]) <= 2 * ANGLE_LIMIT);
    assert(abs(a[4] - b[4]) <= 2 * ANGLE_LIMIT && abs(a[5] - b[5]) <= 2 * ANGLE_LIMIT);
    abs_diff(a[0], b[0]) + abs_diff(a[1], b[1]) + abs_diff(a[2], b[2]) + abs_diff(a[3], b[3])
        + abs_diff(a[4], b[4]) + abs_diff(a[5], b[5])
}

/// The candidates of a continuing solution: the exact solutions of the
/// pose, then the singular solution found near it, if any.
pub open spec fn continuing_candidates(exact: Seq<Joints>, singular: Option<Joints>) -> Seq<
    Joints,
> {
    match singular {
        Some(s) => exact.push(s),
        None => exact,
    }
}

/// `r` is `cands` in the stable `order` by angular distance to `prev`, each
/// joint taken to the representative nearest to `prev`.
pub open spec fn is_ranking(cands: Seq<Joints>, prev: Joints, order: Seq<usize>, r: Seq<Joints>) -> bool {
    &&& r.len() == cands.len()
    &&& is_stable_order(cands.len() as int, |k: int| angular_distance(cands[k], prev), order)
    &&& forall|p: int, i: int|
        0 <= p < cands.len() && 0 <= i < 6 ==> #[trigger] r[p][i] == renormalized(
            cands[order[p] as int],
            prev,
            i,
        )
}

/// Ranks the candidates of a continuing solution by continuity with `prev`.
/// Each joint of each candidate is taken to the representative of its angle
/// nearest to the previous value; the candidates are then sorted stably by
/// total per-joint distance to `prev`. The result starts with a candidate
/// that is as close to `prev` as any, and with `prev` itself where a
/// candidate is `prev` up to whole turns.
pub fn resolve_continuing(exact: &Vec<Joints>, singular: Option<Joints>, prev: &Joints) -> (r: Vec<
    Joints,
>)
    requires
        joints_in_limit(*prev),
    ensures
        ({
            let cands = continuing_candidates(exact@, singular);
            &&& r.len() == cands.len()
            &&& exists|order: Seq<usize>| #[trigger] is_ranking(cands, *prev, order, r@)
            &&& forall|p: int, q: int|
                0 <= p < q < r.len() ==> distance(#[trigger] r[p], *prev) <= distance(
                    #[trigger] r[q],
                    *prev,
                )
            &&& forall|k: int|
                0 <= k < cands.len() ==> distance(r[0], *prev) <= angular_distance(
                    #[trigger] cands[k],
                    *prev,
                )
            &&& (exists|k: int| 0 <= k < cands.len() && #[trigger] same_joints(cands[k], *prev))
                ==> forall|i: int| 0 <= i < 6 ==> #[trigger] r[0][i] == prev[i]
        }),
{
    let ghost cands = continuing_candidates(exact@, singular);
    let mut all: Vec<Joints> = Vec::new();
    let mut keys: Vec<u64> = Vec::new();
    let mut k: usize = 0;
    while k < exact.len()
        invariant
            joints_in_limit(*prev),
            cands == continuing_candidates(exact@, singular),
            k <= exact.len(),
            all.len() == k,
            keys.len() == k,
            forall|j: int, i: int|
                0 <= j < k && 0 <= i < 6 ==> #[trigger] all[j][i] == renormalized(
                    cands[j],
                    *prev,
                    i,
                ),
            forall|j: int| 0 <= j < k ==> keys[j] == angular_distance(#[trigger] cands[j], *prev),
        decreases exact.len() - k,
    {
        assert(cands[k as int] == exact[k as int]);
        let c = renormalize(&exact[k], prev);
        keys.push(joint_distance(&c, prev));
        all.push(c);
        k = k + 1;
    }
    match singular {
        Some(s) => {
            let c = renormalize(&s, prev);
            keys.push(joint_distance(&c, prev));
            all.push(c);
        },
        None => {},
    }
    assert(all.len() == cands.len());
    assert forall|j: int| 0 <= j < cands.len() implies keys@[j] as int == angular_distance(
        #[trigger] cands[j],
        *prev,
    ) by {}
    let order = stable_order(&keys);
    let ghost key = |j: int| angular_distance(cands[j], *prev);
    proof {
        lemma_stable_order_keys(cands.len() as int, |j: int| keys@[j] as int, key, order@);
    }
    let mut r: Vec<Joints> = Vec::new();
    let mut p: usize = 0;
    while p < order.len()
        invariant
            joints_in_limit(*prev),
            is_stable_order(cands.len() as int, key, order@),
            all.len() == cands.len(),
            forall|j: int, i: int|
                0 <= j < cands.len() && 0 <= i < 6 ==> #[trigger] all[j][i] == renormalized(
                    cands[j],
                    *prev,
                    i,
                ),
            p <= order.len(),
            r.len() == p,
            forall|q: int, i: int|
                0 <= q < p && 0 <= i < 6 ==> #[trigger] r[q][i] == renormalized(
                    cands[order[q] as int],
                    *prev,
                    i,
                ),
        decreases order.len() - p,
    {
        assert(order[p as int] < cands.len());
        r.push(all[order[p]]);
        p = p + 1;
    }
    proof {
        lemma_ranked(cands, *prev, order@, r@);
        assert(is_ranking(cands, *prev, order@, r@));
    }
    r
}

/// The facts `resolve_continuing` states of a ranking, from the order and
/// the renormalized joints.
proof fn lemma_ranked(cands: Seq<Joints>, prev: Joints, order: Seq<usize>, r: Seq<Joints>)
    requires
        is_stable_order(cands.len() as int, |k: int| angular_distance(cands[k], prev), order),
        r.len() == cands.len(),
        forall|q: int, i: int|
            0 <= q < r.len() && 0 <= i < 6 ==> #[trigger] r[q][i] == renormalized(
                cands[order[q] as int],
                prev,
                i,
            ),
    ensures
        forall|p: int, q: int|
            0 <= p < q < r.len() ==> distance(#[trigger] r[p], prev) <= distance(#[trigger] r[q], prev),
        forall|k: int| 0 <= k < cands.len() ==> distance(r[0], prev) <= angular_distance(#[trigger] cands[k], prev),
        (exists|k: int| 0 <= k < cands.len() && #[trigger] same_joints(cands[k], prev))
            ==> forall|i: int| 0 <= i < 6 ==> #[trigger] r[0][i] == prev[i],
{
    let key = |k: int| angular_distance(cands[k], prev);
    assert forall|q: int| 0 <= q < r.len() implies distance(#[trigger] r[q], prev) == key(
        order[q] as int,
    ) by {
        assert(r[q][0] == renormalized(cands[order[q] as int], prev, 0));
        assert(r[q][1] == renormalized(cands[order[q] as int], prev, 1));
        assert(r[q][2] == renormalized(cands[order[q] as int], prev, 2));
        assert(r[q][3] == renormalized(cands[order[q] as int], prev, 3));
        assert(r[q][4] == renormalized(cands[order[q] as int], prev, 4));
        assert(r[q][5] == renormalized(cands[order[q] as int], prev, 5));
    }
    assert forall|k: int| 0 <= k < cands.len() implies distance(r[0], prev) <= angular_distance(
        #[trigger] cands[k],
        prev,
    ) by {
        assert(lists(order, k));
        let p = choose|p: int| 0 <= p < order.len() && order[p] == k;
        assert(distance(r[0], prev) == key(order[0] as int));
        if p > 0 {
            assert(key(order[0] as int) <= key(order[p] as int));
        }
    }
    if exists|k: int| 0 <= k < cands.len() && #[trigger] same_joints(cands[k], prev) {
        let k = choose|k: int| 0 <= k < cands.len() && #[trigger] same_joints(cands[k], prev);
        assert(angular_distance(cands[k], prev) == 0) by {
            assert(same_angle(cands[k][0] as int, prev[0] as int));
            assert(same_angle(cands[k][1] as int, prev[1] as int));
            assert(same_angle(cands[k][2] as int, prev[2] as int));
            assert(same_angle(cands[k][3] as int, prev[3] as int));
            assert(same_angle(cands[k][4] as int, prev[4] as int));
            assert(same_angle(cands[k][5] as int, prev[5] as int));
        }
        assert(distance(r[0], prev) <= 0);
    }
}

/// Half of `d`, rounded toward zero.
pub open spec fn half(d: int) -> int {
    if d >= 0 {
        d / 2
    } else {
        -((-d) / 2)
    }
}

/// The combination of joints 4 and 6 that the pose fixes at an aligned
/// wrist: their sum, or their difference.
pub open spec fn conserved(j: Joints, coupling: Coupling) -> int {
    match coupling {
        Coupling::Same => j[3] + j[5],
        Coupling::Opposite => j[3] - j[5],
    }
}

/// How far the conserved combination of `c` lies from that of `prev`, the
/// short way round.
pub open spec fn conserved_shift(c: Joints, prev: Joints, coupling: Coupling) -> int {
    normal_of(conserved(c, coupling) - conserved(prev, coupling))
}

/// Joint `i` of the singular candidate `c` after redistribution against
/// `prev`: joints 4 and 6 each move from their previous values by half of
/// the shift (in the same or in opposite directions), joint 5 takes the
/// representative nearest to its previous value, and joints 1 to 3 stay.
pub open spec fn redistributed(c: Joints, prev: Joints, coupling: Coupling, i: int) -> int {
    let d = conserved_shift(c, prev, coupling);
    if i == 3 {
        prev[3] + half(d)
    } else if i == 5 {
        match coupling {
            Coupling::Same => prev[5] + (d - half(d)),
            Coupling::Opposite => prev[5] - (d - half(d)),
        }
    } else if i == 4 {
        prev[4] + normal_of(c[4] - prev[4])
    } else {
        c[i] as int
    }
}

/// `j` is the solution `c` with joints 4 and 6 redistributed against `prev`.
pub open spec fn is_redistribution(j: Joints, c: Joints, prev: Joints) -> bool {
    &&& coupling_of(c[4] as int) is Some
    &&& forall|i: int|
        0 <= i < 6 ==> #[trigger] j[i] == redistributed(c, prev, coupling_of(c[4] as int)->0, i)
}

/// Splits the redistribution at an aligned wrist between joints 4 and 6.
pub fn redistribute(c: &Joints, prev: &Joints, coupling: Coupling) -> (r: Joints)
    requires
        joints_in_limit(*c),
        joints_in_limit(*prev),
    ensures
        forall|i: int| 0 <= i < 6 ==> #[trigger] r[i] == redistributed(*c, *prev, coupling, i),
        same_angle(conserved(r, coupling), conserved(*c, coupling)),
        same_angle(r[4] as int, c[4] as int),
{
    assert(in_limit(c[3] as int) && in_limit(c[5] as int) && in_limit(prev[3] as int) && in_limit(
        prev[5] as int,
    ));
    let (now, before): (i64, i64) = match coupling {
        Coupling::Same => (c[3] + c[5], prev[3] + prev[5]),
        Coupling::Opposite => (c[3] - c[5], prev[3] - prev[5]),
    };
    let d = normalize(now - before);
    let h: i64 = if d >= 0 {
        d / 2
    } else {
        -((-d) / 2)
    };
    assert(in_limit(prev[4] as int));
    let j6: i64 = match coupling {
        Coupling::Same => prev[5] + (d - h),
        Coupling::Opposite => prev[5] - (d - h),
    };
    let r: Joints = [c[0], c[1], c[2], prev[3] + h, nearest_to(c[4], prev[4]), j6];
    proof {
        assert(conserved(r, coupling) == conserved(*prev, coupling) + d);
        lemma_same_angle_arith(
            conserved(*prev, coupling),
            conserved(*prev, coupling),
            d as int,
            conserved(*c, coupling) - conserved(*prev, coupling),
        );
    }
    r
}

/// The singular candidate `c` redistributed against `prev`, where the wrist
/// of `c` is aligned; nothing where it is not.
pub fn resolve_singular(c: &Joints, prev: &Joints) -> (r: Option<Joints>)
    requires
        joints_in_limit(*c),
        joints_in_limit(*prev),
    ensures
        r is Some <==> coupling_of(c[4] as int) is Some,
        r is Some ==> forall|i: int|
            0 <= i < 6 ==> #[trigger] r->0[i] == redistributed(
                *c,
                *prev,
                coupling_of(c[4] as int)->0,
                i,
            ),
{
    match wrist_coupling(c[4]) {
        Some(coupling) => Some(redistribute(c, prev, coupling)),
        None => None,
    }
}

/// Continuity at an aligned wrist, for the same-direction and the
/// opposite-direction coupling alike: a singular candidate that reaches the
/// pose of `prev` (joints 1, 2, 3 and 5 the same angles, and the same
/// conserved combination of joints 4 and 6), however it splits joints 4 and
/// 6, is redistributed to joints 4, 5 and 6 of `prev` exactly, and to the
/// same angles as `prev` elsewhere.
pub proof fn lemma_singular_continuity(c: Joints, prev: Joints, coupling: Coupling)
    requires
        coupling_of(c[4] as int) == Some(coupling),
        same_angle(c[0] as int, prev[0] as int),
        same_angle(c[1] as int, prev[1] as int),
        same_angle(c[2] as int, prev[2] as int),
        same_angle(c[4] as int, prev[4] as int),
        same_angle(conserved(c, coupling), conserved(prev, coupling)),
    ensures
        redistributed(c, prev, coupling, 3) == prev[3],
        redistributed(c, prev, coupling, 4) == prev[4],
        redistributed(c, prev, coupling, 5) == prev[5],
        forall|i: int|
            0 <= i < 6 ==> #[trigger] same_angle(redistributed(c, prev, coupling, i), prev[i] as int),
{
    let x = conserved(c, coupling) - conserved(prev, coupling);
    lemma_same_angle_arith(x, 0, 0, 0);
    lemma_normal_same(x, 0);
    lemma_normal_same(c[4] - prev[4], 0);
    assert(same_angle(c[4] - prev[4], 0));
    assert forall|i: int| 0 <= i < 6 implies #[trigger] same_angle(
        redistributed(c, prev, coupling, i),
        prev[i] as int,
    ) by {
        lemma_same_angle_arith(prev[i] as int, prev[i] as int, 0, 0);
    }
}

/// Continuity under perturbation: where a singular solution found near the
/// pose reaches the pose of `prev` (as `lemma_singular_continuity` asks),
/// its redistribution ranks first among the continuing solutions and is
/// `prev` itself, whatever the exact solutions are.
pub proof fn lemma_continuity_ranks_previous_first(
    exact: Seq<Joints>,
    c: Joints,
    j: Joints,
    prev: Joints,
    order: Seq<usize>,
    r: Seq<Joints>,
)
    requires
        coupling_of(c[4] as int) is Some,
        same_angle(c[0] as int, prev[0] as int),
        same_angle(c[1] as int, prev[1] as int),
        same_angle(c[2] as int, prev[2] as int),
        same_angle(c[4] as int, prev[4] as int),
        same_angle(
            conserved(c, coupling_of(c[4] as int)->0),
            conserved(prev, coupling_of(c[4] as int)->0),
        ),
        is_redistribution(j, c, prev),
        is_ranking(continuing_candidates(exact, Some(j)), prev, order, r),
    ensures
        forall|i: int| 0 <= i < 6 ==> #[trigger] r[0][i] == prev[i],
{
    let coupling = coupling_of(c[4] as int)->0;
    lemma_singular_continuity(c, prev, coupling);
    let cands = continuing_candidates(exact, Some(j));
    assert forall|i: int| 0 <= i < 6 implies #[trigger] same_angle(j[i] as int, prev[i] as int) by {
        assert(j[i] == redistributed(c, prev, coupling, i));
    }
    assert(cands[cands.len() - 1] == j);
    assert(same_joints(cands[cands.len() - 1], prev));
    lemma_ranked(cands, prev, order, r);
}

} // verus!
