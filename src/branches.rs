//! The eight algebraic branches of the inverse solution, and the selection of
//! those that survived the round trip through the forward transform.
use vstd::prelude::*;
use crate::angle::{in_limit, HALF_TURN};
use crate::joints::{decoded, encode, encoded, lemma_decode_encode, JointConvention, Joints};
use crate::angle::same_angle;

verus! {

/// Below this magnitude of theta5 (about 1e-6 rad) the wrist axes are taken
/// as aligned, and theta4 and theta6 are no longer solved one by one.
pub const WRIST_ZERO: i64 = 57_296;

/// Model angles of one of the four arm solutions: a choice of shoulder side
/// (theta1) and of elbow (theta2, theta3), with the wrist angles for it.
/// `None` marks an angle that came out undefined (an unreachable branch).
#[derive(Clone, Copy, Debug)]
pub struct ArmSolution {
    pub theta1: Option<i64>,
    pub theta2: Option<i64>,
    pub theta3: Option<i64>,
    /// Wrist solution in the general case.
    pub theta4: Option<i64>,
    pub theta5: Option<i64>,
    pub theta6: Option<i64>,
    /// theta6 for the aligned wrist, where theta4 is fixed at zero.
    pub aligned_theta6: Option<i64>,
}

pub open spec fn opt_in_limit(a: Option<i64>) -> bool {
    a is Some ==> in_limit(a->0 as int)
}

impl ArmSolution {
    /// Every defined angle lies within `ANGLE_LIMIT`.
    pub open spec fn wf(&self) -> bool {
        &&& opt_in_limit(self.theta1)
        &&& opt_in_limit(self.theta2)
        &&& opt_in_limit(self.theta3)
        &&& opt_in_limit(self.theta4)
        &&& opt_in_limit(self.theta5)
        &&& opt_in_limit(self.theta6)
        &&& opt_in_limit(self.aligned_theta6)
    }

    /// theta5 is defined and within `WRIST_ZERO` of zero.
    pub open spec fn wrist_aligned(&self) -> bool {
        self.theta5 is Some && -WRIST_ZERO < self.theta5->0 < WRIST_ZERO
    }

    /// theta4 of this arm solution: zero where the wrist is aligned.
    pub open spec fn wrist4(&self) -> Option<i64> {
        if self.wrist_aligned() {
            Some(0i64)
        } else {
            self.theta4
        }
    }

    /// theta6 of this arm solution.
    pub open spec fn wrist6(&self) -> Option<i64> {
        if self.wrist_aligned() {
            self.aligned_theta6
        } else {
            self.theta6
        }
    }

    /// All six model angles are defined.
    pub open spec fn defined(&self) -> bool {
        &&& self.theta1 is Some
        &&& self.theta2 is Some
        &&& self.theta3 is Some
        &&& self.wrist4() is Some
        &&& self.theta5 is Some
        &&& self.wrist6() is Some
    }

    /// Model angle `i` of this arm solution, or of its wrist flip: theta4
    /// turned by a half turn, theta5 negated, theta6 turned back by a half
    /// turn.
    pub open spec fn raw(&self, flip: bool, i: int) -> int {
        if i == 0 {
            self.theta1->0 as int
        } else if i == 1 {
            self.theta2->0 as int
        } else if i == 2 {
            self.theta3->0 as int
        } else if i == 3 {
            if flip {
                self.wrist4()->0 + HALF_TURN
            } else {
                self.wrist4()->0 as int
            }
        } else if i == 4 {
            if flip {
                -self.theta5->0
            } else {
                self.theta5->0 as int
            }
        } else {
            if flip {
                self.wrist6()->0 - HALF_TURN
            } else {
                self.wrist6()->0 as int
            }
        }
    }
}

/// The arm solution behind candidate `k`: candidates 4 to 7 are the wrist
/// flips of candidates 0 to 3.
pub open spec fn arm_of(arms: [ArmSolution; 4], k: int) -> ArmSolution {
    arms[k % 4]
}

/// Joint `i` of candidate `k`, as the caller reads joints.
pub open spec fn candidate_joint(
    arms: [ArmSolution; 4],
    conv: JointConvention,
    k: int,
    i: int,
) -> int {
    encoded(
        arm_of(arms, k).raw(k >= 4, i),
        conv.offsets[i] as int,
        conv.sign_corrections[i] as int,
    )
}

/// `c` is candidate `k` of `arms`: undefined exactly where an angle of its
/// arm solution is, and otherwise the encoded, wrapped model angles.
pub open spec fn is_candidate(
    arms: [ArmSolution; 4],
    conv: JointConvention,
    k: int,
    c: Option<Joints>,
) -> bool {
    &&& (c is Some <==> arm_of(arms, k).defined())
    &&& c is Some ==> forall|i: int|
        0 <= i < 6 ==> #[trigger] c->0[i] == candidate_joint(arms, conv, k, i)
}

/// Reading a candidate back through the joint convention gives the model
/// angles of its branch, up to whole turns: what the forward transform
/// starts from is what the branch solved for.
pub proof fn lemma_candidate_round_trip(arms: [ArmSolution; 4], conv: JointConvention, k: int, i: int)
    requires
        conv.wf(),
        0 <= i < 6,
    ensures
        same_angle(
            decoded(
                candidate_joint(arms, conv, k, i),
                conv.offsets[i] as int,
                conv.sign_corrections[i] as int,
            ),
            arm_of(arms, k).raw(k >= 4, i),
        ),
{
    assert(conv.sign_corrections[i] == 1 || conv.sign_corrections[i] == -1);
    lemma_decode_encode(
        arm_of(arms, k).raw(k >= 4, i),
        conv.offsets[i] as int,
        conv.sign_corrections[i] as int,
    );
}

/// One candidate from one arm solution, flipped or not.
fn arm_candidate(arm: &ArmSolution, flip: bool, conv: &JointConvention) -> (r: Option<Joints>)
    requires
        arm.wf(),
        conv.wf(),
    ensures
        r is Some <==> arm.defined(),
        r is Some ==> forall|i: int|
            0 <= i < 6 ==> #[trigger] r->0[i] == encoded(
                arm.raw(flip, i),
                conv.offsets[i] as int,
                conv.sign_corrections[i] as int,
            ),
{
    let aligned = match arm.theta5 {
        Some(t5) => -WRIST_ZERO < t5 && t5 < WRIST_ZERO,
        None => false,
    };
    let (w4, w6) = if aligned {
        (Some(0i64), arm.aligned_theta6)
    } else {
        (arm.theta4, arm.theta6)
    };
    match (arm.theta1, arm.theta2, arm.theta3, w4, arm.theta5, w6) {
        (Some(t1), Some(t2), Some(t3), Some(t4), Some(t5), Some(t6)) => {
            let raw: Joints = if flip {
                [t1, t2, t3, t4 + HALF_TURN, -t5, t6 - HALF_TURN]
            } else {
                [t1, t2, t3, t4, t5, t6]
            };
            assert(forall|i: int| 0 <= i < 6 ==> #[trigger] raw[i] == arm.raw(flip, i));
            Some(encode(&raw, conv))
        },
        _ => None,
    }
}

/// The eight candidates of the inverse solution, in enumeration order: the
/// four arm solutions, then the wrist flip of each.
pub fn inverse_candidates(arms: &[ArmSolution; 4], conv: &JointConvention) -> (r: Vec<
    Option<Joints>,
>)
    requires
        forall|k: int| 0 <= k < 4 ==> (#[trigger] arms[k]).wf(),
        conv.wf(),
    ensures
        r.len() == 8,
        forall|k: int| 0 <= k < 8 ==> #[trigger] is_candidate(*arms, *conv, k, r[k]),
{
    let mut r: Vec<Option<Joints>> = Vec::new();
    let mut k: usize = 0;
    while k < 8
        invariant
            forall|j: int| 0 <= j < 4 ==> (#[trigger] arms[j]).wf(),
            conv.wf(),
            k <= 8,
            r.len() == k,
            forall|j: int| 0 <= j < k ==> #[trigger] is_candidate(*arms, *conv, j, r[j]),
        decreases 8 - k,
    {
        let arm = &arms[k % 4];
        assert(arms[(k % 4) as int].wf());
        let c = arm_candidate(arm, k >= 4, conv);
        r.push(c);
        k = k + 1;
    }
    r
}

/// The candidates that are defined and marked in `ok`, in their order.
pub open spec fn kept(cands: Seq<Option<Joints>>, ok: Seq<bool>) -> Seq<Joints>
    decreases cands.len(),
{
    if cands.len() == 0 {
        Seq::empty()
    } else {
        let k = cands.len() - 1;
        let rest = kept(cands.drop_last(), ok);
        if cands[k] is Some && ok[k] {
            rest.push(cands[k]->0)
        } else {
            rest
        }
    }
}

/// What is kept is no longer than what was offered, and each kept vector is
/// a defined candidate marked in `ok`.
pub proof fn lemma_kept(cands: Seq<Option<Joints>>, ok: Seq<bool>)
    ensures
        kept(cands, ok).len() <= cands.len(),
        forall|j: int|
            0 <= j < kept(cands, ok).len() ==> exists|k: int|
                0 <= k < cands.len() && cands[k] == Some(#[trigger] kept(cands, ok)[j]) && ok[k],
    decreases cands.len(),
{
    if cands.len() > 0 {
        let k = cands.len() - 1;
        let prefix = cands.drop_last();
        lemma_kept(prefix, ok);
        let rest = kept(prefix, ok);
        assert forall|j: int|
            0 <= j < kept(cands, ok).len() implies exists|m: int|
                0 <= m < cands.len() && cands[m] == Some(#[trigger] kept(cands, ok)[j]) && ok[m] by {
            if j < rest.len() {
                let m = choose|m: int| 0 <= m < prefix.len() && prefix[m] == Some(rest[j]) && ok[m];
                assert(cands[m] == prefix[m]);
            } else {
                assert(cands[k] == Some(kept(cands, ok)[j]));
            }
        }
    }
}

/// The candidates that are defined and whose round trip through the forward
/// transform succeeded (`verified[k]`), in enumeration order.
pub fn keep_verified(cands: &Vec<Option<Joints>>, verified: &Vec<bool>) -> (r: Vec<Joints>)
    requires
        verified.len() == cands.len(),
    ensures
        r@ == kept(cands@, verified@),
        r.len() <= cands.len(),
        forall|j: int|
            0 <= j < r.len() ==> exists|k: int|
                0 <= k < cands.len() && cands[k] == Some(#[trigger] r[j]) && verified[k],
{
    let mut r: Vec<Joints> = Vec::new();
    let mut k: usize = 0;
    while k < cands.len()
        invariant
            verified.len() == cands.len(),
            k <= cands.len(),
            r@ == kept(cands@.take(k as int), verified@),
        decreases cands.len() - k,
    {
        assert(cands@.take(k as int + 1).drop_last() =~= cands@.take(k as int));
        match cands[k] {
            Some(c) => {
                if verified[k] {
                    r.push(c);
                }
            },
            None => {},
        }
        k = k + 1;
    }
    assert(cands@.take(cands.len() as int) =~= cands@);
    proof {
        lemma_kept(cands@, verified@);
    }
    r
}

} // verus!
