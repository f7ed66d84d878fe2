//! Joint vectors and the per-joint offset and sign convention.
use vstd::prelude::*;
use crate::angle::{
    in_limit, lemma_normal_of, lemma_same_angle_arith, normal_of, normalize, same_angle, ANGLE_LIMIT,
};

verus! {

/// Six joint angles, J1 to J6, in nanodegrees.
pub type Joints = [i64; 6];

/// Every joint of `j` lies within `ANGLE_LIMIT`.
pub open spec fn joints_in_limit(j: Joints) -> bool {
    forall|i: int| 0 <= i < 6 ==> #[trigger] in_limit(j[i] as int)
}

/// Per-joint recoding between the caller's joint angles and the model's
/// own angles: an offset and a sign correction for each joint.
#[derive(Clone, Copy, Debug)]
pub struct JointConvention {
    pub offsets: [i64; 6],
    pub sign_corrections: [i64; 6],
}

impl JointConvention {
    /// Each sign correction is `1` or `-1`, each offset within `ANGLE_LIMIT`.
    pub open spec fn wf(&self) -> bool {
        &&& forall|i: int|
            0 <= i < 6 ==> (#[trigger] self.sign_corrections[i] == 1 || self.sign_corrections[i]
                == -1)
        &&& forall|i: int| 0 <= i < 6 ==> in_limit(#[trigger] self.offsets[i] as int)
    }
}

/// The model angle of a caller's joint angle: `joint * sign - offset`.
pub open spec fn decoded(joint: int, offset: int, sign: int) -> int {
    joint * sign - offset
}

/// The caller's joint angle of a model angle: `(theta + offset) * sign`,
/// wrapped into a half-open turn.
pub open spec fn encoded(theta: int, offset: int, sign: int) -> int {
    normal_of((theta + offset) * sign)
}

/// Turns a model angle into the caller's joint angle.
pub fn encode_angle(theta: i64, offset: i64, sign: i64) -> (r: i64)
    requires
        sign == 1 || sign == -1,
        -2 * ANGLE_LIMIT <= theta <= 2 * ANGLE_LIMIT,
        in_limit(offset as int),
    ensures
        r == encoded(theta as int, offset as int, sign as int),
{
    let s: i64 = theta + offset;
    let v: i64 = if sign == 1 {
        s
    } else {
        -s
    };
    normalize(v)
}

/// Turns a caller's joint angle into the model angle.
pub fn decode_angle(joint: i64, offset: i64, sign: i64) -> (r: i64)
    requires
        sign == 1 || sign == -1,
        in_limit(joint as int),
        in_limit(offset as int),
    ensures
        r == decoded(joint as int, offset as int, sign as int),
{
    let v: i64 = if sign == 1 {
        joint
    } else {
        -joint
    };
    v - offset
}

/// The model angles of the joint vector `joints`: the first step of the
/// forward transform.
pub fn decode(joints: &Joints, conv: &JointConvention) -> (r: Joints)
    requires
        conv.wf(),
        joints_in_limit(*joints),
    ensures
        forall|i: int|
            0 <= i < 6 ==> #[trigger] r[i] == decoded(
                joints[i] as int,
                conv.offsets[i] as int,
                conv.sign_corrections[i] as int,
            ),
{
    let mut r: Joints = [0i64; 6];
    let mut i: usize = 0;
    while i < 6
        invariant
            conv.wf(),
            joints_in_limit(*joints),
            0 <= i <= 6,
            forall|k: int|
                0 <= k < i ==> #[trigger] r[k] == decoded(
                    joints[k] as int,
                    conv.offsets[k] as int,
                    conv.sign_corrections[k] as int,
                ),
        decreases 6 - i,
    {
        assert(in_limit(joints[i as int] as int));
        assert(conv.sign_corrections[i as int] == 1 || conv.sign_corrections[i as int] == -1);
        r[i] = decode_angle(joints[i], conv.offsets[i], conv.sign_corrections[i]);
        i = i + 1;
    }
    r
}

/// Turns model angles into the caller's joint angles, each wrapped into a
/// half-open turn.
pub fn encode(theta: &Joints, conv: &JointConvention) -> (r: Joints)
    requires
        conv.wf(),
        forall|i: int| 0 <= i < 6 ==> -2 * ANGLE_LIMIT <= #[trigger] theta[i] <= 2 * ANGLE_LIMIT,
    ensures
        forall|i: int|
            0 <= i < 6 ==> #[trigger] r[i] == encoded(
                theta[i] as int,
                conv.offsets[i] as int,
                conv.sign_corrections[i] as int,
            ),
{
    let mut r: Joints = [0i64; 6];
    let mut i: usize = 0;
    while i < 6
        invariant
            conv.wf(),
            forall|k: int| 0 <= k < 6 ==> -2 * ANGLE_LIMIT <= #[trigger] theta[k] <= 2 * ANGLE_LIMIT,
            0 <= i <= 6,
            forall|k: int|
                0 <= k < i ==> #[trigger] r[k] == encoded(
                    theta[k] as int,
                    conv.offsets[k] as int,
                    conv.sign_corrections[k] as int,
                ),
        decreases 6 - i,
    {
        assert(in_limit(conv.offsets[i as int] as int));
        assert(-2 * ANGLE_LIMIT <= theta[i as int] <= 2 * ANGLE_LIMIT);
        r[i] = encode_angle(theta[i], conv.offsets[i], conv.sign_corrections[i]);
        i = i + 1;
    }
    r
}

/// Decoding undoes encoding: the model angle read back from the joint angle
/// that `theta` was encoded to is `theta`, up to whole turns.
pub proof fn lemma_decode_encode(theta: int, offset: int, sign: int)
    requires
        sign == 1 || sign == -1,
    ensures
        same_angle(decoded(encoded(theta, offset, sign), offset, sign), theta),
{
    let x = (theta + offset) * sign;
    let e = encoded(theta, offset, sign);
    lemma_normal_of(x);
    if sign == 1 {
        assert(x == theta + offset);
        assert(decoded(e, offset, sign) == e - offset);
        lemma_same_angle_arith(e, x, offset, offset);
    } else {
        assert(x == -(theta + offset)) by (nonlinear_arith)
            requires
                sign == -1,
                x == (theta + offset) * sign,
        ;
        assert(e * sign == -e) by (nonlinear_arith)
            requires
                sign == -1,
        ;
        lemma_same_angle_arith(0, 0, e, x);
        lemma_same_angle_arith(-e, -x, offset, offset);
    }
}

} // verus!
