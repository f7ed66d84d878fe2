//! Classification of the wrist singularity.
use vstd::prelude::*;
use crate::angle::{HALF_TURN, TURN};
use crate::joints::Joints;

verus! {

/// How close (0.01 degree) joint 5 must come to zero or a half turn for the
/// wrist to count as singular.
pub const SINGULARITY_THRESHOLD: i64 = 10_000_000;

/// A kinematic singularity of the manipulator.
#[derive(Clone, Copy, Debug, PartialEq, Eq, Structural)]
pub enum Singularity {
    /// Joint 5 at zero or at a half turn: the axes of joints 4 and 6 are
    /// aligned, and only their sum or difference is determined by the pose.
    A,
}

/// How joints 4 and 6 move together at an aligned wrist.
#[derive(Clone, Copy, Debug, PartialEq, Eq, Structural)]
pub enum Coupling {
    /// Joint 5 near zero: the two joints turn the same way, and the pose
    /// fixes their sum.
    Same,
    /// Joint 5 near a half turn: they turn opposite ways, and the pose fixes
    /// their difference.
    Opposite,
}

/// `a` taken into `[0, TURN)`.
pub open spec fn turn_residue(a: int) -> int {
    a % (TURN as int)
}

/// `a` lies within the threshold of zero, modulo a turn.
pub open spec fn near_zero(a: int) -> bool {
    turn_residue(a) < SINGULARITY_THRESHOLD || turn_residue(a) > TURN - SINGULARITY_THRESHOLD
}

/// `a` lies within the threshold of a half turn, modulo a turn.
pub open spec fn near_half_turn(a: int) -> bool {
    HALF_TURN - SINGULARITY_THRESHOLD < turn_residue(a) < HALF_TURN + SINGULARITY_THRESHOLD
}

/// The coupling of joints 4 and 6 when joint 5 is `j5`, if the wrist is
/// singular there.
pub open spec fn coupling_of(j5: int) -> Option<Coupling> {
    if near_zero(j5) {
        Some(Coupling::Same)
    } else if near_half_turn(j5) {
        Some(Coupling::Opposite)
    } else {
        None
    }
}

/// The wrist is singular at `joints`.
pub open spec fn wrist_singular(joints: Joints) -> bool {
    coupling_of(joints[4] as int) is Some
}

/// Which coupling holds for joint 5 at `j5`, if the wrist is singular.
pub fn wrist_coupling(j5: i64) -> (r: Option<Coupling>)
    ensures
        r == coupling_of(j5 as int),
{
    let mut m: i64 = j5 % TURN;
    if m < 0 {
        m = m + TURN;
    }
    assert(m == turn_residue(j5 as int));
    if m < SINGULARITY_THRESHOLD || m > TURN - SINGULARITY_THRESHOLD {
        Some(Coupling::Same)
    } else if HALF_TURN - SINGULARITY_THRESHOLD < m && m < HALF_TURN + SINGULARITY_THRESHOLD {
        Some(Coupling::Opposite)
    } else {
        None
    }
}

/// The singularity of the joint vector, if any: the aligned wrist when
/// joint 5, taken modulo a turn, lies within the threshold of zero or of a
/// half turn; nothing otherwise.
pub fn kinematic_singularity(joints: &Joints) -> (r: Option<Singularity>)
    ensures
        r == (if near_zero(joints[4] as int) || near_half_turn(joints[4] as int) {
            Some(Singularity::A)
        } else {
            None
        }),
        r is Some <==> wrist_singular(*joints),
{
    match wrist_coupling(joints[4]) {
        Some(_) => Some(Singularity::A),
        None => None,
    }
}

} // verus!
