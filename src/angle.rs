//! Exact angles: integer nanodegrees, a full turn being `TURN`.
use vstd::prelude::*;
use vstd::arithmetic::div_mod::{lemma_fundamental_div_mod, lemma_mod_multiples_basic};

verus! {

/// Nanodegrees in a full turn.
pub const TURN: i64 = 360_000_000_000;

/// Nanodegrees in a half turn.
pub const HALF_TURN: i64 = 180_000_000_000;

/// Largest magnitude of an angle handed to the solver: it leaves room for
/// the sums the solver forms without leaving `i64`.
pub const ANGLE_LIMIT: i64 = 1_152_921_504_606_846_976;

/// An angle within `ANGLE_LIMIT`.
pub open spec fn in_limit(a: int) -> bool {
    -ANGLE_LIMIT <= a <= ANGLE_LIMIT
}

/// An angle in the half-open range `(-HALF_TURN, HALF_TURN]`.
pub open spec fn is_normal(a: int) -> bool {
    -HALF_TURN < a <= HALF_TURN
}

/// Two angles are the same physical angle.
pub open spec fn same_angle(a: int, b: int) -> bool {
    (a - b) % (TURN as int) == 0
}

/// The representative of `a` in `(-HALF_TURN, HALF_TURN]`.
pub open spec fn normal_of(a: int) -> int {
    let r = a % (TURN as int);
    if r > HALF_TURN {
        r - TURN
    } else {
        r
    }
}

/// Wraps an angle into `(-HALF_TURN, HALF_TURN]`.
pub fn normalize(a: i64) -> (r: i64)
    ensures
        r == normal_of(a as int),
        is_normal(r as int),
        same_angle(r as int, a as int),
{
    let mut m: i64 = a % TURN;
    if m < 0 {
        m = m + TURN;
    }
    assert(m == (a as int) % (TURN as int));
    if m > HALF_TURN {
        m - TURN
    } else {
        m
    }
}

/// `same_angle` is the relation "differ by whole turns".
pub proof fn lemma_same_angle_turns(a: int, b: int)
    ensures
        same_angle(a, b) <==> a - b == ((a - b) / (TURN as int)) * TURN,
{
    lemma_fundamental_div_mod(a - b, TURN as int);
    let q = (a - b) / (TURN as int);
    lemma_mod_multiples_basic(q, TURN as int);
}

/// Sums and differences of same angles are same angles, and the relation
/// is an equivalence.
pub proof fn lemma_same_angle_arith(a: int, b: int, c: int, d: int)
    requires
        same_angle(a, b),
        same_angle(c, d),
    ensures
        same_angle(a + c, b + d),
        same_angle(a - c, b - d),
        same_angle(b, a),
        same_angle(a, a),
        same_angle(b, c) ==> same_angle(a, d),
{
    lemma_same_angle_turns(a, b);
    lemma_same_angle_turns(c, d);
    lemma_same_angle_turns(b, c);
    let p = (a - b) / (TURN as int);
    let q = (c - d) / (TURN as int);
    let t = (b - c) / (TURN as int);
    assert((a + c) - (b + d) == (p + q) * TURN) by (nonlinear_arith)
        requires
            a - b == p * TURN,
            c - d == q * TURN,
    ;
    assert((a - c) - (b - d) == (p - q) * TURN) by (nonlinear_arith)
        requires
            a - b == p * TURN,
            c - d == q * TURN,
    ;
    assert(b - a == (-p) * TURN) by (nonlinear_arith)
        requires
            a - b == p * TURN,
    ;
    lemma_mod_multiples_basic(p + q, TURN as int);
    lemma_mod_multiples_basic(p - q, TURN as int);
    lemma_mod_multiples_basic(-p, TURN as int);
    lemma_mod_multiples_basic(0, TURN as int);
    if same_angle(b, c) {
        assert(a - d == (p + t + q) * TURN) by (nonlinear_arith)
            requires
                a - b == p * TURN,
                c - d == q * TURN,
                b - c == t * TURN,
        ;
        lemma_mod_multiples_basic(p + t + q, TURN as int);
    }
}

/// The representative of `a`'s class of angles nearest to `prev`: the
/// result lies in `(prev - HALF_TURN, prev + HALF_TURN]`.
pub fn nearest_to(a: i64, prev: i64) -> (r: i64)
    requires
        in_limit(prev as int),
    ensures
        same_angle(r as int, a as int),
        is_normal(r - prev),
        r == prev + normal_of(a - prev),
{
    let na = normalize(a);
    let np = normalize(prev);
    let d = normalize(na - np);
    proof {
        lemma_same_angle_arith(na as int, a as int, np as int, prev as int);
        lemma_same_angle_arith(d as int, na - np, na - np, a - prev);
        lemma_same_angle_arith(d as int, a - prev, 0, 0);
        lemma_normal_same(d as int, a - prev);
        lemma_same_angle_arith(prev + d, prev + (a - prev), 0, 0);
        lemma_same_angle_arith(prev as int, prev as int, d as int, a - prev);
    }
    prev + d
}

/// The representative of `a` is normal and the same angle as `a`.
pub proof fn lemma_normal_of(a: int)
    ensures
        is_normal(normal_of(a)),
        same_angle(normal_of(a), a),
{
    lemma_fundamental_div_mod(a, TURN as int);
    let q = a / (TURN as int);
    let r = a % (TURN as int);
    if r > HALF_TURN {
        assert(normal_of(a) - a == (-q - 1) * TURN) by (nonlinear_arith)
            requires
                a == TURN * q + r,
                normal_of(a) == r - TURN,
        ;
        lemma_mod_multiples_basic(-q - 1, TURN as int);
    } else {
        assert(normal_of(a) - a == (-q) * TURN) by (nonlinear_arith)
            requires
                a == TURN * q + r,
                normal_of(a) == r,
        ;
        lemma_mod_multiples_basic(-q, TURN as int);
    }
}

/// A normal angle is its own representative, and same angles share one.
pub proof fn lemma_normal_same(a: int, b: int)
    requires
        same_angle(a, b),
    ensures
        normal_of(a) == normal_of(b),
        is_normal(a) ==> normal_of(a) == a,
{
    lemma_fundamental_div_mod(a, TURN as int);
    lemma_fundamental_div_mod(b, TURN as int);
    lemma_same_angle_turns(a, b);
    let p = (a - b) / (TURN as int);
    let qa = a / (TURN as int);
    let qb = b / (TURN as int);
    let ra = a % (TURN as int);
    let rb = b % (TURN as int);
    assert(0 <= ra < TURN && 0 <= rb < TURN);
    assert(ra - rb == (p - qa + qb) * TURN) by (nonlinear_arith)
        requires
            a == TURN * qa + ra,
            b == TURN * qb + rb,
            a - b == p * TURN,
    ;
    assert(ra == rb) by (nonlinear_arith)
        requires
            ra - rb == (p - qa + qb) * TURN,
            0 <= ra < TURN,
            0 <= rb < TURN,
    ;
    if is_normal(a) {
        if a >= 0 {
            assert(qa == 0) by (nonlinear_arith)
                requires
                    a == TURN * qa + ra,
                    0 <= ra < TURN,
                    0 <= a < TURN,
            ;
        } else {
            assert(qa == -1) by (nonlinear_arith)
                requires
                    a == TURN * qa + ra,
                    0 <= ra < TURN,
                    -TURN < a < 0,
            ;
        }
    }
}

} // verus!
