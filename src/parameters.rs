//! The parameter set of a manipulator, and its reading from the parameter
//! file: lines of `key: value`, as in
//!
//! ```text
//! opw_kinematics_geometric_parameters:
//!   a1: 0.15
//!   ...
//! opw_kinematics_joint_offsets: [0.0, 0.0, deg(-90.0), 0.0, 0.0, deg(180.0)]
//! opw_kinematics_joint_sign_corrections: [1, 1, -1, -1, -1, -1]
//! ```
use vstd::prelude::*;
use vstd::string::StringSliceAdditionalSpecFns;
use crate::angle::{in_limit, ANGLE_LIMIT};
use crate::joints::JointConvention;

verus! {

/// Blank characters around keys and values.
pub open spec fn is_blank(c: u8) -> bool {
    c == 32 || c == 9 || c == 13
}

/// The first position from `a` on, below `b`, that is not blank.
pub open spec fn skip_fwd(s: Seq<u8>, a: int, b: int) -> int
    decreases b - a,
{
    if a < b && is_blank(s[a]) {
        skip_fwd(s, a + 1, b)
    } else {
        a
    }
}

/// The end of `s[a..b]` with trailing blanks removed.
pub open spec fn skip_back(s: Seq<u8>, a: int, b: int) -> int
    decreases b - a,
{
    if a < b && is_blank(s[b - 1]) {
        skip_back(s, a, b - 1)
    } else {
        b
    }
}

/// The first position from `p` on, below `end`, that holds `c`; `end` if none.
pub open spec fn next_of(s: Seq<u8>, p: int, end: int, c: u8) -> int
    decreases end - p,
{
    if p >= end {
        end
    } else if s[p] == c {
        p
    } else {
        next_of(s, p + 1, end, c)
    }
}

/// A line starts at `p`.
pub open spec fn line_start(s: Seq<u8>, p: int) -> bool {
    p == 0 || s[p - 1] == 10
}

/// `key` followed by a colon stands at `p`, before `e`.
pub open spec fn key_at(s: Seq<u8>, p: int, e: int, key: Seq<u8>) -> bool {
    &&& p + key.len() < e
    &&& s.subrange(p, p + key.len()) == key
    &&& s[p + key.len()] == 58
}

/// The value of `key` on the line from `p` to `e`: the text after the
/// colon, without surrounding blanks, where the line holds the key.
pub open spec fn value_in_line(s: Seq<u8>, p: int, e: int, key: Seq<u8>) -> Option<(int, int)> {
    let t = skip_fwd(s, p, e);
    if key_at(s, t, e, key) {
        let v = skip_fwd(s, t + key.len() + 1, e);
        Some((v, skip_back(s, v, e)))
    } else {
        None
    }
}

/// The value of `key` on the first line from `p` on that holds it.
pub open spec fn value_from(s: Seq<u8>, p: int, key: Seq<u8>) -> Option<(int, int)>
    decreases s.len() - p,
{
    if p >= s.len() {
        None
    } else if line_start(s, p) && value_in_line(s, p, next_of(s, p, s.len() as int, 10), key) is Some {
        value_in_line(s, p, next_of(s, p, s.len() as int, 10), key)
    } else {
        value_from(s, p + 1, key)
    }
}

fn skip_blanks_fwd(s: &[u8], a: usize, b: usize) -> (r: usize)
    requires
        a <= b <= s@.len(),
    ensures
        r == skip_fwd(s@, a as int, b as int),
        a <= r <= b,
{
    let mut i = a;
    while i < b && (s[i] == 32 || s[i] == 9 || s[i] == 13)
        invariant
            a <= i <= b <= s@.len(),
            skip_fwd(s@, a as int, b as int) == skip_fwd(s@, i as int, b as int),
        decreases b - i,
    {
        i = i + 1;
    }
    i
}

fn skip_blanks_back(s: &[u8], a: usize, b: usize) -> (r: usize)
    requires
        a <= b <= s@.len(),
    ensures
        r == skip_back(s@, a as int, b as int),
        a <= r <= b,
{
    let mut j = b;
    while j > a && (s[j - 1] == 32 || s[j - 1] == 9 || s[j - 1] == 13)
        invariant
            a <= j <= b <= s@.len(),
            skip_back(s@, a as int, b as int) == skip_back(s@, a as int, j as int),
        decreases j - a,
    {
        j = j - 1;
    }
    j
}

fn find_byte(s: &[u8], p: usize, end: usize, c: u8) -> (r: usize)
    requires
        p <= end <= s@.len(),
    ensures
        r == next_of(s@, p as int, end as int, c),
        p <= r <= end,
{
    let mut i = p;
    while i < end && s[i] != c
        invariant
            p <= i <= end <= s@.len(),
            next_of(s@, p as int, end as int, c) == next_of(s@, i as int, end as int, c),
        decreases end - i,
    {
        i = i + 1;
    }
    i
}

fn key_matches(s: &[u8], p: usize, e: usize, key: &[u8]) -> (r: bool)
    requires
        p <= e <= s@.len(),
    ensures
        r == key_at(s@, p as int, e as int, key@),
{
    if key.len() >= e - p {
        return false;
    }
    let mut k: usize = 0;
    while k < key.len()
        invariant
            p + key@.len() < e <= s@.len(),
            k <= key@.len(),
            forall|m: int| 0 <= m < k ==> s@[p + m] == key@[m],
        decreases key.len() - k,
    {
        if s[p + k] != key[k] {
            assert(s@.subrange(p as int, p + key@.len())[k as int] != key@[k as int]);
            return false;
        }
        k = k + 1;
    }
    assert(s@.subrange(p as int, p + key@.len()) =~= key@);
    s[p + key.len()] == 58
}

/// A pair of positions, as integers.
pub open spec fn span_of(r: (usize, usize)) -> (int, int) {
    (r.0 as int, r.1 as int)
}

/// A pair of positions in order, the second at most `n`.
pub open spec fn span_within(r: (usize, usize), n: int) -> bool {
    r.0 <= r.1 <= n
}

/// Where the value of `key` stands in `s`: the first line that holds the
/// key, a colon after it, and the value after the colon, blanks trimmed.
pub fn find_value(s: &[u8], key: &[u8]) -> (r: Option<(usize, usize)>)
    ensures
        r is Some <==> value_from(s@, 0, key@) is Some,
        r is Some ==> value_from(s@, 0, key@) == Some(span_of(r->0)) && span_within(
            r->0,
            s@.len() as int,
        ),
{
    let mut p: usize = 0;
    while p < s.len()
        invariant
            p <= s@.len(),
            value_from(s@, 0, key@) == value_from(s@, p as int, key@),
        decreases s.len() - p,
    {
        if p == 0 || s[p - 1] == 10 {
            let e = find_byte(s, p, s.len(), 10);
            let t = skip_blanks_fwd(s, p, e);
            if key_matches(s, t, e, key) {
                let v = skip_blanks_fwd(s, t + key.len() + 1, e);
                let w = skip_blanks_back(s, v, e);
                return Some((v, w));
            }
        }
        p = p + 1;
    }
    None
}

/// Digits allowed before and after the decimal point.
pub const MAX_DIGITS: u64 = 9;

pub open spec fn pow10(n: nat) -> int
    decreases n,
{
    if n == 0 {
        1
    } else {
        10 * pow10((n - 1) as nat)
    }
}

pub open spec fn is_digit(c: u8) -> bool {
    48 <= c <= 57
}

/// State of reading a decimal number from left to right.
pub struct DecimalScan {
    pub neg: bool,
    pub int_digits: nat,
    pub frac_digits: nat,
    pub dot: bool,
    /// The digits read so far, as one integer.
    pub value: int,
    pub ok: bool,
}

/// Reads the character `c`; `first` tells whether it is the first one. A
/// sign may only come first, one point at most, and at most `MAX_DIGITS`
/// digits on either side of it. A failed reading stays failed.
pub open spec fn scan_step(st: DecimalScan, c: u8, first: bool) -> DecimalScan {
    if !st.ok {
        st
    } else if first && (c == 45 || c == 43) {
        DecimalScan { neg: c == 45, ..st }
    } else if is_digit(c) && !st.dot && st.int_digits < MAX_DIGITS {
        DecimalScan { int_digits: st.int_digits + 1, value: st.value * 10 + (c - 48), ..st }
    } else if is_digit(c) && st.dot && st.frac_digits < MAX_DIGITS {
        DecimalScan { frac_digits: st.frac_digits + 1, value: st.value * 10 + (c - 48), ..st }
    } else if c == 46 && !st.dot {
        DecimalScan { dot: true, ..st }
    } else {
        DecimalScan { ok: false, ..st }
    }
}

/// The state after reading `s[a..i]`.
pub open spec fn dec_scan(s: Seq<u8>, a: int, i: int) -> DecimalScan
    decreases i - a,
{
    if i <= a {
        DecimalScan { neg: false, int_digits: 0, frac_digits: 0, dot: false, value: 0, ok: true }
    } else {
        scan_step(dec_scan(s, a, i - 1), s[i - 1], i - 1 == a)
    }
}

/// The decimal number written in `s[a..b]`, in units of 1e-9: an optional
/// sign, at least one digit, and an optional point with digits after it.
pub open spec fn decimal_value(s: Seq<u8>, a: int, b: int) -> Option<int> {
    let st = dec_scan(s, a, b);
    if st.ok && st.int_digits > 0 {
        let m = st.value * pow10((MAX_DIGITS - st.frac_digits) as nat);
        Some(
            if st.neg {
                -m
            } else {
                m
            },
        )
    } else {
        None
    }
}

proof fn lemma_scan_failed(s: Seq<u8>, a: int, i: int, b: int)
    requires
        a <= i <= b,
        !dec_scan(s, a, i).ok,
    ensures
        !dec_scan(s, a, b).ok,
    decreases b - i,
{
    if i < b {
        lemma_scan_failed(s, a, i + 1, b);
    }
}

/// Reads the decimal number in `s[a..b]`, in units of 1e-9.
pub fn parse_decimal(s: &[u8], a: usize, b: usize) -> (r: Option<i64>)
    requires
        a <= b <= s@.len(),
    ensures
        match decimal_value(s@, a as int, b as int) {
            Some(v) => r == Some(v as i64) && -1_000_000_000_000_000_000 < v
                < 1_000_000_000_000_000_000,
            None => r is None,
        },
{
    let mut neg = false;
    let mut int_digits: u64 = 0;
    let mut frac_digits: u64 = 0;
    let mut dot = false;
    let mut value: i64 = 0;
    let mut i = a;
    while i < b
        invariant
            a <= i <= b <= s@.len(),
            ({
                let st = dec_scan(s@, a as int, i as int);
                &&& st.ok
                &&& st.neg == neg
                &&& st.int_digits == int_digits
                &&& st.frac_digits == frac_digits
                &&& st.dot == dot
                &&& st.value == value
            }),
            int_digits <= MAX_DIGITS,
            frac_digits <= MAX_DIGITS,
            0 <= value < pow10((int_digits + frac_digits) as nat),
            pow10((int_digits + frac_digits) as nat) <= 1_000_000_000_000_000_000,
        decreases b - i,
    {
        let c = s[i];
        let ghost st = dec_scan(s@, a as int, i as int);
        assert(dec_scan(s@, a as int, i + 1) == scan_step(st, c, i == a));
        if i == a && (c == 45 || c == 43) {
            neg = c == 45;
        } else if 48 <= c && c <= 57 && !dot && int_digits < MAX_DIGITS {
            assert(pow10((int_digits + frac_digits + 1) as nat) == 10 * pow10(
                (int_digits + frac_digits) as nat,
            ));
            proof {
                lemma_pow10_le((int_digits + frac_digits + 1) as nat, 18);
                lemma_pow10_18();
                let pw = pow10((int_digits + frac_digits) as nat);
                assert(value * 10 + (c - 48) < 10 * pw) by (nonlinear_arith)
                    requires
                        0 <= value < pw,
                        48 <= c <= 57,
                ;
            }
            value = value * 10 + (c - 48) as i64;
            int_digits = int_digits + 1;
        } else if 48 <= c && c <= 57 && dot && frac_digits < MAX_DIGITS {
            assert(pow10((int_digits + frac_digits + 1) as nat) == 10 * pow10(
                (int_digits + frac_digits) as nat,
            ));
            proof {
                lemma_pow10_le((int_digits + frac_digits + 1) as nat, 18);
                lemma_pow10_18();
                let pw = pow10((int_digits + frac_digits) as nat);
                assert(value * 10 + (c - 48) < 10 * pw) by (nonlinear_arith)
                    requires
                        0 <= value < pw,
                        48 <= c <= 57,
                ;
            }
            value = value * 10 + (c - 48) as i64;
            frac_digits = frac_digits + 1;
        } else if c == 46 && !dot {
            dot = true;
        } else {
            proof {
                lemma_scan_failed(s@, a as int, i + 1, b as int);
            }
            return None;
        }
        i = i + 1;
    }
    if int_digits == 0 {
        return None;
    }
    let ghost v0 = value as int;
    let mut k: u64 = frac_digits;
    assert(pow10(0) == 1);
    assert((k - frac_digits) as nat == 0);
    assert(value == v0 * pow10((k - frac_digits) as nat));
    while k < MAX_DIGITS
        invariant
            frac_digits <= k <= MAX_DIGITS,
            int_digits <= MAX_DIGITS,
            value == v0 * pow10((k - frac_digits) as nat),
            0 <= value < pow10((int_digits + k) as nat),
            pow10((int_digits + k) as nat) <= 1_000_000_000_000_000_000,
        decreases MAX_DIGITS - k,
    {
        assert(pow10((int_digits + k + 1) as nat) == 10 * pow10((int_digits + k) as nat));
        assert(pow10((k + 1 - frac_digits) as nat) == 10 * pow10((k - frac_digits) as nat));
        proof {
            lemma_pow10_le((int_digits + k + 1) as nat, 18);
            lemma_pow10_18();
        }
        assert(value * 10 == v0 * pow10((k + 1 - frac_digits) as nat)) by (nonlinear_arith)
            requires
                value == v0 * pow10((k - frac_digits) as nat),
                pow10((k + 1 - frac_digits) as nat) == 10 * pow10((k - frac_digits) as nat),
        ;
        value = value * 10;
        k = k + 1;
    }
    if neg {
        Some(-value)
    } else {
        Some(value)
    }
}

proof fn lemma_pow10_18()
    ensures
        pow10(18) == 1_000_000_000_000_000_000,
{
    reveal_with_fuel(pow10, 19);
}

proof fn lemma_pow10_le(n: nat, m: nat)
    requires
        n <= m,
    ensures
        1 <= pow10(n) <= pow10(m),
    decreases m,
{
    if n < m {
        lemma_pow10_le(n, (m - 1) as nat);
    } else if n > 0 {
        lemma_pow10_le((n - 1) as nat, (n - 1) as nat);
    }
}

/// Pi, times 10^15, rounded down.
pub const PI_E15: i128 = 3_141_592_653_589_793;

/// `next_of` stays within `p..=end`.
proof fn lemma_next_of_bounds(s: Seq<u8>, p: int, end: int, c: u8)
    requires
        p <= end,
    ensures
        p <= next_of(s, p, end, c) <= end,
    decreases end - p,
{
    if p < end && s[p] != c {
        lemma_next_of_bounds(s, p + 1, end, c);
    }
}

/// Nanodegrees of an angle of `x` nanoradians, rounded toward zero.
pub open spec fn nanodegrees_of_nanoradians(x: int) -> int {
    if x >= 0 {
        x * 180_000_000_000_000_000 / (PI_E15 as int)
    } else {
        -((-x) * 180_000_000_000_000_000 / (PI_E15 as int))
    }
}

/// A joint offset written in `s[a..b]`, in nanodegrees: `deg(x)` is `x`
/// degrees, a plain number is radians.
pub open spec fn offset_value(s: Seq<u8>, a: int, b: int) -> Option<int> {
    if b - a >= 5 && s[a] == 100 && s[a + 1] == 101 && s[a + 2] == 103 && s[a + 3] == 40 && s[b - 1]
        == 41 {
        let ia = skip_fwd(s, a + 4, b - 1);
        match decimal_value(s, ia, skip_back(s, ia, b - 1)) {
            Some(v) => if in_limit(v) {
                Some(v)
            } else {
                None
            },
            None => None,
        }
    } else {
        match decimal_value(s, a, b) {
            Some(x) => if in_limit(nanodegrees_of_nanoradians(x)) {
                Some(nanodegrees_of_nanoradians(x))
            } else {
                None
            },
            None => None,
        }
    }
}

/// A sign correction written in `s[a..b]`: the number 1 or -1.
pub open spec fn sign_value(s: Seq<u8>, a: int, b: int) -> Option<int> {
    match decimal_value(s, a, b) {
        Some(v) => if v == 1_000_000_000 {
            Some(1)
        } else if v == -1_000_000_000 {
            Some(-1)
        } else {
            None
        },
        None => None,
    }
}

pub open spec fn item_value(s: Seq<u8>, a: int, b: int, signs: bool) -> Option<int> {
    if signs {
        sign_value(s, a, b)
    } else {
        offset_value(s, a, b)
    }
}

/// The comma-separated items of `s[p..end]`, each without surrounding
/// blanks; nothing if one of them is not a value.
pub open spec fn list_items(s: Seq<u8>, p: int, end: int, signs: bool) -> Option<Seq<int>>
    decreases end - p,
    via list_items_decreases
{
    let q = next_of(s, p, end, 44);
    let a = skip_fwd(s, p, q);
    let v = item_value(s, a, skip_back(s, a, q), signs);
    if v is None {
        None
    } else if q >= end {
        Some(seq![v->0])
    } else {
        match list_items(s, q + 1, end, signs) {
            Some(rest) => Some(seq![v->0] + rest),
            None => None,
        }
    }
}

#[via_fn]
proof fn list_items_decreases(s: Seq<u8>, p: int, end: int, signs: bool) {
    if p <= end {
        lemma_next_of_bounds(s, p, end, 44);
    }
}

/// The list written in `s[a..b]`: items between square brackets.
pub open spec fn list_value(s: Seq<u8>, a: int, b: int, signs: bool) -> Option<Seq<int>> {
    if b - a >= 2 && s[a] == 91 && s[b - 1] == 93 {
        list_items(s, a + 1, b - 1, signs)
    } else {
        None
    }
}

fn parse_offset(s: &[u8], a: usize, b: usize) -> (r: Option<i64>)
    requires
        a <= b <= s@.len(),
    ensures
        match offset_value(s@, a as int, b as int) {
            Some(v) => r == Some(v as i64) && in_limit(v),
            None => r is None,
        },
{
    if b - a >= 5 && s[a] == 100 && s[a + 1] == 101 && s[a + 2] == 103 && s[a + 3] == 40 && s[b - 1]
        == 41 {
        let ia = skip_blanks_fwd(s, a + 4, b - 1);
        let ib = skip_blanks_back(s, ia, b - 1);
        match parse_decimal(s, ia, ib) {
            Some(v) => if -ANGLE_LIMIT <= v && v <= ANGLE_LIMIT {
                Some(v)
            } else {
                None
            },
            None => None,
        }
    } else {
        match parse_decimal(s, a, b) {
            Some(x) => {
                let wide = x as i128;
                let d: i128 = if wide >= 0 {
                    wide * 180_000_000_000_000_000 / PI_E15
                } else {
                    -((-wide) * 180_000_000_000_000_000 / PI_E15)
                };
                if -(ANGLE_LIMIT as i128) <= d && d <= ANGLE_LIMIT as i128 {
                    Some(d as i64)
                } else {
                    None
                }
            },
            None => None,
        }
    }
}

fn parse_sign(s: &[u8], a: usize, b: usize) -> (r: Option<i64>)
    requires
        a <= b <= s@.len(),
    ensures
        match sign_value(s@, a as int, b as int) {
            Some(v) => r == Some(v as i64),
            None => r is None,
        },
{
    match parse_decimal(s, a, b) {
        Some(v) => if v == 1_000_000_000 {
            Some(1)
        } else if v == -1_000_000_000 {
            Some(-1)
        } else {
            None
        },
        None => None,
    }
}

/// `r` holds the values `vs`.
pub open spec fn holds_values(r: Seq<i64>, vs: Seq<int>) -> bool {
    r.len() == vs.len() && forall|i: int| 0 <= i < vs.len() ==> #[trigger] r[i] == vs[i]
}

/// Reads the list in `s[a..b]`, offsets or sign corrections.
pub fn parse_list(s: &[u8], a: usize, b: usize, signs: bool) -> (r: Option<Vec<i64>>)
    requires
        a <= b <= s@.len(),
    ensures
        match list_value(s@, a as int, b as int, signs) {
            Some(vs) => r is Some && holds_values(r->0@, vs),
            None => r is None,
        },
{
    if !(b - a >= 2 && s[a] == 91 && s[b - 1] == 93) {
        return None;
    }
    let end = b - 1;
    let ghost whole = list_items(s@, a + 1, end as int, signs);
    let mut acc: Vec<i64> = Vec::new();
    let mut p = a + 1;
    loop
        invariant
            a + 1 <= p <= end < s@.len(),
            whole == list_items(s@, a + 1, end as int, signs),
            list_value(s@, a as int, b as int, signs) == whole,
            match list_items(s@, p as int, end as int, signs) {
                Some(rest) => whole == Some(acc@.map_values(|v: i64| v as int) + rest),
                None => whole is None,
            },
        decreases end - p,
    {
        let q = find_byte(s, p, end, 44);
        let ia = skip_blanks_fwd(s, p, q);
        let ib = skip_blanks_back(s, ia, q);
        let v = if signs {
            parse_sign(s, ia, ib)
        } else {
            parse_offset(s, ia, ib)
        };
        proof {
            lemma_next_of_bounds(s@, p as int, end as int, 44);
        }
        match v {
            None => {
                assert(whole is None);
                return None;
            },
            Some(x) => {
                let ghost before = acc@.map_values(|v: i64| v as int);
                acc.push(x);
                assert(acc@.map_values(|v: i64| v as int) =~= before + seq![x as int]);
                if q >= end {
                    assert(whole == Some(acc@.map_values(|v: i64| v as int)));
                    proof {
                        let m = acc@.map_values(|v: i64| v as int);
                        assert(holds_values(acc@, m));
                    }
                    return Some(acc);
                }
                proof {
                    let rest = list_items(s@, q + 1, end as int, signs);
                    if rest is Some {
                        assert(before + seq![x as int] + rest->0 =~= before + (seq![x as int]
                            + rest->0));
                    }
                }
                p = q + 1;
            },
        }
    }
}

/// Why a parameter file could not be read.
#[derive(Clone, Copy, Debug, PartialEq, Eq, Structural)]
pub enum ParameterError {
    /// No line holds one of the keys.
    MissingKey,
    /// A value is not of the form its key asks for.
    BadValue,
}

/// The geometry of a manipulator, lengths in nanometers (a1, a2, b, c1 to
/// c4), with its joint offsets in nanodegrees and its sign corrections.
#[derive(Clone, Copy, Debug, PartialEq, Eq)]
pub struct Parameters {
    pub a1: i64,
    pub a2: i64,
    pub b: i64,
    pub c1: i64,
    pub c2: i64,
    pub c3: i64,
    pub c4: i64,
    pub offsets: [i64; 6],
    pub sign_corrections: [i64; 6],
}

/// The length under `key`, in nanometers.
pub open spec fn length_field(s: Seq<u8>, key: &str) -> Result<int, ParameterError> {
    match value_from(s, 0, key.spec_bytes()) {
        None => Err(ParameterError::MissingKey),
        Some((a, b)) => match decimal_value(s, a, b) {
            Some(v) => Ok(v),
            None => Err(ParameterError::BadValue),
        },
    }
}

/// The list of six values under `key`.
pub open spec fn list_field(s: Seq<u8>, key: &str, signs: bool) -> Result<
    Seq<int>,
    ParameterError,
> {
    match value_from(s, 0, key.spec_bytes()) {
        None => Err(ParameterError::MissingKey),
        Some((a, b)) => match list_value(s, a, b, signs) {
            Some(vs) => if vs.len() == 6 {
                Ok(vs)
            } else {
                Err(ParameterError::BadValue)
            },
            None => Err(ParameterError::BadValue),
        },
    }
}

/// The first error in the order a1, a2, b, c1, c2, c3, c4, offsets, sign
/// corrections; nothing if every key holds a good value.
pub open spec fn first_error(s: Seq<u8>) -> Option<ParameterError> {
    if length_field(s, "a1") is Err {
        Some(length_field(s, "a1")->Err_0)
    } else if length_field(s, "a2") is Err {
        Some(length_field(s, "a2")->Err_0)
    } else if length_field(s, "b") is Err {
        Some(length_field(s, "b")->Err_0)
    } else if length_field(s, "c1") is Err {
        Some(length_field(s, "c1")->Err_0)
    } else if length_field(s, "c2") is Err {
        Some(length_field(s, "c2")->Err_0)
    } else if length_field(s, "c3") is Err {
        Some(length_field(s, "c3")->Err_0)
    } else if length_field(s, "c4") is Err {
        Some(length_field(s, "c4")->Err_0)
    } else if list_field(s, "opw_kinematics_joint_offsets", false) is Err {
        Some(list_field(s, "opw_kinematics_joint_offsets", false)->Err_0)
    } else if list_field(s, "opw_kinematics_joint_sign_corrections", true) is Err {
        Some(list_field(s, "opw_kinematics_joint_sign_corrections", true)->Err_0)
    } else {
        None
    }
}

/// `p` holds the values that the keys of `s` give.
pub open spec fn read_from(p: Parameters, s: Seq<u8>) -> bool {
    &&& p.a1 == length_field(s, "a1")->Ok_0
    &&& p.a2 == length_field(s, "a2")->Ok_0
    &&& p.b == length_field(s, "b")->Ok_0
    &&& p.c1 == length_field(s, "c1")->Ok_0
    &&& p.c2 == length_field(s, "c2")->Ok_0
    &&& p.c3 == length_field(s, "c3")->Ok_0
    &&& p.c4 == length_field(s, "c4")->Ok_0
    &&& forall|i: int|
        0 <= i < 6 ==> #[trigger] p.offsets[i] == list_field(
            s,
            "opw_kinematics_joint_offsets",
            false,
        )->Ok_0[i]
    &&& forall|i: int|
        0 <= i < 6 ==> #[trigger] p.sign_corrections[i] == list_field(
            s,
            "opw_kinematics_joint_sign_corrections",
            true,
        )->Ok_0[i]
}

fn read_length(text: &[u8], key: &str) -> (r: Result<i64, ParameterError>)
    ensures
        length_field(text@, key) is Ok ==> r is Ok && r->Ok_0 == length_field(text@, key)->Ok_0,
        length_field(text@, key) is Err ==> r is Err && r->Err_0 == length_field(text@, key)->Err_0,
{
    match find_value(text, key.as_bytes()) {
        None => Err(ParameterError::MissingKey),
        Some((a, b)) => match parse_decimal(text, a, b) {
            Some(v) => Ok(v),
            None => Err(ParameterError::BadValue),
        },
    }
}

fn read_list(text: &[u8], key: &str, signs: bool) -> (r: Result<[i64; 6], ParameterError>)
    ensures
        list_field(text@, key, signs) is Ok ==> r is Ok && forall|i: int|
            0 <= i < 6 ==> #[trigger] r->Ok_0[i] == list_field(text@, key, signs)->Ok_0[i],
        list_field(text@, key, signs) is Err ==> r is Err && r->Err_0 == list_field(
            text@,
            key,
            signs,
        )->Err_0,
{
    match find_value(text, key.as_bytes()) {
        None => Err(ParameterError::MissingKey),
        Some((a, b)) => match parse_list(text, a, b, signs) {
            Some(vs) => if vs.len() == 6 {
                Ok([vs[0], vs[1], vs[2], vs[3], vs[4], vs[5]])
            } else {
                Err(ParameterError::BadValue)
            },
            None => Err(ParameterError::BadValue),
        },
    }
}

impl Parameters {
    /// Offsets within `ANGLE_LIMIT`, sign corrections `1` or `-1`.
    pub open spec fn wf(&self) -> bool {
        self.convention_spec().wf()
    }

    pub open spec fn convention_spec(&self) -> JointConvention {
        JointConvention { offsets: self.offsets, sign_corrections: self.sign_corrections }
    }

    /// The joint offsets and sign corrections.
    pub fn convention(&self) -> (r: JointConvention)
        ensures
            r == self.convention_spec(),
    {
        JointConvention { offsets: self.offsets, sign_corrections: self.sign_corrections }
    }

    /// Reads a parameter file. Each key is looked up on the first line
    /// that holds it, at any indentation: the lengths a1, a2, b, c1, c2,
    /// c3, c4 in meters (decimal numbers, read to the nanometer),
    /// `opw_kinematics_joint_offsets` as six offsets (`deg(x)` in degrees,
    /// plain numbers in radians), `opw_kinematics_joint_sign_corrections`
    /// as six of 1 and -1. The first missing key or bad value, in that
    /// order, is the error.
    pub fn from_yaml(text: &[u8]) -> (r: Result<Parameters, ParameterError>)
        ensures
            match first_error(text@) {
                Some(e) => r == Err::<Parameters, ParameterError>(e),
                None => r is Ok && read_from(r->Ok_0, text@) && r->Ok_0.wf(),
            },
    {
        let a1 = match read_length(text, "a1") {
            Ok(v) => v,
            Err(e) => return Err(e),
        };
        let a2 = match read_length(text, "a2") {
            Ok(v) => v,
            Err(e) => return Err(e),
        };
        let b = match read_length(text, "b") {
            Ok(v) => v,
            Err(e) => return Err(e),
        };
        let c1 = match read_length(text, "c1") {
            Ok(v) => v,
            Err(e) => return Err(e),
        };
        let c2 = match read_length(text, "c2") {
            Ok(v) => v,
            Err(e) => return Err(e),
        };
        let c3 = match read_length(text, "c3") {
            Ok(v) => v,
            Err(e) => return Err(e),
        };
        let c4 = match read_length(text, "c4") {
            Ok(v) => v,
            Err(e) => return Err(e),
        };
        let offsets = match read_list(text, "opw_kinematics_joint_offsets", false) {
            Ok(v) => v,
            Err(e) => return Err(e),
        };
        let sign_corrections = match read_list(text, "opw_kinematics_joint_sign_corrections", true) {
            Ok(v) => v,
            Err(e) => return Err(e),
        };
        let p = Parameters { a1, a2, b, c1, c2, c3, c4, offsets, sign_corrections };
        proof {
            let offs = list_field(text@, "opw_kinematics_joint_offsets", false)->Ok_0;
            let sgns = list_field(text@, "opw_kinematics_joint_sign_corrections", true)->Ok_0;
            assert forall|i: int| 0 <= i < 6 implies in_limit(#[trigger] offs[i]) by {
                lemma_list_bounds(text@, "opw_kinematics_joint_offsets", false, i);
            }
            assert forall|i: int| 0 <= i < 6 implies #[trigger] sgns[i] == 1 || sgns[i] == -1 by {
                lemma_list_bounds(text@, "opw_kinematics_joint_sign_corrections", true, i);
            }
        }
        Ok(p)
    }
}

/// Offsets read from a list lie within `ANGLE_LIMIT`; sign corrections are
/// `1` or `-1`.
proof fn lemma_list_bounds(s: Seq<u8>, key: &str, signs: bool, i: int)
    requires
        list_field(s, key, signs) is Ok,
        0 <= i < 6,
    ensures
        signs ==> (list_field(s, key, signs)->Ok_0[i] == 1 || list_field(s, key, signs)->Ok_0[i] == -1),
        !signs ==> in_limit(list_field(s, key, signs)->Ok_0[i]),
{
    let (a, b) = value_from(s, 0, key.spec_bytes())->0;
    lemma_items_bounds(s, a + 1, b - 1, signs, i);
}

proof fn lemma_items_bounds(s: Seq<u8>, p: int, end: int, signs: bool, i: int)
    requires
        list_items(s, p, end, signs) is Some,
        0 <= i < list_items(s, p, end, signs)->0.len(),
    ensures
        signs ==> (list_items(s, p, end, signs)->0[i] == 1 || list_items(s, p, end, signs)->0[i] == -1),
        !signs ==> in_limit(list_items(s, p, end, signs)->0[i]),
    decreases end - p,
{
    let q = next_of(s, p, end, 44);
    let a = skip_fwd(s, p, q);
    let b = skip_back(s, a, q);
    if p <= end {
        lemma_next_of_bounds(s, p, end, 44);
    }
    if i > 0 {
        lemma_items_bounds(s, q + 1, end, signs, i - 1);
    }
}

} // verus!
