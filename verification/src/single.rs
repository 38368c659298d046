//! IEEE 754 single precision, as the glyph colours and the intro fade are
//! computed in it, carried out exactly in integers.
//!
//! A value is held as a whole number of units of 2^-149, the smallest
//! subnormal, so every finite single is an integer here. Rounding is to the
//! nearest representable value, ties to even. Magnitudes past the largest
//! finite single are kept as they are instead of becoming infinite.

use vstd::prelude::*;
use vstd::arithmetic::power2::{pow2, lemma_pow2_pos, lemma_pow2_adds, lemma_pow2_strictly_increases, lemma_pow2_unfold, lemma2_to64};
use vstd::arithmetic::div_mod::{lemma_fundamental_div_mod, lemma_mod_pos_bound};
use crate::arith::{lemma_floor_div, lemma_le_floor_div};

verus! {

/// One, in units of 2^-149.
pub open spec fn one() -> int {
    pow2(149) as int
}

/// `p / d` rounded to an integer, ties to even.
pub open spec fn round_half_even(p: int, d: int) -> int {
    let q = p / d;
    let r = p % d;
    if 2 * r < d {
        q
    } else if 2 * r > d {
        q + 1
    } else if q % 2 == 0 {
        q
    } else {
        q + 1
    }
}

/// `2^j` units is the spacing of representable values around `p / d`:
/// `2^(23 + j) <= p / d < 2^(24 + j)`, or `j == 0` below `2^24` (subnormals).
pub open spec fn ulp_fits(p: int, d: int, j: nat) -> bool {
    (j == 0 || d * pow2(23 + j) <= p) && p < d * pow2(24 + j)
}

/// The representable value nearest to `p / d >= 0`, ties to even.
pub open spec fn round_units(p: int, d: int) -> int {
    let j = choose|j: nat| ulp_fits(p, d, j);
    pow2(j) * round_half_even(p, d * pow2(j))
}

/// Rounding of a signed `p / d` (`d > 0`): symmetric about zero.
pub open spec fn round_signed(p: int, d: int) -> int {
    if p < 0 {
        -round_units(-p, d)
    } else {
        round_units(p, d)
    }
}

/// Sum of two values.
pub open spec fn add_s(x: int, y: int) -> int {
    round_signed(x + y, 1)
}

/// Difference of two values.
pub open spec fn sub_s(x: int, y: int) -> int {
    round_signed(x - y, 1)
}

/// Product of two values.
pub open spec fn mul_s(x: int, y: int) -> int {
    round_signed(x * y, one())
}

/// Quotient of two values, for a positive divisor.
pub open spec fn div_s(x: int, y: int) -> int {
    round_signed(x * one(), y)
}

/// An integer converted to single precision.
pub open spec fn from_int(n: int) -> int {
    round_signed(n * one(), 1)
}

/// The decimal literal `n / d` as single precision.
pub open spec fn literal(n: int, d: int) -> int {
    round_units(n * one(), d)
}

/// Conversion to `u8`: truncation towards zero, saturating at 0 and 255.
pub open spec fn to_u8(x: int) -> int {
    if x <= 0 {
        0
    } else if x / one() > 255 {
        255
    } else {
        x / one()
    }
}

proof fn lemma_ulp_unique(p: int, d: int, j1: nat, j2: nat)
    requires
        d > 0,
        ulp_fits(p, d, j1),
        ulp_fits(p, d, j2),
    ensures
        j1 == j2,
{
    if j1 < j2 {
        if 24 + j1 < 23 + j2 {
            lemma_pow2_strictly_increases(24 + j1, 23 + j2);
        }
        assert(d * pow2(24 + j1) <= d * pow2(23 + j2)) by (nonlinear_arith)
            requires
                pow2(24 + j1) <= pow2(23 + j2),
                d > 0,
        ;
    } else if j2 < j1 {
        if 24 + j2 < 23 + j1 {
            lemma_pow2_strictly_increases(24 + j2, 23 + j1);
        }
        assert(d * pow2(24 + j2) <= d * pow2(23 + j1)) by (nonlinear_arith)
            requires
                pow2(24 + j2) <= pow2(23 + j1),
                d > 0,
        ;
    }
}

/// With the spacing known, rounding is a plain round-half-even division.
pub proof fn lemma_round_units_at(p: int, d: int, j: nat)
    requires
        d > 0,
        ulp_fits(p, d, j),
    ensures
        round_units(p, d) == pow2(j) * round_half_even(p, d * pow2(j)),
{
    let jc = choose|j: nat| ulp_fits(p, d, j);
    lemma_ulp_unique(p, d, j, jc);
}

/// Round-half-even division is unchanged by scaling both sides.
pub proof fn lemma_rhe_scale(p: int, d: int, c: int)
    requires
        p >= 0,
        d > 0,
        c > 0,
    ensures
        round_half_even(p * c, d * c) == round_half_even(p, d),
{
    let q = p / d;
    let r = p % d;
    lemma_fundamental_div_mod(p, d);
    lemma_mod_pos_bound(p, d);
    assert(p * c == (d * c) * q + r * c && 0 <= r * c < d * c) by (nonlinear_arith)
        requires
            p == d * q + r,
            0 <= r < d,
            c > 0,
    ;
    assert(q * (d * c) <= p * c < (q + 1) * (d * c)) by (nonlinear_arith)
        requires
            p * c == (d * c) * q + r * c,
            0 <= r * c < d * c,
    ;
    assert(p * c >= 0) by (nonlinear_arith)
        requires
            p >= 0,
            c > 0,
    ;
    lemma_floor_div(p * c, d * c, q);
    lemma_fundamental_div_mod(p * c, d * c);
    assert((p * c) % (d * c) == r * c) by (nonlinear_arith)
        requires
            p * c == (d * c) * ((p * c) / (d * c)) + (p * c) % (d * c),
            (p * c) / (d * c) == q,
            p * c == (d * c) * q + r * c,
    ;
    assert((2 * r < d) == (2 * (r * c) < d * c)) by (nonlinear_arith)
        requires
            c > 0,
    ;
    assert((2 * r > d) == (2 * (r * c) > d * c)) by (nonlinear_arith)
        requires
            c > 0,
    ;
}

/// Rounding `p / d` where `p / d` is `A / B` times `2^j` and `A / B` has
/// exactly 24 integer bits.
proof fn lemma_round_normal(p: int, d: int, a: int, b: int, c: int, j: nat)
    requires
        d > 0,
        b > 0,
        c > 0,
        p == a * c,
        d * pow2(j) == b * c,
        b * pow2(23) <= a < b * pow2(24),
    ensures
        ulp_fits(p, d, j),
        round_units(p, d) == pow2(j) * round_half_even(a, b),
{
    lemma_pow2_adds(23, j);
    lemma_pow2_adds(24, j);
    lemma_pow2_pos(j);
    lemma_pow2_pos(23);
    assert(d * pow2(23 + j) == (b * pow2(23)) * c) by (nonlinear_arith)
        requires
            pow2(23 + j) == pow2(23) * pow2(j),
            d * pow2(j) == b * c,
    ;
    assert(d * pow2(24 + j) == (b * pow2(24)) * c) by (nonlinear_arith)
        requires
            pow2(24 + j) == pow2(24) * pow2(j),
            d * pow2(j) == b * c,
    ;
    assert((b * pow2(23)) * c <= a * c < (b * pow2(24)) * c) by (nonlinear_arith)
        requires
            b * pow2(23) <= a < b * pow2(24),
            c > 0,
    ;
    lemma_round_units_at(p, d, j);
    assert(a >= 0) by (nonlinear_arith)
        requires
            b * pow2(23) <= a,
            b > 0,
            pow2(23) > 0,
    ;
    lemma_rhe_scale(a, b, c);
}

proof fn lemma_pow2_values()
    ensures
        pow2(23) == 0x80_0000,
        pow2(24) == 0x100_0000,
        pow2(25) == 0x200_0000,
        pow2(64) == 0x1_0000_0000_0000_0000,
        pow2(100) == 0x10_0000_0000_0000_0000_0000_0000,
        pow2(127) == 0x8000_0000_0000_0000_0000_0000_0000_0000,
{
    lemma2_to64();
    lemma_pow2_adds(64, 36);
    lemma_pow2_adds(64, 63);
    lemma2_to64_rest_values();
}

proof fn lemma2_to64_rest_values()
    ensures
        pow2(36) == 0x10_0000_0000,
        pow2(63) == 0x8000_0000_0000_0000,
{
    vstd::arithmetic::power2::lemma2_to64_rest();
}

proof fn lemma_pow2_mono(a: nat, b: nat)
    requires
        a <= b,
    ensures
        pow2(a) <= pow2(b),
{
    if a < b {
        lemma_pow2_strictly_increases(a, b);
    }
}

/// `2^k` for `k < 127`.
pub fn pow2_exec(k: u32) -> (r: u128)
    requires
        k < 127,
    ensures
        r == pow2(k as nat),
{
    let mut r: u128 = 1;
    let mut i: u32 = 0;
    proof {
        lemma2_to64();
        lemma_pow2_values();
    }
    while i < k
        invariant
            i <= k,
            k < 127,
            r == pow2(i as nat),
        decreases k - i,
    {
        proof {
            lemma_pow2_unfold((i + 1) as nat);
            lemma_pow2_mono((i + 1) as nat, 127);
            lemma_pow2_values();
        }
        r = r * 2;
        i = i + 1;
    }
    r
}

/// Number of binary digits of `x`: `2^(b-1) <= x < 2^b`.
pub fn bit_len(x: u128) -> (b: u32)
    requires
        1 <= x < pow2(100),
    ensures
        1 <= b <= 100,
        pow2((b - 1) as nat) <= x < pow2(b as nat),
{
    let mut y: u128 = x;
    let mut b: u32 = 0;
    proof {
        lemma2_to64();
    }
    while y > 0
        invariant
            b <= 100,
            x < pow2(100),
            y == (x as int) / (pow2(b as nat) as int),
            b > 0 ==> pow2((b - 1) as nat) <= x,
            b == 0 ==> y == x,
        decreases y,
    {
        proof {
            lemma_pow2_pos(b as nat);
            lemma_pow2_unfold((b + 1) as nat);
            vstd::arithmetic::div_mod::lemma_div_denominator(x as int, pow2(b as nat) as int, 2);
            lemma_le_floor_div(x as int, pow2(b as nat) as int, 1);
            if b >= 100 {
                lemma_pow2_mono(100, b as nat);
            }
        }
        y = y / 2;
        b = b + 1;
    }
    proof {
        lemma_pow2_pos(b as nat);
        lemma_le_floor_div(x as int, pow2(b as nat) as int, 1);
    }
    b
}

/// A single-precision value: `m * 2^j` units, negated when `neg`.
#[derive(Clone, Copy, Debug, PartialEq, Eq)]
pub struct Single {
    pub neg: bool,
    pub m: u64,
    pub j: u32,
}

pub open spec fn magnitude(x: Single) -> int {
    x.m * pow2(x.j as nat)
}

/// The value of `x` in units of 2^-149.
pub open spec fn units(x: Single) -> int {
    if x.neg {
        -magnitude(x)
    } else {
        magnitude(x)
    }
}

/// A 24-bit significand, normalised above the subnormal range, no negative zero.
pub open spec fn canonical(x: Single) -> bool {
    &&& x.m < 0x100_0000
    &&& x.j > 0 ==> x.m >= 0x80_0000
    &&& x.m == 0 ==> !x.neg
    &&& x.j <= 4000
}

pub open spec fn pos_part(s: int) -> nat {
    if s >= 0 {
        s as nat
    } else {
        0
    }
}

pub open spec fn neg_part(s: int) -> nat {
    if s < 0 {
        (-s) as nat
    } else {
        0
    }
}

/// Numerator and denominator of `n * 2^s / d`, both scaled by `2^400`.
pub open spec fn wide_num(n: int, s: int) -> int {
    n * pow2((s + 400) as nat)
}

pub open spec fn wide_den(d: int) -> int {
    d * pow2(400)
}

proof fn lemma_scaled_range(n: int, bn: nat, e: nat)
    requires
        bn >= 1,
        pow2((bn - 1) as nat) <= n < pow2(bn),
    ensures
        pow2((bn - 1 + e) as nat) <= n * pow2(e) < pow2(bn + e),
{
    lemma_pow2_adds((bn - 1) as nat, e);
    lemma_pow2_adds(bn, e);
    lemma_pow2_pos(e);
    assert(pow2((bn - 1) as nat) * pow2(e) <= n * pow2(e) < pow2(bn) * pow2(e)) by (nonlinear_arith)
        requires
            pow2((bn - 1) as nat) <= n < pow2(bn),
            pow2(e) > 0,
    ;
}

/// `n * 2^max(k,0)` and `d * 2^max(-k,0)`.
fn scaled_pair(n: u128, d: u128, k: i64) -> (r: (u128, u128))
    requires
        -120 <= k <= 120,
        n * pow2(pos_part(k as int)) < pow2(127),
        d * pow2(neg_part(k as int)) < pow2(127),
    ensures
        r.0 == n * pow2(pos_part(k as int)),
        r.1 == d * pow2(neg_part(k as int)),
{
    proof {
        lemma_pow2_values();
        lemma2_to64();
    }
    if k >= 0 {
        let p = pow2_exec(k as u32);
        assert(p == pow2(pos_part(k as int)));
        assert(pow2(neg_part(k as int)) == 1);
        let a = n * p;
        assert(d * pow2(neg_part(k as int)) == d) by (nonlinear_arith)
            requires
                pow2(neg_part(k as int)) == 1,
        ;
        (a, d)
    } else {
        let p = pow2_exec((-k) as u32);
        assert(p == pow2(neg_part(k as int)));
        assert(pow2(pos_part(k as int)) == 1);
        let b = d * p;
        assert(n * pow2(pos_part(k as int)) == n) by (nonlinear_arith)
            requires
                pow2(pos_part(k as int)) == 1,
        ;
        (n, b)
    }
}

proof fn lemma_ratio_bounds(n: int, d: int, bn: nat, bd: nat, k: int, t: nat)
    requires
        bn >= 1,
        bd >= 1,
        pow2((bn - 1) as nat) <= n < pow2(bn),
        pow2((bd - 1) as nat) <= d < pow2(bd),
        k == bd - bn + 23 + t,
    ensures
        pow2(22 + t) * (d * pow2(neg_part(k))) < n * pow2(pos_part(k)),
        n * pow2(pos_part(k)) < pow2(24 + t) * (d * pow2(neg_part(k))),
{
    let a = n * pow2(pos_part(k));
    let b = d * pow2(neg_part(k));
    lemma_scaled_range(n, bn, pos_part(k));
    lemma_scaled_range(d, bd, neg_part(k));
    // 2^(bn - 1 + pos) == 2^(22 + t) * 2^(bd + neg)
    lemma_pow2_adds(22 + t, bd + neg_part(k));
    lemma_pow2_adds(24 + t, (bd - 1 + neg_part(k)) as nat);
    assert((bn - 1 + pos_part(k)) as nat == 22 + t + bd + neg_part(k));
    assert(bn + pos_part(k) == 24 + t + (bd - 1 + neg_part(k)) as nat);
    lemma_pow2_pos(22 + t);
    lemma_pow2_pos(24 + t);
    assert(pow2(22 + t) * b < pow2(22 + t) * pow2(bd + neg_part(k))) by (nonlinear_arith)
        requires
            b < pow2(bd + neg_part(k)),
            pow2(22 + t) > 0,
    ;
    assert(pow2(24 + t) * pow2((bd - 1 + neg_part(k)) as nat) <= pow2(24 + t) * b) by (nonlinear_arith)
        requires
            pow2((bd - 1 + neg_part(k)) as nat) <= b,
            pow2(24 + t) > 0,
    ;
}

proof fn lemma_double_step(n: int, d: int, k: int)
    requires
        n >= 0,
        d >= 0,
    ensures
        (n * pow2(pos_part(k + 1))) * (d * pow2(neg_part(k))) == 2 * (n * pow2(pos_part(k))) * (d * pow2(neg_part(k + 1))),
{
    if k >= 0 {
        lemma_pow2_unfold((k + 1) as nat);
        assert(pow2(neg_part(k)) == pow2(neg_part(k + 1)));
        assert((n * pow2(pos_part(k + 1))) == 2 * (n * pow2(pos_part(k)))) by (nonlinear_arith)
            requires
                pow2(pos_part(k + 1)) == 2 * pow2(pos_part(k)),
        ;
    } else {
        lemma_pow2_unfold((-k) as nat);
        assert(pow2(pos_part(k)) == pow2(pos_part(k + 1)));
        assert(pow2(neg_part(k)) == 2 * pow2(neg_part(k + 1)));
        assert((d * pow2(neg_part(k))) == 2 * (d * pow2(neg_part(k + 1)))) by (nonlinear_arith)
            requires
                pow2(neg_part(k)) == 2 * pow2(neg_part(k + 1)),
        ;
    }
    assert((n * pow2(pos_part(k + 1))) * (d * pow2(neg_part(k))) == 2 * (n * pow2(pos_part(k))) * (d * pow2(neg_part(k + 1)))) by (nonlinear_arith)
        requires
            (n * pow2(pos_part(k + 1))) == 2 * (n * pow2(pos_part(k))) || (d * pow2(neg_part(k))) == 2 * (d * pow2(neg_part(k + 1))),
            k >= 0 ==> (d * pow2(neg_part(k))) == (d * pow2(neg_part(k + 1))) && (n * pow2(pos_part(k + 1))) == 2 * (n * pow2(pos_part(k))),
            k < 0 ==> (n * pow2(pos_part(k + 1))) == (n * pow2(pos_part(k))) && (d * pow2(neg_part(k))) == 2 * (d * pow2(neg_part(k + 1))),
    ;
}

fn rhe_exec(a: u128, b: u128) -> (m: u128)
    requires
        b > 0,
        a < pow2(127),
        b < pow2(127),
    ensures
        m == round_half_even(a as int, b as int),
{
    proof {
        lemma_pow2_values();
    }
    let q = a / b;
    let r = a % b;
    if 2 * r < b {
        q
    } else if 2 * r > b {
        q + 1
    } else if q % 2 == 0 {
        q
    } else {
        q + 1
    }
}

proof fn lemma_normalised(n: int, d: int, bn: nat, bd: nat, sh0: int, a0: int, b0: int, sh: int, a: int, b: int)
    requires
        bn >= 1,
        bd >= 1,
        pow2((bn - 1) as nat) <= n < pow2(bn),
        pow2((bd - 1) as nat) <= d < pow2(bd),
        sh0 == bd - bn + 23,
        a0 == n * pow2(pos_part(sh0)),
        b0 == d * pow2(neg_part(sh0)),
        a == n * pow2(pos_part(sh)),
        b == d * pow2(neg_part(sh)),
        sh == sh0 <==> a0 >= b0 * 0x80_0000,
        sh == sh0 || sh == sh0 + 1,
    ensures
        pow2(23) * b <= a < pow2(24) * b,
        b > 0,
{
    lemma_pow2_values();
    lemma2_to64();
    lemma_ratio_bounds(n, d, bn, bd, sh0, 0);
    lemma_pow2_pos(neg_part(sh));
    lemma_pow2_pos((bd - 1) as nat);
    assert(b > 0) by (nonlinear_arith)
        requires
            b == d * pow2(neg_part(sh)),
            d >= pow2((bd - 1) as nat),
            pow2((bd - 1) as nat) > 0,
            pow2(neg_part(sh)) > 0,
    ;
    if sh != sh0 {
        lemma_double_step(n, d, sh0);
        assert(a * b0 == 2 * a0 * b);
        assert(b0 > 0) by (nonlinear_arith)
            requires
                b0 == d * pow2(neg_part(sh0)),
                d > 0,
                pow2(neg_part(sh0)) > 0,
        {
            lemma_pow2_pos(neg_part(sh0));
        }
        assert(pow2(23) * b <= a < pow2(24) * b) by (nonlinear_arith)
            requires
                a * b0 == 2 * a0 * b,
                a0 < 0x80_0000 * b0,
                pow2(22) * b0 < a0,
                b0 > 0,
                b > 0,
                pow2(24) == 0x100_0000,
                pow2(23) == 0x80_0000,
                pow2(22) == 0x40_0000,
        ;
    }
}

proof fn lemma_normal_case(n: int, d: int, s: int, sh: int, a: int, b: int)
    requires
        n >= 0,
        d >= 1,
        -400 <= s,
        sh <= s,
        sh <= 50,
        a == n * pow2(pos_part(sh)),
        b == d * pow2(neg_part(sh)),
        pow2(23) * b <= a < pow2(24) * b,
        b > 0,
    ensures
        ulp_fits(wide_num(n, s), wide_den(d), (s - sh) as nat),
        round_units(wide_num(n, s), wide_den(d)) == pow2((s - sh) as nat) * round_half_even(a, b),
{
    let p2 = wide_num(n, s);
    let d2 = wide_den(d);
    let jj = (s - sh) as nat;
    let e = (s + 400 - pos_part(sh)) as nat;
    let c: int = pow2(e) as int;
    lemma_pow2_pos(e);
    lemma_pow2_pos(400);
    lemma_pow2_adds(pos_part(sh), e);
    lemma_pow2_adds(400, jj);
    lemma_pow2_adds(neg_part(sh), e);
    assert(pos_part(sh) + e == (s + 400) as nat);
    assert(400 + jj == neg_part(sh) + e);
    assert(p2 == a * c) by (nonlinear_arith)
        requires
            p2 == n * pow2((s + 400) as nat),
            a == n * pow2(pos_part(sh)),
            c == pow2(e),
            pow2((s + 400) as nat) == pow2(pos_part(sh)) * c,
    ;
    assert(d2 * pow2(jj) == b * c) by (nonlinear_arith)
        requires
            d2 == d * pow2(400),
            b == d * pow2(neg_part(sh)),
            c == pow2(e),
            pow2(400 + jj) == pow2(400) * pow2(jj),
            pow2(400 + jj) == pow2(neg_part(sh)) * c,
    ;
    assert(d2 > 0) by (nonlinear_arith)
        requires
            d2 == d * pow2(400),
            d >= 1,
            pow2(400) > 0,
    ;
    assert(b * pow2(23) <= a < b * pow2(24)) by (nonlinear_arith)
        requires
            pow2(23) * b <= a < pow2(24) * b,
    ;
    lemma_round_normal(p2, d2, a, b, c, jj);
}

proof fn lemma_below_normal(n: int, d: int, s: int, sh: int, a: int, b: int)
    requires
        n >= 0,
        d >= 1,
        -400 <= s,
        s < sh,
        a == n * pow2(pos_part(sh)),
        b == d * pow2(neg_part(sh)),
        a < pow2(24) * b,
    ensures
        wide_num(n, s) < pow2(23) * wide_den(d),
        ulp_fits(wide_num(n, s), wide_den(d), 0),
        wide_num(n, s) >= 0,
        wide_den(d) > 0,
{
    let p2 = wide_num(n, s);
    let d2 = wide_den(d);
    let ps = pos_part(sh);
    let ng = neg_part(sh);
    let w = (s + 400) as nat;
    lemma_pow2_values();
    lemma2_to64();
    lemma_pow2_adds(ps, w);
    lemma_pow2_adds(24, ng + w);
    lemma_pow2_adds(ng, w);
    lemma_pow2_adds(23, 400 + ps);
    lemma_pow2_adds(400, ps);
    lemma_pow2_mono(24 + ng + w, 23 + 400 + ps);
    lemma_pow2_pos(ps);
    lemma_pow2_pos(w);
    lemma_pow2_pos(400);
    assert(p2 * pow2(ps) == a * pow2(w)) by (nonlinear_arith)
        requires
            p2 == n * pow2(w),
            a == n * pow2(ps),
    ;
    assert(a * pow2(w) < pow2(24) * b * pow2(w)) by (nonlinear_arith)
        requires
            a < pow2(24) * b,
            pow2(w) > 0,
    ;
    assert(pow2(24) * b * pow2(w) == d * pow2(24 + ng + w)) by (nonlinear_arith)
        requires
            b == d * pow2(ng),
            pow2(ng + w) == pow2(ng) * pow2(w),
            pow2(24 + (ng + w)) == pow2(24) * pow2(ng + w),
    ;
    assert(d * pow2(24 + ng + w) <= pow2(23) * d2 * pow2(ps)) by (nonlinear_arith)
        requires
            d2 == d * pow2(400),
            d >= 1,
            pow2(24 + ng + w) <= pow2(23 + 400 + ps),
            pow2(23 + (400 + ps)) == pow2(23) * pow2(400 + ps),
            pow2(400 + ps) == pow2(400) * pow2(ps),
    ;
    assert(p2 < pow2(23) * d2) by (nonlinear_arith)
        requires
            p2 * pow2(ps) < pow2(23) * d2 * pow2(ps),
            pow2(ps) > 0,
    ;
    assert(p2 >= 0) by (nonlinear_arith)
        requires
            p2 == n * pow2(w),
            n >= 0,
    ;
    assert(d2 > 0) by (nonlinear_arith)
        requires
            d2 == d * pow2(400),
            d >= 1,
            pow2(400) > 0,
    ;
    assert(p2 < d2 * pow2(24)) by (nonlinear_arith)
        requires
            p2 < pow2(23) * d2,
            pow2(24) == 2 * pow2(23),
            d2 > 0,
    ;
}

/// `n * 2^s / d`, negated when `neg`, rounded to single precision. The ghost
/// result is the spacing exponent of the exact value.
fn round_exact(neg: bool, n: u128, d: u128, s: i64) -> (r: (Single, Ghost<nat>))
    requires
        n < pow2(100),
        1 <= d <= pow2(25),
        -400 <= s <= 3800,
    ensures
        canonical(r.0),
        ulp_fits(wide_num(n as int, s as int), wide_den(d as int), r.1@),
        magnitude(r.0) == round_units(wide_num(n as int, s as int), wide_den(d as int)),
        units(r.0) == (if neg { -magnitude(r.0) } else { magnitude(r.0) }),
        r.0.j <= pos_part(s as int) + 77,
{
    let ghost p2 = wide_num(n as int, s as int);
    let ghost d2 = wide_den(d as int);
    proof {
        lemma_pow2_values();
        lemma2_to64();
    }
    if n == 0 {
        proof {
            lemma_pow2_pos(400);
            assert(p2 == 0) by (nonlinear_arith)
                requires
                    p2 == n * pow2((s + 400) as nat),
                    n == 0,
            ;
            assert(d2 * pow2(24) > 0) by (nonlinear_arith)
                requires
                    d2 == d * pow2(400),
                    d >= 1,
                    pow2(400) > 0,
                    pow2(24) > 0,
            ;
            assert(ulp_fits(p2, d2, 0));
            lemma_round_units_at(p2, d2, 0);
            assert(round_half_even(0, d2 * pow2(0)) == 0);
        }
        return (Single { neg: false, m: 0, j: 0 }, Ghost(0));
    }
    let bn = bit_len(n);
    proof {
        lemma_pow2_mono(25, 100);
    }
    let bd = bit_len(d);
    proof {
        if bd > 26 {
            lemma_pow2_mono(26, (bd - 1) as nat);
        }
    }
    assert(bd <= 26);
    let sh0: i64 = bd as i64 - bn as i64 + 23;
    proof {
        lemma_scaled_range(n as int, bn as nat, pos_part(sh0 as int));
        lemma_scaled_range(n as int, bn as nat, pos_part((sh0 + 1) as int));
        lemma_scaled_range(d as int, bd as nat, neg_part(sh0 as int));
        lemma_scaled_range(d as int, bd as nat, neg_part((sh0 + 1) as int));
        lemma_pow2_mono(bn as nat + pos_part(sh0 as int), 127);
        lemma_pow2_mono(bn as nat + pos_part((sh0 + 1) as int), 127);
        lemma_pow2_mono(bd as nat + neg_part(sh0 as int), 100);
        lemma_pow2_mono(bd as nat + neg_part((sh0 + 1) as int), 127);
    }
    let (a0, b0) = scaled_pair(n, d, sh0);
    let b23: u128 = b0 * 0x80_0000;
    let sh: i64 = if a0 >= b23 {
        sh0
    } else {
        sh0 + 1
    };
    let (a, b) = scaled_pair(n, d, sh);
    proof {
        lemma_normalised(n as int, d as int, bn as nat, bd as nat, sh0 as int, a0 as int, b0 as int, sh as int, a as int, b as int);
    }
    let jj: i64 = s - sh;
    if jj >= 0 {
        let m = rhe_exec(a, b);
        proof {
            lemma_normal_case(n as int, d as int, s as int, sh as int, a as int, b as int);
            lemma_le_floor_div(a as int, b as int, pow2(23) as int);
            lemma_le_floor_div(a as int, b as int, pow2(24) as int);
        }
        if m == 0x100_0000 {
            let x = Single { neg: neg, m: 0x80_0000, j: (jj + 1) as u32 };
            proof {
                lemma_pow2_unfold((jj + 1) as nat);
                assert(x.j as nat == (jj + 1) as nat);
                assert(magnitude(x) == 0x80_0000 * pow2((jj + 1) as nat));
                assert(magnitude(x) == pow2(jj as nat) * m) by (nonlinear_arith)
                    requires
                        magnitude(x) == 0x80_0000 * pow2((jj + 1) as nat),
                        pow2((jj + 1) as nat) == 2 * pow2(jj as nat),
                        m == 0x100_0000,
                ;
            }
            (x, Ghost(jj as nat))
        } else {
            let x = Single { neg: neg, m: m as u64, j: jj as u32 };
            proof {
                assert(x.j as nat == jj as nat);
                assert(magnitude(x) == pow2(jj as nat) * m) by (nonlinear_arith)
                    requires
                        magnitude(x) == x.m * pow2(x.j as nat),
                        x.m == m,
                        x.j as nat == jj as nat,
                ;
            }
            (x, Ghost(jj as nat))
        }
    } else {
        proof {
            lemma_below_normal(n as int, d as int, s as int, sh as int, a as int, b as int);
            lemma_round_units_at(p2, d2, 0);
            lemma_le_floor_div(p2, d2, pow2(23) as int);
        }
        let m = below_normal_rounding(n, d, s);
        assert(d2 * pow2(0) == d2);
        assert(m <= 0x80_0000);
        let x = Single { neg: neg && m > 0, m: m as u64, j: 0 };
        proof {
            assert(pow2(0) == 1);
            assert(x.m == m);
            assert(magnitude(x) == x.m * 1);
        }
        (x, Ghost(0))
    }
}

/// Rounding to a whole unit of `n * 2^s / d` when that is below `2^23`.
fn below_normal_rounding(n: u128, d: u128, s: i64) -> (m: u128)
    requires
        n < pow2(100),
        1 <= d <= pow2(25),
        -400 <= s,
        n >= 1,
        wide_num(n as int, s as int) < pow2(23) * wide_den(d as int),
    ensures
        m == round_half_even(wide_num(n as int, s as int), wide_den(d as int) * pow2(0)),
{
    let ghost p2 = wide_num(n as int, s as int);
    let ghost d2 = wide_den(d as int);
    proof {
        lemma_pow2_values();
        lemma2_to64();
        lemma_pow2_pos(400);
        assert(d2 * pow2(0) == d2);
    }
    if s >= 0 {
        proof {
            lemma_pow2_adds(s as nat, 400);
            assert(p2 == (n * pow2(s as nat)) * pow2(400)) by (nonlinear_arith)
                requires
                    p2 == n * pow2((s + 400) as nat),
                    pow2((s + 400) as nat) == pow2(s as nat) * pow2(400),
            ;
            assert(n * pow2(s as nat) < pow2(23) * d) by (nonlinear_arith)
                requires
                    p2 == (n * pow2(s as nat)) * pow2(400),
                    d2 == d * pow2(400),
                    p2 < pow2(23) * d2,
                    pow2(400) > 0,
            ;
            assert(n * pow2(s as nat) >= 0) by (nonlinear_arith)
                requires
                    n >= 0,
            ;
            lemma_rhe_scale(n * pow2(s as nat), d as int, pow2(400) as int);
            if s >= 48 {
                lemma_pow2_mono(48, s as nat);
                assert(n * pow2(s as nat) >= pow2(48)) by (nonlinear_arith)
                    requires
                        n >= 1,
                        pow2(s as nat) >= pow2(48),
                ;
                lemma_pow2_adds(23, 25);
            }
        }
        let pw = pow2_exec(s as u32);
        rhe_exec(n * pw, d)
    } else if s <= -102 {
        proof {
            lemma_pow2_mono((s + 400) as nat, 298);
            lemma_pow2_pos(298);
            lemma_pow2_adds(100, 298);
            lemma_pow2_adds(398, 2);
            assert(p2 < pow2(398)) by (nonlinear_arith)
                requires
                    p2 == n * pow2((s + 400) as nat),
                    n < pow2(100),
                    pow2((s + 400) as nat) <= pow2(298),
                    pow2(398) == pow2(100) * pow2(298),
                    n >= 0,
                    pow2(298) > 0,
            ;
            assert(2 * p2 < d2) by (nonlinear_arith)
                requires
                    p2 < pow2(398),
                    pow2(400) == pow2(398) * 4,
                    d2 == d * pow2(400),
                    d >= 1,
            ;
            assert(p2 >= 0) by (nonlinear_arith)
                requires
                    p2 == n * pow2((s + 400) as nat),
                    n >= 0,
            ;
            lemma_floor_div(p2, d2, 0);
            lemma_fundamental_div_mod(p2, d2);
        }
        0
    } else {
        proof {
            lemma_pow2_adds((-s) as nat, (400 + s) as nat);
            lemma_pow2_pos((400 + s) as nat);
            lemma_pow2_mono((-s) as nat, 101);
            lemma_pow2_adds(25, 101);
            lemma_pow2_unfold(127);
            assert(d * pow2((-s) as nat) < pow2(127)) by (nonlinear_arith)
                requires
                    d <= pow2(25),
                    pow2((-s) as nat) <= pow2(101),
                    pow2(126) == pow2(25) * pow2(101),
                    pow2(127) == 2 * pow2(126),
                    pow2(126) > 0,
            ;
            assert(d2 == (d * pow2((-s) as nat)) * pow2((400 + s) as nat)) by (nonlinear_arith)
                requires
                    d2 == d * pow2(400),
                    pow2(400) == pow2((-s) as nat) * pow2((400 + s) as nat),
            ;
            assert(p2 == n * pow2((400 + s) as nat));
            lemma_rhe_scale(n as int, d * pow2((-s) as nat), pow2((400 + s) as nat) as int);
            lemma_pow2_pos((-s) as nat);
        }
        let pw = pow2_exec((-s) as u32);
        rhe_exec(n, d * pw)
    }
}

/// Rounding does not depend on the scale of the fraction.
proof fn lemma_round_rescale(p: int, d: int, c: int, j: nat)
    requires
        p >= 0,
        d > 0,
        c > 0,
        ulp_fits(p * c, d * c, j),
    ensures
        ulp_fits(p, d, j),
        round_units(p * c, d * c) == round_units(p, d),
{
    lemma_pow2_pos(j);
    lemma_pow2_pos(23 + j);
    lemma_pow2_pos(24 + j);
    assert((d * c) * pow2(23 + j) == (d * pow2(23 + j)) * c) by (nonlinear_arith);
    assert((d * c) * pow2(24 + j) == (d * pow2(24 + j)) * c) by (nonlinear_arith);
    assert((d * pow2(23 + j)) * c <= p * c ==> d * pow2(23 + j) <= p) by (nonlinear_arith)
        requires
            c > 0,
    ;
    assert(p * c < (d * pow2(24 + j)) * c ==> p < d * pow2(24 + j)) by (nonlinear_arith)
        requires
            c > 0,
    ;
    lemma_round_units_at(p * c, d * c, j);
    lemma_round_units_at(p, d, j);
    assert((d * c) * pow2(j) == (d * pow2(j)) * c) by (nonlinear_arith);
    assert(d * pow2(j) > 0) by (nonlinear_arith)
        requires
            d > 0,
            pow2(j) > 0,
    ;
    lemma_rhe_scale(p, d * pow2(j), c);
}

/// Adding a value below a quarter of the spacing of a normal value `v` leaves
/// `v` after rounding, whichever its sign.
pub proof fn lemma_absorb(m: int, j: nat, x: int)
    requires
        0x80_0000 <= m < 0x100_0000,
        j >= 2,
        0 <= x < pow2((j - 2) as nat),
    ensures
        round_units(m * pow2(j) + x, 1) == m * pow2(j),
        round_units(m * pow2(j) - x, 1) == m * pow2(j),
{
    lemma_pow2_values();
    let w = pow2(j) as int;
    let h = pow2((j - 1) as nat) as int;
    let q4 = pow2((j - 2) as nat) as int;
    lemma_pow2_unfold(j);
    lemma_pow2_unfold((j - 1) as nat);
    lemma_pow2_adds(23, j);
    lemma_pow2_adds(24, j);
    lemma_pow2_adds(23, (j - 1) as nat);
    lemma_pow2_adds(24, (j - 1) as nat);
    lemma_pow2_pos((j - 2) as nat);
    assert(w == 4 * q4 && h == 2 * q4);
    // adding
    assert(1 * pow2(23 + j) <= m * w + x < 1 * pow2(24 + j)) by (nonlinear_arith)
        requires
            0x80_0000 <= m < 0x100_0000,
            0 <= x < q4,
            w == 4 * q4,
            pow2(23 + j) == 0x80_0000 * w,
            pow2(24 + j) == 0x100_0000 * w,
    ;
    lemma_round_units_at(m * w + x, 1, j);
    assert(m * w <= m * w + x < (m + 1) * w) by (nonlinear_arith)
        requires
            0 <= x < q4,
            w == 4 * q4,
    ;
    lemma_floor_div(m * w + x, w, m);
    lemma_fundamental_div_mod(m * w + x, w);
    assert((m * w + x) % w == x) by (nonlinear_arith)
        requires
            m * w + x == w * ((m * w + x) / w) + (m * w + x) % w,
            (m * w + x) / w == m,
    ;
    assert(1 * w == w);
    // subtracting
    if x == 0 {
        assert(m * w - x == m * w + x);
    } else if m > 0x80_0000 {
        assert(1 * pow2(23 + j) <= m * w - x < 1 * pow2(24 + j)) by (nonlinear_arith)
            requires
                0x80_0000 < m < 0x100_0000,
                0 < x < q4,
                w == 4 * q4,
                pow2(23 + j) == 0x80_0000 * w,
                pow2(24 + j) == 0x100_0000 * w,
        ;
        lemma_round_units_at(m * w - x, 1, j);
        assert((m - 1) * w <= m * w - x < m * w) by (nonlinear_arith)
            requires
                0 < x < q4,
                w == 4 * q4,
        ;
        lemma_floor_div(m * w - x, w, m - 1);
        lemma_fundamental_div_mod(m * w - x, w);
        assert((m * w - x) % w == w - x) by (nonlinear_arith)
            requires
                m * w - x == w * ((m * w - x) / w) + (m * w - x) % w,
                (m * w - x) / w == m - 1,
        ;
    } else {
        // m is a power of two: the value drops into the binade below
        assert(1 * pow2(23 + (j - 1) as nat) <= m * w - x < 1 * pow2(24 + (j - 1) as nat)) by (nonlinear_arith)
            requires
                m == 0x80_0000,
                0 < x < q4,
                w == 4 * q4,
                h == 2 * q4,
                pow2(23 + (j - 1) as nat) == 0x80_0000 * h,
                pow2(24 + (j - 1) as nat) == 0x100_0000 * h,
        ;
        lemma_round_units_at(m * w - x, 1, (j - 1) as nat);
        assert((0x100_0000 - 1) * h <= m * w - x < 0x100_0000 * h) by (nonlinear_arith)
            requires
                m == 0x80_0000,
                0 < x < q4,
                w == 2 * h,
                h == 2 * q4,
        ;
        lemma_floor_div(m * w - x, h, 0x100_0000 - 1);
        lemma_fundamental_div_mod(m * w - x, h);
        assert((m * w - x) % h == h - x) by (nonlinear_arith)
            requires
                m * w - x == h * ((m * w - x) / h) + (m * w - x) % h,
                (m * w - x) / h == 0x100_0000 - 1,
                m == 0x80_0000,
                w == 2 * h,
        ;
        assert(1 * h == h);
        assert(h * 0x100_0000 == m * w);
    }
}

pub proof fn lemma_units_sign(x: Single)
    requires
        canonical(x),
    ensures
        magnitude(x) >= 0,
        units(x) < 0 <==> x.neg,
        x.neg ==> units(x) == -magnitude(x),
        !x.neg ==> units(x) == magnitude(x),
        magnitude(x) == 0 <==> x.m == 0,
{
    lemma_pow2_pos(x.j as nat);
    assert(magnitude(x) >= 0 && (magnitude(x) == 0 <==> x.m == 0)) by (nonlinear_arith)
        requires
            magnitude(x) == x.m * pow2(x.j as nat),
            pow2(x.j as nat) > 0,
            x.m >= 0,
    ;
}

/// Product of two values.
pub fn product(x: Single, y: Single) -> (r: Single)
    requires
        canonical(x),
        canonical(y),
        x.j + y.j <= 3900,
    ensures
        canonical(r),
        units(r) == mul_s(units(x), units(y)),
        r.j <= x.j + y.j + 77,
{
    proof {
        lemma_pow2_values();
        lemma_pow2_mono(48, 100);
    }
    assert((x.m as u128) * (y.m as u128) < 0x1_0000_0000_0000) by (nonlinear_arith)
        requires
            x.m < 0x100_0000,
            y.m < 0x100_0000,
    ;
    let n: u128 = (x.m as u128) * (y.m as u128);
    assert(pow2(48) == 0x1_0000_0000_0000) by {
        lemma_pow2_adds(24, 24);
    }
    let s: i64 = x.j as i64 + y.j as i64 - 149;
    let neg = x.neg != y.neg;
    let (r, Ghost(jf)) = round_exact(neg, n, 1, s);
    proof {
        lemma_units_sign(x);
        lemma_units_sign(y);
        let mx = magnitude(x);
        let my = magnitude(y);
        let e = (x.j + y.j) as nat;
        lemma_pow2_adds(x.j as nat, y.j as nat);
        lemma_pow2_adds(e, 251);
        lemma_pow2_adds(149, 251);
        assert(mx * my == n * pow2(e)) by (nonlinear_arith)
            requires
                mx == x.m * pow2(x.j as nat),
                my == y.m * pow2(y.j as nat),
                n == x.m * y.m,
                pow2(e) == pow2(x.j as nat) * pow2(y.j as nat),
        ;
        assert((s + 400) as nat == e + 251);
        assert(wide_num(n as int, s as int) == (mx * my) * pow2(251)) by (nonlinear_arith)
            requires
                wide_num(n as int, s as int) == n * pow2((s + 400) as nat),
                pow2((s + 400) as nat) == pow2(e) * pow2(251),
                mx * my == n * pow2(e),
        ;
        assert(wide_den(1) == one() * pow2(251));
        lemma_pow2_pos(251);
        lemma_pow2_pos(149);
        assert(mx * my >= 0) by (nonlinear_arith)
            requires
                mx >= 0,
                my >= 0,
        ;
        lemma_round_rescale(mx * my, one(), pow2(251) as int, jf);
        assert(units(x) * units(y) == if neg { -(mx * my) } else { mx * my }) by (nonlinear_arith)
            requires
                x.neg ==> units(x) == -mx,
                !x.neg ==> units(x) == mx,
                y.neg ==> units(y) == -my,
                !y.neg ==> units(y) == my,
                neg == (x.neg != y.neg),
        ;
        if neg && mx * my == 0 {
            assert(round_units(0, one()) == 0) by {
                lemma_pow2_pos(149);
                assert(ulp_fits(0, one(), 0)) by (nonlinear_arith)
                    requires
                        one() > 0,
                        pow2(24) > 0,
                ;
                lemma_round_units_at(0, one(), 0);
                lemma2_to64();
                lemma_rhe_zero(one() * pow2(0));
            }
        }
    }
    r
}

/// Quotient of two values, for a positive divisor.
pub fn quotient(x: Single, y: Single) -> (r: Single)
    requires
        canonical(x),
        canonical(y),
        !y.neg,
        y.m > 0,
        y.j <= 400,
        x.j <= 3000,
    ensures
        canonical(r),
        units(r) == div_s(units(x), units(y)),
        r.j <= x.j + 149 + 77,
{
    proof {
        lemma_pow2_values();
        lemma_pow2_mono(24, 100);
    }
    let s: i64 = x.j as i64 - y.j as i64 + 149;
    let (r, Ghost(jf)) = round_exact(x.neg, x.m as u128, y.m as u128, s);
    proof {
        lemma_units_sign(x);
        lemma_units_sign(y);
        let mx = magnitude(x);
        let my = magnitude(y);
        let c = (400 - y.j) as nat;
        lemma_pow2_adds(x.j as nat, 149);
        lemma_pow2_adds((x.j + 149) as nat, c);
        lemma_pow2_adds(y.j as nat, c);
        assert((s + 400) as nat == (x.j + 149) as nat + c);
        assert(wide_num(x.m as int, s as int) == (mx * one()) * pow2(c)) by (nonlinear_arith)
            requires
                wide_num(x.m as int, s as int) == x.m * pow2((s + 400) as nat),
                pow2((s + 400) as nat) == pow2((x.j + 149) as nat) * pow2(c),
                pow2((x.j + 149) as nat) == pow2(x.j as nat) * pow2(149),
                mx == x.m * pow2(x.j as nat),
                one() == pow2(149),
        ;
        assert(wide_den(y.m as int) == my * pow2(c)) by (nonlinear_arith)
            requires
                wide_den(y.m as int) == y.m * pow2(400),
                pow2(400) == pow2(y.j as nat) * pow2(c),
                my == y.m * pow2(y.j as nat),
        ;
        lemma_pow2_pos(c);
        lemma_pow2_pos(149);
        assert(mx * one() >= 0) by (nonlinear_arith)
            requires
                mx >= 0,
                one() > 0,
        ;
        lemma_round_rescale(mx * one(), my, pow2(c) as int, jf);
        if x.neg {
            assert(units(x) * one() == -(mx * one())) by (nonlinear_arith)
                requires
                    units(x) == -mx,
            ;
            if mx == 0 {
                assert(false);
            }
            assert(mx * one() > 0) by (nonlinear_arith)
                requires
                    mx > 0,
                    one() > 0,
            ;
        } else {
            assert(units(x) * one() == mx * one());
        }
    }
    r
}

/// The value with its sign flipped.
pub fn negate(x: Single) -> (r: Single)
    requires
        canonical(x),
    ensures
        canonical(r),
        units(r) == -units(x),
        r.j == x.j,
{
    proof {
        lemma_units_sign(x);
    }
    if x.m == 0 {
        x
    } else {
        Single { neg: !x.neg, m: x.m, j: x.j }
    }
}

proof fn lemma_rhe_zero(d: int)
    requires
        d > 0,
    ensures
        round_half_even(0, d) == 0,
{
    lemma_floor_div(0, d, 0);
    lemma_fundamental_div_mod(0, d);
}

proof fn lemma_shift_mag(m: int, j: nat, jmin: nat)
    requires
        jmin <= j,
        m >= 0,
    ensures
        m * pow2(j) == (m * pow2((j - jmin) as nat)) * pow2(jmin),
{
    lemma_pow2_adds((j - jmin) as nat, jmin);
    assert(m * pow2(j) == (m * pow2((j - jmin) as nat)) * pow2(jmin)) by (nonlinear_arith)
        requires
            pow2(j) == pow2((j - jmin) as nat) * pow2(jmin),
    ;
}

/// A tiny value next to a much larger normal one.
proof fn lemma_small_beside(x: Single, y: Single)
    requires
        canonical(x),
        canonical(y),
        y.j >= x.j + 26,
    ensures
        y.m >= 0x80_0000,
        magnitude(x) < pow2((y.j - 2) as nat),
{
    lemma_pow2_values();
    lemma_pow2_pos(x.j as nat);
    lemma_pow2_adds(24, x.j as nat);
    lemma_pow2_mono((24 + x.j) as nat, (y.j - 2) as nat);
    assert(magnitude(x) < pow2(24) * pow2(x.j as nat)) by (nonlinear_arith)
        requires
            magnitude(x) == x.m * pow2(x.j as nat),
            x.m < pow2(24),
            pow2(x.j as nat) > 0,
    ;
}

proof fn lemma_absorb_signed(x: Single, y: Single)
    requires
        canonical(x),
        canonical(y),
        x.j >= y.j + 26,
    ensures
        add_s(units(x), units(y)) == units(x),
{
    lemma_small_beside(y, x);
    lemma_absorb(x.m as int, x.j as nat, magnitude(y));
    lemma_units_sign(x);
    lemma_units_sign(y);
    let mx = magnitude(x);
    let my = magnitude(y);
    assert(mx == x.m * pow2(x.j as nat));
    assert(my < mx) by {
        lemma_pow2_values();
        lemma_pow2_adds(23, x.j as nat);
        lemma_pow2_mono((x.j - 2) as nat, (23 + x.j) as nat);
        assert(mx >= pow2(23) * pow2(x.j as nat)) by (nonlinear_arith)
            requires
                mx == x.m * pow2(x.j as nat),
                x.m >= pow2(23),
        ;
    }
    if !x.neg {
        if !y.neg {
            assert(units(x) + units(y) == mx + my);
        } else {
            assert(units(x) + units(y) == mx - my);
        }
    } else {
        if !y.neg {
            assert(units(x) + units(y) == -(mx - my));
        } else {
            assert(units(x) + units(y) == -(mx + my));
        }
    }
}

/// Sum of two values.
pub fn sum(x: Single, y: Single) -> (r: Single)
    requires
        canonical(x),
        canonical(y),
        x.j <= 3700,
        y.j <= 3700,
    ensures
        canonical(r),
        units(r) == add_s(units(x), units(y)),
        r.j <= (if x.j > y.j { x.j } else { y.j }) + 77,
{
    proof {
        lemma_units_sign(x);
        lemma_units_sign(y);
        lemma_pow2_values();
    }
    if x.j >= y.j + 26 {
        proof {
            lemma_absorb_signed(x, y);
        }
        return x;
    }
    if y.j >= x.j + 26 {
        proof {
            lemma_absorb_signed(y, x);
            assert(units(x) + units(y) == units(y) + units(x));
        }
        return y;
    }
    let jmin: u32 = if x.j < y.j { x.j } else { y.j };
    proof {
        lemma_pow2_mono((x.j - jmin) as nat, 25);
        lemma_pow2_mono((y.j - jmin) as nat, 25);
        lemma_pow2_adds(24, 25);
        lemma_pow2_pos((x.j - jmin) as nat);
        lemma_pow2_pos((y.j - jmin) as nat);
        assert(x.m * pow2((x.j - jmin) as nat) < pow2(49)) by (nonlinear_arith)
            requires
                x.m < pow2(24),
                x.m >= 0,
                pow2((x.j - jmin) as nat) > 0,
                pow2((x.j - jmin) as nat) <= pow2(25),
                pow2(49) == pow2(24) * pow2(25),
        ;
        assert(y.m * pow2((y.j - jmin) as nat) < pow2(49)) by (nonlinear_arith)
            requires
                y.m < pow2(24),
                y.m >= 0,
                pow2((y.j - jmin) as nat) > 0,
                pow2((y.j - jmin) as nat) <= pow2(25),
                pow2(49) == pow2(24) * pow2(25),
        ;
        lemma_pow2_mono(49, 127);
        lemma_pow2_unfold(50);
        lemma_pow2_mono(50, 100);
    }
    let ax: u128 = (x.m as u128) * pow2_exec(x.j - jmin);
    let ay: u128 = (y.m as u128) * pow2_exec(y.j - jmin);
    let (n, neg) = if x.neg == y.neg {
        (ax + ay, x.neg)
    } else if ax >= ay {
        (ax - ay, x.neg)
    } else {
        (ay - ax, y.neg)
    };
    let (r, Ghost(jf)) = round_exact(neg, n, 1, jmin as i64);
    proof {
        lemma_shift_mag(x.m as int, x.j as nat, jmin as nat);
        lemma_shift_mag(y.m as int, y.j as nat, jmin as nat);
        let w = pow2(jmin as nat) as int;
        lemma_pow2_pos(jmin as nat);
        lemma_pow2_adds(jmin as nat, 400);
        assert(wide_num(n as int, jmin as int) == (n * w) * pow2(400)) by (nonlinear_arith)
            requires
                wide_num(n as int, jmin as int) == n * pow2((jmin + 400) as nat),
                pow2((jmin + 400) as nat) == pow2(jmin as nat) * pow2(400),
                w == pow2(jmin as nat),
        ;
        assert(wide_den(1) == 1 * pow2(400));
        lemma_pow2_pos(400);
        assert(n * w >= 0) by (nonlinear_arith)
            requires
                n >= 0,
                w > 0,
        ;
        lemma_round_rescale(n * w, 1, pow2(400) as int, jf);
        assert(units(x) + units(y) == if neg { -(n * w) } else { n * w }) by (nonlinear_arith)
            requires
                magnitude(x) == ax * w,
                magnitude(y) == ay * w,
                x.neg ==> units(x) == -magnitude(x),
                !x.neg ==> units(x) == magnitude(x),
                y.neg ==> units(y) == -magnitude(y),
                !y.neg ==> units(y) == magnitude(y),
                x.neg == y.neg ==> n == ax + ay && neg == x.neg,
                x.neg != y.neg && ax >= ay ==> n == ax - ay && neg == x.neg,
                x.neg != y.neg && ax < ay ==> n == ay - ax && neg == y.neg,
        ;
        if neg && n * w == 0 {
            assert(ulp_fits(0, 1, 0)) by (nonlinear_arith)
                requires
                    pow2(24) > 0,
            ;
            lemma_round_units_at(0, 1, 0);
            lemma2_to64();
            lemma_rhe_zero(1 * pow2(0) as int);
        }
    }
    r
}

/// Difference of two values.
pub fn difference(x: Single, y: Single) -> (r: Single)
    requires
        canonical(x),
        canonical(y),
        x.j <= 3700,
        y.j <= 3700,
    ensures
        canonical(r),
        units(r) == sub_s(units(x), units(y)),
        r.j <= (if x.j > y.j { x.j } else { y.j }) + 77,
{
    let ny = negate(y);
    sum(x, ny)
}

/// An unsigned integer converted to single precision.
pub fn from_u64(k: u64) -> (r: Single)
    ensures
        canonical(r),
        units(r) == from_int(k as int),
        r.j <= 226,
{
    proof {
        lemma_pow2_values();
        lemma_pow2_mono(64, 100);
    }
    let (r, Ghost(jf)) = round_exact(false, k as u128, 1, 149);
    proof {
        lemma_pow2_adds(149, 400);
        lemma_pow2_pos(400);
        lemma_pow2_pos(149);
        assert(wide_num(k as int, 149) == (k * one()) * pow2(400)) by (nonlinear_arith)
            requires
                wide_num(k as int, 149) == k * pow2(549),
                pow2(549) == pow2(149) * pow2(400),
                one() == pow2(149),
        ;
        assert(wide_den(1) == 1 * pow2(400));
        assert(k * one() >= 0) by (nonlinear_arith)
            requires
                k >= 0,
                one() > 0,
        ;
        lemma_round_rescale(k * one(), 1, pow2(400) as int, jf);
    }
    r
}

/// The decimal fraction `n / d` as single precision.
pub fn literal_exec(n: u64, d: u64) -> (r: Single)
    requires
        1 <= d <= 0x200_0000,
    ensures
        canonical(r),
        units(r) == literal(n as int, d as int),
        r.j <= 226,
{
    proof {
        lemma_pow2_values();
        lemma_pow2_mono(64, 100);
    }
    let (r, Ghost(jf)) = round_exact(false, n as u128, d as u128, 149);
    proof {
        lemma_pow2_adds(149, 400);
        lemma_pow2_pos(400);
        lemma_pow2_pos(149);
        assert(wide_num(n as int, 149) == (n * one()) * pow2(400)) by (nonlinear_arith)
            requires
                wide_num(n as int, 149) == n * pow2(549),
                pow2(549) == pow2(149) * pow2(400),
                one() == pow2(149),
        ;
        assert(n * one() >= 0) by (nonlinear_arith)
            requires
                n >= 0,
                one() > 0,
        ;
        lemma_round_rescale(n * one(), d as int, pow2(400) as int, jf);
    }
    r
}

proof fn lemma_order(x: Single, y: Single)
    requires
        canonical(x),
        canonical(y),
    ensures
        (magnitude(x) < magnitude(y)) == (x.j < y.j || (x.j == y.j && x.m < y.m)),
        (magnitude(x) == magnitude(y)) == (x.j == y.j && x.m == y.m),
{
    lemma_pow2_values();
    lemma_pow2_pos(x.j as nat);
    lemma_pow2_pos(y.j as nat);
    if x.j < y.j {
        lemma_pow2_adds(24, x.j as nat);
        lemma_pow2_adds(23, y.j as nat);
        lemma_pow2_mono((24 + x.j) as nat, (23 + y.j) as nat);
        assert(magnitude(x) < magnitude(y)) by (nonlinear_arith)
            requires
                magnitude(x) == x.m * pow2(x.j as nat),
                magnitude(y) == y.m * pow2(y.j as nat),
                x.m < pow2(24),
                y.m >= pow2(23),
                pow2(x.j as nat) > 0,
                pow2(24) * pow2(x.j as nat) <= pow2(23) * pow2(y.j as nat),
        ;
    } else if y.j < x.j {
        lemma_pow2_adds(24, y.j as nat);
        lemma_pow2_adds(23, x.j as nat);
        lemma_pow2_mono((24 + y.j) as nat, (23 + x.j) as nat);
        assert(magnitude(y) < magnitude(x)) by (nonlinear_arith)
            requires
                magnitude(x) == x.m * pow2(x.j as nat),
                magnitude(y) == y.m * pow2(y.j as nat),
                y.m < pow2(24),
                x.m >= pow2(23),
                pow2(y.j as nat) > 0,
                pow2(24) * pow2(y.j as nat) <= pow2(23) * pow2(x.j as nat),
        ;
    } else {
        assert((magnitude(x) < magnitude(y)) == (x.m < y.m)) by (nonlinear_arith)
            requires
                magnitude(x) == x.m * pow2(x.j as nat),
                magnitude(y) == y.m * pow2(x.j as nat),
                pow2(x.j as nat) > 0,
        ;
        assert((magnitude(x) == magnitude(y)) == (x.m == y.m)) by (nonlinear_arith)
            requires
                magnitude(x) == x.m * pow2(x.j as nat),
                magnitude(y) == y.m * pow2(x.j as nat),
                pow2(x.j as nat) > 0,
        ;
    }
}

/// Whether `x < y`.
pub fn less(x: Single, y: Single) -> (b: bool)
    requires
        canonical(x),
        canonical(y),
    ensures
        b == (units(x) < units(y)),
{
    proof {
        lemma_units_sign(x);
        lemma_units_sign(y);
        lemma_order(x, y);
    }
    if x.neg != y.neg {
        x.neg
    } else if !x.neg {
        x.j < y.j || (x.j == y.j && x.m < y.m)
    } else {
        y.j < x.j || (y.j == x.j && y.m < x.m)
    }
}

/// Conversion to `u8` (truncating, saturating).
pub fn to_u8_exec(x: Single) -> (r: u8)
    requires
        canonical(x),
    ensures
        r == to_u8(units(x)),
{
    proof {
        lemma_units_sign(x);
        lemma_pow2_values();
        lemma_pow2_pos(149);
    }
    if x.neg || x.m == 0 {
        return 0;
    }
    if x.j >= 149 {
        let e: u32 = x.j - 149;
        proof {
            lemma_pow2_adds(e as nat, 149);
            assert(magnitude(x) == (x.m * pow2(e as nat)) * one()) by (nonlinear_arith)
                requires
                    magnitude(x) == x.m * pow2(x.j as nat),
                    pow2(x.j as nat) == pow2(e as nat) * pow2(149),
            ;
            assert((x.m * pow2(e as nat) + 1) * one() == (x.m * pow2(e as nat)) * one() + one()) by (nonlinear_arith);
            lemma_floor_div(magnitude(x), one(), x.m * pow2(e as nat));
        }
        if e >= 8 {
            proof {
                lemma_pow2_mono(8, e as nat);
                lemma2_to64();
                assert(x.m * pow2(e as nat) >= 256) by (nonlinear_arith)
                    requires
                        x.m >= 1,
                        pow2(e as nat) >= 256,
                ;
            }
            255
        } else {
            proof {
                lemma_pow2_mono(e as nat, 7);
                lemma2_to64();
            }
            let pe = pow2_exec(e);
            assert((x.m as u128) * pe < 0x1_0000_0000) by (nonlinear_arith)
                requires
                    x.m < 0x100_0000,
                    pe <= 128,
            ;
            let v: u128 = (x.m as u128) * pe;
            if v > 255 {
                255
            } else {
                v as u8
            }
        }
    } else {
        let sh: u32 = 149 - x.j;
        proof {
            lemma_pow2_adds(x.j as nat, sh as nat);
            lemma_pow2_pos(sh as nat);
            lemma_pow2_pos(x.j as nat);
            vstd::arithmetic::div_mod::lemma_div_denominator(magnitude(x), pow2(x.j as nat) as int, pow2(sh as nat) as int);
            assert(magnitude(x) / (pow2(x.j as nat) as int) == x.m) by {
                assert((x.m + 1) * pow2(x.j as nat) == magnitude(x) + pow2(x.j as nat)) by (nonlinear_arith)
                    requires
                        magnitude(x) == x.m * pow2(x.j as nat),
                ;
                lemma_floor_div(magnitude(x), pow2(x.j as nat) as int, x.m as int);
            }
            lemma_le_floor_div(x.m as int, pow2(sh as nat) as int, 256);
            lemma2_to64();
            if sh >= 64 {
                lemma_pow2_mono(64, sh as nat);
            } else {
                lemma_pow2_mono(24, 64);
                lemma_pow2_adds(8, 24);
                if sh < 24 {
                    lemma_pow2_adds(sh as nat, (24 - sh) as nat);
                    lemma_pow2_pos((24 - sh) as nat);
                }
            }
        }
        if sh >= 64 {
            proof {
                lemma_floor_div(x.m as int, pow2(sh as nat) as int, 0);
            }
            0
        } else {
            let ps = pow2_exec(sh);
            let v: u128 = (x.m as u128) / ps;
            if v > 255 {
                255
            } else {
                v as u8
            }
        }
    }
}

/// A value with a significand of at most 24 bits rounds to itself.
pub proof fn lemma_representable(m: int, j: nat) -> (jf: nat)
    requires
        0 <= m < 0x100_0000,
    ensures
        ulp_fits(m * pow2(j), 1, jf),
        round_units(m * pow2(j), 1) == m * pow2(j),
    decreases j,
{
    lemma_pow2_values();
    lemma_pow2_pos(j);
    lemma_pow2_adds(23, j);
    lemma_pow2_adds(24, j);
    if j == 0 || m >= 0x80_0000 {
        assert(ulp_fits(m * pow2(j), 1, j)) by (nonlinear_arith)
            requires
                0 <= m < 0x100_0000,
                j == 0 || m >= 0x80_0000,
                pow2(23 + j) == 0x80_0000 * pow2(j),
                pow2(24 + j) == 0x100_0000 * pow2(j),
                pow2(j) > 0,
        ;
        lemma_round_units_at(m * pow2(j), 1, j);
        assert(1 * pow2(j) == pow2(j));
        assert(m * pow2(j) >= 0) by (nonlinear_arith)
            requires
                m >= 0,
                pow2(j) > 0,
        ;
        assert((m + 1) * pow2(j) == m * pow2(j) + pow2(j)) by (nonlinear_arith);
        lemma_floor_div(m * pow2(j), pow2(j) as int, m);
        lemma_fundamental_div_mod(m * pow2(j), pow2(j) as int);
        assert(pow2(j) * m == m * pow2(j)) by (nonlinear_arith);
        j
    } else {
        lemma_pow2_unfold(j);
        assert(m * pow2(j) == (2 * m) * pow2((j - 1) as nat)) by (nonlinear_arith)
            requires
                pow2(j) == 2 * pow2((j - 1) as nat),
        ;
        lemma_representable(2 * m, (j - 1) as nat)
    }
}

/// Rounding does not depend on the scale of the fraction (scaling up).
pub proof fn lemma_round_rescale_up(p: int, d: int, c: int, j: nat)
    requires
        p >= 0,
        d > 0,
        c > 0,
        ulp_fits(p, d, j),
    ensures
        ulp_fits(p * c, d * c, j),
        round_units(p * c, d * c) == round_units(p, d),
{
    lemma_pow2_pos(23 + j);
    lemma_pow2_pos(24 + j);
    assert((d * c) * pow2(23 + j) == (d * pow2(23 + j)) * c) by (nonlinear_arith);
    assert((d * c) * pow2(24 + j) == (d * pow2(24 + j)) * c) by (nonlinear_arith);
    assert(d * pow2(23 + j) <= p ==> (d * pow2(23 + j)) * c <= p * c) by (nonlinear_arith)
        requires
            c > 0,
    ;
    assert(p < d * pow2(24 + j) ==> p * c < (d * pow2(24 + j)) * c) by (nonlinear_arith)
        requires
            c > 0,
    ;
    lemma_round_rescale(p, d, c, j);
}

/// Multiplying by one changes nothing, for a value with a 24-bit significand.
pub proof fn lemma_mul_one(m: int, j: nat)
    requires
        0 <= m < 0x100_0000,
    ensures
        mul_s(m * pow2(j), one()) == m * pow2(j),
{
    let jf = lemma_representable(m, j);
    lemma_pow2_pos(j);
    lemma_pow2_pos(149);
    assert(m * pow2(j) >= 0) by (nonlinear_arith)
        requires
            m >= 0,
            pow2(j) > 0,
    ;
    assert((m * pow2(j)) * one() >= 0) by (nonlinear_arith)
        requires
            m * pow2(j) >= 0,
            one() > 0,
    ;
    lemma_round_rescale_up(m * pow2(j), 1, one(), jf);
    assert(1 * one() == one());
}

/// One has a 24-bit significand.
pub proof fn lemma_one_parts()
    ensures
        one() == 0x80_0000 * pow2(126),
{
    lemma_pow2_adds(23, 126);
    lemma_pow2_values();
}

/// Small integers convert exactly.
pub proof fn lemma_from_small_int(a: int)
    requires
        0 <= a < 0x100_0000,
    ensures
        from_int(a) == a * one(),
        from_int(a) == a * pow2(149),
{
    lemma_representable(a, 149);
    lemma_pow2_pos(149);
    assert(a * one() >= 0) by (nonlinear_arith)
        requires
            a >= 0,
            one() > 0,
    ;
}

/// Converting `a` units of one back to a byte gives `a`.
pub proof fn lemma_to_u8_whole(a: int)
    requires
        0 <= a <= 255,
    ensures
        to_u8(a * one()) == a,
{
    lemma_pow2_pos(149);
    if a > 0 {
        assert((a + 1) * one() == a * one() + one()) by (nonlinear_arith);
        assert(a * one() > 0) by (nonlinear_arith)
            requires
                a > 0,
                one() > 0,
        ;
        lemma_floor_div(a * one(), one(), a);
    } else {
        assert(a * one() == 0);
    }
}

/// Every non-negative fraction has a spacing exponent.
pub proof fn lemma_fits_exists(p: int, d: int) -> (j: nat)
    requires
        p >= 0,
        d > 0,
    ensures
        ulp_fits(p, d, j),
    decreases p,
{
    lemma_pow2_values();
    if p < d * pow2(24) {
        0
    } else {
        let h = p / 2;
        assert(h < p && h >= 0);
        let j0 = lemma_fits_exists(h, d);
        let j = j0 + 1;
        lemma_pow2_unfold((23 + j) as nat);
        lemma_pow2_unfold((24 + j) as nat);
        assert(pow2((23 + j - 1) as nat) == pow2(23 + j0));
        assert(pow2((24 + j - 1) as nat) == pow2(24 + j0));
        assert(d * pow2(24 + j) == 2 * (d * pow2(24 + j0))) by (nonlinear_arith)
            requires
                pow2((24 + j) as nat) == 2 * pow2(24 + j0),
        ;
        assert(d * pow2(23 + j) == 2 * (d * pow2(23 + j0))) by (nonlinear_arith)
            requires
                pow2((23 + j) as nat) == 2 * pow2(23 + j0),
        ;
        if j0 == 0 {
            assert(pow2(23 + j) == pow2(24));
        }
        j
    }
}

proof fn lemma_rhe_mono(p1: int, e1: int, p2: int, e2: int)
    requires
        p1 >= 0,
        p2 >= 0,
        e1 > 0,
        e2 > 0,
        p1 * e2 <= p2 * e1,
    ensures
        round_half_even(p1, e1) <= round_half_even(p2, e2),
{
    let q1 = p1 / e1;
    let q2 = p2 / e2;
    lemma_fundamental_div_mod(p1, e1);
    lemma_fundamental_div_mod(p2, e2);
    lemma_mod_pos_bound(p1, e1);
    lemma_mod_pos_bound(p2, e2);
    let r1 = p1 % e1;
    let r2 = p2 % e2;
    lemma_le_floor_div(p1, e1, q1);
    lemma_le_floor_div(p1, e1, 0);
    assert(q1 * e2 <= p2) by (nonlinear_arith)
        requires
            q1 * e1 <= p1,
            p1 * e2 <= p2 * e1,
            e1 > 0,
            e2 > 0,
            q1 >= 0,
    ;
    lemma_le_floor_div(p2, e2, q1);
    if q1 == q2 {
        assert(r1 * e2 <= r2 * e1) by (nonlinear_arith)
            requires
                p1 == e1 * q1 + r1,
                p2 == e2 * q1 + r2,
                p1 * e2 <= p2 * e1,
        ;
        if 2 * r1 > e1 {
            assert(2 * r2 > e2) by (nonlinear_arith)
                requires
                    2 * r1 > e1,
                    r1 * e2 <= r2 * e1,
                    e1 > 0,
                    e2 > 0,
            ;
        } else if 2 * r1 == e1 {
            assert(2 * r2 >= e2) by (nonlinear_arith)
                requires
                    2 * r1 == e1,
                    r1 * e2 <= r2 * e1,
                    e1 > 0,
                    e2 > 0,
            ;
        }
    }
}

/// Rounding is monotone: a smaller fraction never rounds above a larger one.
pub proof fn lemma_round_mono(p1: int, d1: int, p2: int, d2: int)
    requires
        p1 >= 0,
        p2 >= 0,
        d1 > 0,
        d2 > 0,
        p1 * d2 <= p2 * d1,
    ensures
        round_units(p1, d1) <= round_units(p2, d2),
{
    lemma_pow2_values();
    let j1 = lemma_fits_exists(p1, d1);
    let j2 = lemma_fits_exists(p2, d2);
    lemma_round_units_at(p1, d1, j1);
    lemma_round_units_at(p2, d2, j2);
    lemma_pow2_pos(j1);
    lemma_pow2_pos(j2);
    let w1 = pow2(j1) as int;
    let w2 = pow2(j2) as int;
    if j1 > j2 {
        lemma_pow2_mono(24 + j2, 23 + j1);
        assert(false) by (nonlinear_arith)
            requires
                d1 * pow2(23 + j1) <= p1,
                p2 < d2 * pow2(24 + j2),
                pow2(24 + j2) <= pow2(23 + j1),
                p1 * d2 <= p2 * d1,
                d1 > 0,
                d2 > 0,
        ;
    } else if j1 == j2 {
        assert(d1 * w1 > 0 && d2 * w1 > 0) by (nonlinear_arith)
            requires
                d1 > 0,
                d2 > 0,
                w1 > 0,
        ;
        assert(p1 * (d2 * w1) <= p2 * (d1 * w1)) by (nonlinear_arith)
            requires
                p1 * d2 <= p2 * d1,
                w1 > 0,
        ;
        lemma_rhe_mono(p1, d1 * w1, p2, d2 * w1);
        assert(w1 * round_half_even(p1, d1 * w1) <= w1 * round_half_even(p2, d2 * w1)) by (nonlinear_arith)
            requires
                round_half_even(p1, d1 * w1) <= round_half_even(p2, d2 * w1),
                w1 > 0,
        ;
    } else {
        // different binades: the first rounds to at most 2^(24+j1) <= 2^(23+j2)
        assert(d1 * w1 > 0 && d2 * w2 > 0) by (nonlinear_arith)
            requires
                d1 > 0,
                d2 > 0,
                w1 > 0,
                w2 > 0,
        ;
        lemma_pow2_adds(24, j1);
        lemma_pow2_adds(23, j2);
        lemma_pow2_mono(24 + j1, 23 + j2);
        assert(p1 < pow2(24) * (d1 * w1)) by (nonlinear_arith)
            requires
                p1 < d1 * pow2(24 + j1),
                pow2(24 + j1) == pow2(24) * w1,
        ;
        assert(pow2(23) * (d2 * w2) <= p2) by (nonlinear_arith)
            requires
                d2 * pow2(23 + j2) <= p2,
                pow2(23 + j2) == pow2(23) * w2,
        ;
        lemma_le_floor_div(p1, d1 * w1, pow2(24) as int);
        lemma_le_floor_div(p2, d2 * w2, pow2(23) as int);
        let m1 = round_half_even(p1, d1 * w1);
        let m2 = round_half_even(p2, d2 * w2);
        assert(m1 <= pow2(24));
        assert(m2 >= pow2(23));
        lemma_le_floor_div(p1, d1 * w1, 0);
        assert(m1 >= 0);
        assert(w1 * m1 <= w2 * m2) by (nonlinear_arith)
            requires
                m1 <= pow2(24),
                m1 >= 0,
                w2 > 0,
                m2 >= pow2(23),
                w1 > 0,
                pow2(24) * w1 <= pow2(23) * w2,
        ;
    }
}

/// Products of non-negative values are monotone in each factor.
pub proof fn lemma_mul_mono(x1: int, x2: int, y: int)
    requires
        0 <= x1 <= x2,
        y >= 0,
    ensures
        mul_s(x1, y) <= mul_s(x2, y),
        mul_s(y, x1) <= mul_s(y, x2),
        mul_s(x1, y) >= 0,
{
    lemma_pow2_pos(149);
    assert(0 <= x1 * y <= x2 * y && y * x1 <= y * x2 && x1 * y == y * x1 && x2 * y == y * x2) by (nonlinear_arith)
        requires
            0 <= x1 <= x2,
            y >= 0,
    ;
    assert((x1 * y) * one() <= (x2 * y) * one()) by (nonlinear_arith)
        requires
            x1 * y <= x2 * y,
            one() > 0,
    ;
    lemma_round_mono(x1 * y, one(), x2 * y, one());
    lemma_round_mono(0, one(), x1 * y, one());
    let j = lemma_fits_exists(0, one());
    lemma_round_units_at(0, one(), j);
    lemma_pow2_pos(j);
    assert(one() * pow2(j) > 0) by (nonlinear_arith)
        requires
            one() > 0,
            pow2(j) > 0,
    ;
    lemma_rhe_zero(one() * pow2(j));
}

/// Every rounded value has a significand of at most 24 bits.
pub proof fn lemma_round_repr(p: int, d: int) -> (r: (int, nat))
    requires
        p >= 0,
        d > 0,
    ensures
        0 <= r.0 < 0x100_0000,
        round_units(p, d) == r.0 * pow2(r.1),
{
    lemma_pow2_values();
    let j = lemma_fits_exists(p, d);
    lemma_round_units_at(p, d, j);
    lemma_pow2_pos(j);
    let w = pow2(j) as int;
    assert(d * w > 0) by (nonlinear_arith)
        requires
            d > 0,
            w > 0,
    ;
    lemma_pow2_adds(24, j);
    assert(p < pow2(24) * (d * w)) by (nonlinear_arith)
        requires
            p < d * pow2(24 + j),
            pow2(24 + j) == pow2(24) * w,
    ;
    lemma_le_floor_div(p, d * w, pow2(24) as int);
    lemma_le_floor_div(p, d * w, 0);
    let m = round_half_even(p, d * w);
    assert(w * m == m * w) by (nonlinear_arith);
    if m == 0x100_0000 {
        lemma_pow2_unfold(j + 1);
        assert(m * w == 0x80_0000 * pow2(j + 1));
        (0x80_0000, j + 1)
    } else {
        (m, j)
    }
}

pub proof fn lemma_round_nonneg(p: int, d: int)
    requires
        p >= 0,
        d > 0,
    ensures
        round_units(p, d) >= 0,
{
    let r = lemma_round_repr(p, d);
    lemma_pow2_pos(r.1);
    assert(r.0 * pow2(r.1) >= 0) by (nonlinear_arith)
        requires
            r.0 >= 0,
            pow2(r.1) > 0,
    ;
}

/// Conversion to a byte is monotone.
pub proof fn lemma_to_u8_mono(x: int, y: int)
    requires
        x <= y,
    ensures
        to_u8(x) <= to_u8(y),
{
    lemma_pow2_pos(149);
    if x > 0 {
        lemma_le_floor_div(x, one(), x / one());
        lemma_le_floor_div(y, one(), x / one());
        lemma_le_floor_div(x, one(), 0);
    }
}

/// Decimal literals keep their order.
pub proof fn lemma_literal_le(n1: int, n2: int, d: int)
    requires
        0 <= n1 <= n2,
        d > 0,
    ensures
        0 <= literal(n1, d) <= literal(n2, d),
{
    lemma_pow2_pos(149);
    assert(0 <= n1 * one() <= n2 * one()) by (nonlinear_arith)
        requires
            0 <= n1 <= n2,
            one() > 0,
    ;
    assert((n1 * one()) * d <= (n2 * one()) * d) by (nonlinear_arith)
        requires
            n1 * one() <= n2 * one(),
            d > 0,
    ;
    lemma_round_mono(n1 * one(), d, n2 * one(), d);
    lemma_round_nonneg(n1 * one(), d);
}

/// A decimal literal below 1 rounds to at most one.
pub proof fn lemma_literal_le_one(n: int, d: int)
    requires
        0 <= n <= d,
        d > 0,
    ensures
        0 <= literal(n, d) <= one(),
{
    lemma_pow2_pos(149);
    lemma_one_parts();
    let _ = lemma_representable(0x80_0000, 126);
    assert(n * one() >= 0 && (n * one()) * 1 <= one() * d) by (nonlinear_arith)
        requires
            0 <= n <= d,
            one() > 0,
    ;
    lemma_round_mono(n * one(), d, one(), 1);
    lemma_round_nonneg(n * one(), d);
}

/// Zero rounds to zero.
pub proof fn lemma_round_zero(d: int)
    requires
        d > 0,
    ensures
        round_units(0, d) == 0,
{
    let j = lemma_fits_exists(0, d);
    lemma_round_units_at(0, d, j);
    lemma_pow2_pos(j);
    assert(d * pow2(j) > 0) by (nonlinear_arith)
        requires
            d > 0,
            pow2(j) > 0,
    ;
    lemma_rhe_zero(d * pow2(j));
}

/// Rounding moves a value by at most half a spacing: at most 2^-24 of the
/// value, or half a unit among the subnormals.
pub proof fn lemma_round_error(p: int)
    requires
        p >= 0,
    ensures
        0x100_0000 * round_units(p, 1) >= 0x100_0000 * p - p - 0x80_0000,
        0x100_0000 * round_units(p, 1) <= 0x100_0000 * p + p + 0x80_0000,
{
    lemma_pow2_values();
    let j = lemma_fits_exists(p, 1);
    lemma_round_units_at(p, 1, j);
    lemma_pow2_pos(j);
    let w = pow2(j) as int;
    assert(1 * w == w);
    lemma_fundamental_div_mod(p, w);
    lemma_mod_pos_bound(p, w);
    let q = p / w;
    let r = p % w;
    let m = round_half_even(p, w);
    assert(m == q ==> 2 * r <= w);
    assert(m == q + 1 ==> 2 * r >= w);
    assert(2 * (w * m) >= 2 * p - w && 2 * (w * m) <= 2 * p + w) by (nonlinear_arith)
        requires
            p == w * q + r,
            0 <= r < w,
            m == q || m == q + 1,
            m == q ==> 2 * r <= w,
            m == q + 1 ==> 2 * r >= w,
    ;
    if j == 0 {
        lemma2_to64();
        assert(w == 1);
    } else {
        lemma_pow2_adds(23, j);
        assert(0x80_0000 * w <= p);
    }
}

} // verus!
