//! Colour of one glyph of a falling drop: a bright head and a trail whose
//! brightness falls off quadratically, dimmed further on the far layer.
//!
//! The colour is computed in single precision exactly as the screensaver
//! specifies it, every step rounded as IEEE 754 rounds it (see `single`).

use vstd::prelude::*;
use vstd::arithmetic::power2::{pow2, lemma_pow2_pos, lemma_pow2_unfold, lemma_pow2_adds, lemma2_to64, lemma_pow2_strictly_increases};
use crate::arith::lemma_floor_div;
use crate::single::{lemma_units_sign, lemma_mul_one, lemma_one_parts, lemma_from_small_int, lemma_to_u8_whole, lemma_round_repr, lemma_round_nonneg, lemma_to_u8_mono, lemma_literal_le, lemma_literal_le_one, lemma_mul_mono, lemma_round_mono, lemma_round_zero, lemma_representable, lemma_round_units_at, lemma_rhe_scale, lemma_absorb, lemma_round_error, round_units, round_half_even, ulp_fits, Single, one, units, canonical, sub_s, add_s, mul_s, div_s, from_int, literal, to_u8, difference, from_u64, less, quotient, product, literal_exec, sum, to_u8_exec};

verus! {

pub open spec fn clamp_s(x: int, lo: int, hi: int) -> int {
    if x < lo {
        lo
    } else if x > hi {
        hi
    } else {
        x
    }
}

/// The larger of two values (the second one when they are equal).
pub open spec fn max_s(x: int, y: int) -> int {
    if x < y {
        y
    } else {
        x
    }
}

/// Position `t` along the trail: 1 at the head, falling to 0 at the tip,
/// `1 - k / max(length - 1, 1)`, or 1 for drops of at most one glyph.
pub open spec fn trail_pos(k: usize, length: usize) -> int {
    if length <= 1 {
        one()
    } else {
        let den = max_s(sub_s(from_int(length as int), one()), one());
        sub_s(one(), div_s(from_int(k as int), den))
    }
}

/// Brightness of glyph `k`: full at the head, `0.06 + 0.55 * t^2` clamped
/// to `[0.05, 0.72]` along the trail.
pub open spec fn intensity(k: usize, length: usize) -> int {
    if k == 0 {
        one()
    } else {
        let t = trail_pos(k, length);
        clamp_s(
            add_s(literal(6, 100), mul_s(literal(55, 100), mul_s(t, t))),
            literal(5, 100),
            literal(72, 100),
        )
    }
}

/// Depth factor: the far layer (0) is drawn at 0.42.
pub open spec fn depth(layer: u8) -> int {
    if layer == 0 {
        literal(42, 100)
    } else {
        one()
    }
}

/// One colour channel: the accent channel times brightness times depth,
/// truncated to a byte.
pub open spec fn glyph_channel(a: u8, k: usize, length: usize, layer: u8) -> int {
    to_u8(mul_s(from_int(a as int), mul_s(intensity(k, length), depth(layer))))
}

pub open spec fn glyph_color(accent: (u8, u8, u8), k: usize, length: usize, layer: u8) -> (u8, u8, u8) {
    (
        glyph_channel(accent.0, k, length, layer) as u8,
        glyph_channel(accent.1, k, length, layer) as u8,
        glyph_channel(accent.2, k, length, layer) as u8,
    )
}

/// One, exactly.
pub fn one_exec() -> (r: Single)
    ensures
        canonical(r),
        units(r) == one(),
        r.j == 126,
{
    let r = Single { neg: false, m: 0x80_0000, j: 126 };
    proof {
        vstd::arithmetic::power2::lemma_pow2_adds(23, 126);
        vstd::arithmetic::power2::lemma2_to64();
    }
    r
}

/// Brightness times depth of glyph `k` of a drop.
pub fn glyph_scale(k: usize, length: usize, layer: u8) -> (r: Single)
    ensures
        canonical(r),
        units(r) == mul_s(intensity(k, length), depth(layer)),
        r.j <= 2000,
{
    let one = one_exec();
    let i = if k == 0 {
        one
    } else {
        let t = if length <= 1 {
            one
        } else {
            let den0 = difference(from_u64(length as u64), one);
            let den = if less(den0, one) {
                one
            } else {
                den0
            };
            proof {
                assert(units(den) >= units(one));
                lemma_units_sign(den);
                vstd::arithmetic::power2::lemma_pow2_pos(149);
            }
            difference(one, quotient(from_u64(k as u64), den))
        };
        let tt = product(t, t);
        let p55 = product(literal_exec(55, 100), tt);
        let sum06 = sum(literal_exec(6, 100), p55);
        let lo = literal_exec(5, 100);
        let hi = literal_exec(72, 100);
        if less(sum06, lo) {
            lo
        } else if less(hi, sum06) {
            hi
        } else {
            sum06
        }
    };
    let d = if layer == 0 {
        literal_exec(42, 100)
    } else {
        one
    };
    product(i, d)
}

/// One colour channel of glyph `k` of a drop of the given length and layer.
pub fn glyph_channel_exec(a: u8, k: usize, length: usize, layer: u8) -> (r: u8)
    ensures
        r == glyph_channel(a, k, length, layer),
{
    let s = glyph_scale(k, length, layer);
    to_u8_exec(product(from_u64(a as u64), s))
}

/// Colour of glyph `k` (0 is the head) of a drop of `length` glyphs on `layer`
/// (0 far, 1 near): the accent scaled by the glyph's brightness and depth.
pub fn calculate_glyph_color(accent: (u8, u8, u8), k: usize, length: usize, layer: u8) -> (r: (u8, u8, u8))
    ensures
        r == glyph_color(accent, k, length, layer),
{
    let r = glyph_channel_exec(accent.0, k, length, layer);
    let g = glyph_channel_exec(accent.1, k, length, layer);
    let b = glyph_channel_exec(accent.2, k, length, layer);
    (r, g, b)
}

/// The head of a drop on the near layer is drawn in the full accent colour.
pub proof fn lemma_near_head_is_accent(accent: (u8, u8, u8), length: usize)
    ensures
        glyph_color(accent, 0, length, 1) == accent,
{
    lemma_one_parts();
    lemma_mul_one(0x80_0000, 126);
    assert(mul_s(intensity(0, length), depth(1)) == one());
    assert forall|a: u8| glyph_channel(a, 0, length, 1) == a by {
        lemma_from_small_int(a as int);
        lemma_mul_one(a as int, 149);
        lemma_to_u8_whole(a as int);
    }
    assert(glyph_channel(accent.0, 0, length, 1) == accent.0);
    assert(glyph_channel(accent.1, 0, length, 1) == accent.1);
    assert(glyph_channel(accent.2, 0, length, 1) == accent.2);
}

/// The brightness of a glyph lies between 0.05 and one, and below 0.72
/// behind the head; it has a 24-bit significand.
proof fn lemma_intensity_range(k: usize, length: usize) -> (r: (int, nat))
    ensures
        0 <= intensity(k, length) <= one(),
        k >= 1 ==> intensity(k, length) <= literal(72, 100),
        0 <= r.0 < 0x100_0000,
        intensity(k, length) == r.0 * pow2(r.1),
{
    lemma_one_parts();
    lemma_literal_le(5, 72, 100);
    lemma_literal_le_one(72, 100);
    lemma_pow2_pos(149);
    if k == 0 {
        (0x80_0000, 126)
    } else {
        let t = trail_pos(k, length);
        let x = add_s(literal(6, 100), mul_s(literal(55, 100), mul_s(t, t)));
        let lo = literal(5, 100);
        let hi = literal(72, 100);
        assert(t * t >= 0) by (nonlinear_arith);
        lemma_round_nonneg(t * t, one());
        lemma_literal_le(0, 55, 100);
        lemma_literal_le(0, 6, 100);
        lemma_mul_mono(literal(55, 100), literal(55, 100), mul_s(t, t));
        if x < lo {
            lemma_round_repr(5 * one(), 100)
        } else if x > hi {
            lemma_round_repr(72 * one(), 100)
        } else {
            assert(x == round_units(literal(6, 100) + mul_s(literal(55, 100), mul_s(t, t)), 1));
            lemma_round_repr(literal(6, 100) + mul_s(literal(55, 100), mul_s(t, t)), 1)
        }
    }
}

/// Brightness times depth never exceeds the brightness alone.
proof fn lemma_scale_below_intensity(k: usize, length: usize, layer: u8)
    ensures
        0 <= mul_s(intensity(k, length), depth(layer)) <= intensity(k, length),
        mul_s(intensity(k, length), depth(0)) <= mul_s(intensity(k, length), depth(1)),
{
    let r = lemma_intensity_range(k, length);
    lemma_mul_one(r.0, r.1);
    lemma_literal_le_one(42, 100);
    lemma_one_parts();
    lemma_pow2_pos(149);
    lemma_mul_mono(literal(42, 100), one(), intensity(k, length));
    lemma_mul_mono(0, depth(layer), intensity(k, length));
}

/// A glyph on the far layer is never brighter than the same glyph on the near layer.
pub proof fn lemma_far_layer_dimmer(a: u8, k: usize, length: usize)
    ensures
        glyph_channel(a, k, length, 0) <= glyph_channel(a, k, length, 1),
{
    lemma_scale_below_intensity(k, length, 0);
    lemma_scale_below_intensity(k, length, 1);
    lemma_from_small_int(a as int);
    lemma_pow2_pos(149);
    assert(a * one() >= 0) by (nonlinear_arith)
        requires
            a >= 0,
            one() > 0,
    ;
    lemma_mul_mono(
        mul_s(intensity(k, length), depth(0)),
        mul_s(intensity(k, length), depth(1)),
        from_int(a as int),
    );
    lemma_to_u8_mono(
        mul_s(from_int(a as int), mul_s(intensity(k, length), depth(0))),
        mul_s(from_int(a as int), mul_s(intensity(k, length), depth(1))),
    );
}

/// Every glyph behind the head is drawn at most as bright as the accent
/// scaled by 0.72, and no glyph is brighter than the accent.
pub proof fn lemma_trail_capped(a: u8, k: usize, length: usize, layer: u8)
    ensures
        k >= 1 ==> glyph_channel(a, k, length, layer) <= to_u8(mul_s(from_int(a as int), literal(72, 100))),
        glyph_channel(a, k, length, layer) <= a,
{
    lemma_scale_below_intensity(k, length, layer);
    let _ = lemma_intensity_range(k, length);
    lemma_from_small_int(a as int);
    lemma_pow2_pos(149);
    assert(a * one() >= 0) by (nonlinear_arith)
        requires
            a >= 0,
            one() > 0,
    ;
    let s = mul_s(intensity(k, length), depth(layer));
    lemma_one_parts();
    lemma_literal_le_one(72, 100);
    lemma_mul_mono(s, one(), from_int(a as int));
    lemma_mul_one(a as int, 149);
    lemma_to_u8_mono(mul_s(from_int(a as int), s), a * one());
    lemma_to_u8_whole(a as int);
    if k >= 1 {
        lemma_mul_mono(s, literal(72, 100), from_int(a as int));
        lemma_to_u8_mono(mul_s(from_int(a as int), s), mul_s(from_int(a as int), literal(72, 100)));
    }
}

/// Whole numbers up to 2^24 convert to single precision exactly.
proof fn lemma_whole_exact(n: int)
    requires
        0 <= n <= 0x100_0000,
    ensures
        from_int(n) == n * one(),
{
    if n < 0x100_0000 {
        lemma_from_small_int(n);
    } else {
        let _ = lemma_representable(0x80_0000, 150);
        lemma_pow2_unfold(150);
        lemma_pow2_pos(149);
        assert(n * one() == 0x80_0000 * pow2(150));
    }
}

/// For drops of at most 2^24 glyphs the trail position of every glyph lies
/// in `[0, 1]`, it falls (never rises) from head to tip, and it is 0 at the tip.
proof fn lemma_trail_pos_falls(k1: usize, k2: usize, length: usize)
    requires
        1 <= k1 <= k2 < length,
        length <= 0x100_0000,
    ensures
        0 <= trail_pos(k2, length) <= trail_pos(k1, length) <= one(),
        k2 + 1 == length ==> trail_pos(k2, length) == 0,
{
    let l = length as int;
    let o = one();
    lemma_pow2_pos(149);
    lemma_one_parts();
    let _ = lemma_representable(0x80_0000, 126);
    assert(round_units(o, 1) == o);
    lemma_whole_exact(l);
    lemma_whole_exact(l - 1);
    lemma_whole_exact(k1 as int);
    lemma_whole_exact(k2 as int);
    assert(l * o - o == (l - 1) * o && (l - 1) * o >= o) by (nonlinear_arith)
        requires
            l >= 2,
            o > 0,
    ;
    let den = (l - 1) * o;
    assert(sub_s(from_int(l), o) == den);
    assert(max_s(sub_s(from_int(l), o), o) == den);
    let p1 = (k1 * o) * o;
    let p2 = (k2 * o) * o;
    assert(0 <= p1 && p1 * den <= p2 * den && p2 * 1 <= o * den && o * den <= ((l - 1) * o) * o) by (nonlinear_arith)
        requires
            1 <= k1 <= k2 <= l - 1,
            o > 0,
            den == (l - 1) * o,
            p1 == (k1 * o) * o,
            p2 == (k2 * o) * o,
    ;
    lemma_round_mono(p1, den, p2, den);
    lemma_round_mono(p2, den, o, 1);
    lemma_round_nonneg(p1, den);
    let q1 = div_s(from_int(k1 as int), den);
    let q2 = div_s(from_int(k2 as int), den);
    assert(0 <= q1 <= q2 <= o);
    lemma_round_mono(o - q2, 1, o - q1, 1);
    lemma_round_mono(o - q1, 1, o, 1);
    lemma_round_nonneg(o - q2, 1);
    assert(trail_pos(k1, length) == round_units(o - q1, 1));
    assert(trail_pos(k2, length) == round_units(o - q2, 1));
    if k2 + 1 == length {
        lemma_round_mono(o, 1, p2, den);
        lemma_round_zero(1);
    }
}

/// Brightness behind the head follows the trail position while that
/// position lies in `[0, 1]`.
proof fn lemma_intensity_follows_pos(k1: usize, k2: usize, length: usize)
    requires
        1 <= k1,
        1 <= k2,
        0 <= trail_pos(k2, length) <= trail_pos(k1, length),
    ensures
        intensity(k2, length) <= intensity(k1, length),
{
    lemma_pow2_pos(149);
    let t1 = trail_pos(k1, length);
    let t2 = trail_pos(k2, length);
    lemma_mul_mono(t2, t1, t2);
    lemma_mul_mono(t2, t1, t1);
    let tt1 = mul_s(t1, t1);
    let tt2 = mul_s(t2, t2);
    let c55 = literal(55, 100);
    let c6 = literal(6, 100);
    lemma_literal_le(55, 55, 100);
    lemma_literal_le(6, 6, 100);
    lemma_literal_le(5, 72, 100);
    lemma_mul_mono(tt2, tt1, c55);
    assert(c55 * tt2 == tt2 * c55) by (nonlinear_arith);
    assert(mul_s(c55, tt2) == mul_s(tt2, c55));
    let x1 = c6 + mul_s(c55, tt1);
    let x2 = c6 + mul_s(c55, tt2);
    lemma_round_mono(x2, 1, x1, 1);
}

/// A channel follows the brightness of its glyph.
proof fn lemma_channel_follows(a: u8, k1: usize, k2: usize, length: usize, layer: u8)
    requires
        intensity(k2, length) <= intensity(k1, length),
    ensures
        glyph_channel(a, k2, length, layer) <= glyph_channel(a, k1, length, layer),
{
    let _ = lemma_intensity_range(k2, length);
    lemma_pow2_pos(149);
    let i1 = intensity(k1, length);
    let i2 = intensity(k2, length);
    lemma_literal_le_one(42, 100);
    lemma_mul_mono(i2, i1, depth(layer));
    lemma_from_small_int(a as int);
    assert(a * one() >= 0) by (nonlinear_arith)
        requires
            a >= 0,
            one() > 0,
    ;
    let s1 = mul_s(i1, depth(layer));
    let s2 = mul_s(i2, depth(layer));
    lemma_mul_mono(s2, s1, from_int(a as int));
    lemma_to_u8_mono(mul_s(from_int(a as int), s2), mul_s(from_int(a as int), s1));
}

/// No glyph is drawn below brightness 0.06.
proof fn lemma_intensity_floor(k: usize, length: usize)
    ensures
        literal(6, 100) <= intensity(k, length),
{
    lemma_six_percent();
    lemma_pow2_pos(149);
    lemma_literal_le(5, 6, 100);
    lemma_literal_le(6, 72, 100);
    lemma_literal_le_one(6, 100);
    if k >= 1 {
        let t = trail_pos(k, length);
        assert(t * t >= 0) by (nonlinear_arith);
        lemma_round_nonneg(t * t, one());
        let tt = mul_s(t, t);
        lemma_literal_le(55, 55, 100);
        lemma_mul_mono(literal(55, 100), literal(55, 100), tt);
        let y = mul_s(literal(55, 100), tt);
        lemma_round_mono(literal(6, 100), 1, literal(6, 100) + y, 1);
    }
}

/// A trail position within 2^-21 of zero gives brightness 0.06 exactly: its
/// square is lost when added to 0.06.
proof fn lemma_small_position(k: usize, length: usize)
    requires
        1 <= k,
        -pow2(128) <= trail_pos(k, length) <= pow2(128),
    ensures
        intensity(k, length) == literal(6, 100),
{
    let t = trail_pos(k, length);
    let e = pow2(128) as int;
    let b = pow2(107) as int;
    lemma2_to64();
    lemma_pow2_adds(128, 128);
    lemma_pow2_adds(107, 149);
    lemma_pow2_adds(23, 84);
    lemma_pow2_pos(149);
    lemma_pow2_pos(128);
    assert(t * t >= 0 && t * t <= e * e) by (nonlinear_arith)
        requires
            -e <= t <= e,
    ;
    assert(b * one() == e * e);
    let _ = lemma_representable(0x80_0000, 84);
    assert(0x80_0000 * pow2(84) == b);
    lemma_round_mono(t * t, one(), b, 1);
    lemma_round_nonneg(t * t, one());
    let tt = mul_s(t, t);
    assert(0 <= tt <= b);
    let c55 = literal(55, 100);
    lemma_literal_le_one(55, 100);
    assert(c55 * tt >= 0 && c55 * tt <= b * one()) by (nonlinear_arith)
        requires
            0 <= c55 <= one(),
            0 <= tt <= b,
    ;
    lemma_round_mono(c55 * tt, one(), b, 1);
    lemma_round_nonneg(c55 * tt, one());
    let x = mul_s(c55, tt);
    assert(0 <= x <= b);
    lemma_pow2_strictly_increases(107, 119);
    lemma_six_percent();
    lemma_absorb(16106127, 121, x);
    assert(add_s(literal(6, 100), x) == literal(6, 100));
    lemma_literal_le(5, 6, 100);
    lemma_literal_le(6, 72, 100);
}

/// For drops longer than 2^24 glyphs, where whole numbers no longer convert
/// exactly, the trail position still never rises toward the tip while it is
/// positive, and it never falls below -2^-21.
proof fn lemma_long_positions(k1: usize, k2: usize, length: usize)
    requires
        1 <= k1 <= k2 < length,
        length > 0x100_0000,
    ensures
        -pow2(128) <= trail_pos(k2, length),
        trail_pos(k2, length) > 0 ==> trail_pos(k2, length) <= trail_pos(k1, length),
{
    let o = one();
    let l = length as int;
    let n = l - 1;
    let e = pow2(128) as int;
    lemma_pow2_pos(149);
    lemma_pow2_pos(128);
    lemma_pow2_pos(126);
    lemma_one_parts();
    lemma2_to64();
    lemma_pow2_adds(21, 128);
    lemma_pow2_adds(2, 126);
    lemma_pow2_adds(23, 105);
    assert(o == 0x20_0000 * e);
    assert(e == 4 * pow2(126));
    let f1 = from_int(k1 as int);
    let f2 = from_int(k2 as int);
    let fa = from_int(n);
    let fc = from_int(l);
    assert(0 <= k1 * o <= k2 * o <= n * o <= l * o && 0x100_0000 * o <= n * o) by (nonlinear_arith)
        requires
            1 <= k1 <= k2 <= n,
            n + 1 == l,
            0x100_0000 <= n,
            o > 0,
    ;
    lemma_round_mono(k1 * o, 1, k2 * o, 1);
    lemma_round_mono(k2 * o, 1, n * o, 1);
    lemma_round_mono(n * o, 1, l * o, 1);
    lemma_round_mono(0x100_0000 * o, 1, n * o, 1);
    lemma_whole_exact(0x100_0000);
    lemma_round_nonneg(k1 * o, 1);
    assert(0 <= f1 <= f2 <= fa <= fc);
    assert(fa >= 0x100_0000 * o);
    lemma_round_mono(fa - o, 1, fc - o, 1);
    lemma_round_error(fa - o);
    let s = sub_s(fc, o);
    let den = max_s(s, o);
    assert(0x40_0000 * den >= 0x40_0000 * fa - fa);
    assert(den >= o);
    let p1 = f1 * o;
    let p2 = f2 * o;
    assert(0 <= p1 && p1 * den <= p2 * den && 0 <= p2 <= fa * o) by (nonlinear_arith)
        requires
            0 <= f1 <= f2 <= fa,
            o > 0,
            den > 0,
            p1 == f1 * o,
            p2 == f2 * o,
    ;
    lemma_round_mono(p1, den, p2, den);
    let q1 = div_s(f1, den);
    let q2 = div_s(f2, den);
    assert(q1 <= q2);
    let v = o + e;
    let _ = lemma_representable(0x80_0004, 126);
    assert(v == 0x80_0004 * pow2(126));
    assert((o + e) * (0x40_0000 * den) >= (o + e) * (0x40_0000 * fa - fa)) by (nonlinear_arith)
        requires
            0x40_0000 * den >= 0x40_0000 * fa - fa,
            o + e > 0,
    ;
    assert((o + e) * (0x40_0000 * fa - fa) >= 0x800_0000_0000 * (e * fa)) by (nonlinear_arith)
        requires
            o == 0x20_0000 * e,
            e > 0,
            fa >= 0,
    ;
    assert(0x40_0000 * (p2 * 1) <= 0x800_0000_0000 * (e * fa)) by (nonlinear_arith)
        requires
            p2 <= fa * o,
            o == 0x20_0000 * e,
    ;
    assert(0x40_0000 * ((o + e) * den) == (o + e) * (0x40_0000 * den)) by (nonlinear_arith);
    assert(p2 * 1 <= v * den);
    lemma_round_mono(p2, den, v, 1);
    assert(q2 <= v);
    if o - q2 >= 0 {
        lemma_round_mono(o - q2, 1, o - q1, 1);
        lemma_round_nonneg(o - q2, 1);
    } else {
        let _ = lemma_representable(0x80_0000, 105);
        lemma_round_mono(q2 - o, 1, e, 1);
        lemma_round_nonneg(q2 - o, 1);
    }
}

/// From the head to the tip of a drop, a glyph nearer the tip is never drawn
/// brighter than one nearer the head.
pub proof fn lemma_trail_fades(a: u8, k1: usize, k2: usize, length: usize, layer: u8)
    requires
        k1 <= k2 < length,
    ensures
        glyph_channel(a, k2, length, layer) <= glyph_channel(a, k1, length, layer),
{
    if k1 == 0 {
        let _ = lemma_intensity_range(k2, length);
    } else if length <= 0x100_0000 {
        lemma_trail_pos_falls(k1, k2, length);
        lemma_intensity_follows_pos(k1, k2, length);
    } else {
        lemma_long_positions(k1, k2, length);
        lemma_pow2_pos(128);
        if trail_pos(k2, length) > 0 {
            lemma_intensity_follows_pos(k1, k2, length);
        } else {
            lemma_small_position(k2, length);
            lemma_intensity_floor(k1, length);
        }
    }
    lemma_channel_follows(a, k1, k2, length, layer);
}

/// For drops longer than 2^24 glyphs the tip's trail position is at most 2^-21.
proof fn lemma_long_tip(length: usize)
    requires
        length > 0x100_0000,
    ensures
        trail_pos((length - 1) as usize, length) <= pow2(128),
{
    let o = one();
    let l = length as int;
    let n = l - 1;
    let e = pow2(128) as int;
    lemma_pow2_pos(149);
    lemma_pow2_pos(128);
    lemma_pow2_pos(126);
    lemma_one_parts();
    lemma2_to64();
    lemma_pow2_adds(21, 128);
    lemma_pow2_adds(2, 126);
    assert(o == 0x20_0000 * e);
    assert(e == 4 * pow2(126));
    let fa = from_int(n);
    let fc = from_int(l);
    assert(0x100_0000 * o <= n * o <= l * o && l * o == n * o + o) by (nonlinear_arith)
        requires
            n + 1 == l,
            0x100_0000 <= n,
            o > 0,
    ;
    lemma_round_mono(n * o, 1, l * o, 1);
    lemma_round_mono(0x100_0000 * o, 1, n * o, 1);
    lemma_whole_exact(0x100_0000);
    assert(fa >= 0x100_0000 * o);
    // the denominator is at most the converted length, a representable value
    let r = lemma_round_repr(l * o, 1);
    let _ = lemma_representable(r.0, r.1);
    assert(round_units(fc, 1) == fc);
    lemma_round_mono(fc - o, 1, fc, 1);
    let s = sub_s(fc, o);
    let den = max_s(s, o);
    assert(den <= fc);
    lemma_round_error(n * o);
    lemma_round_error(l * o);
    assert(0x40_0000 * den <= 0x40_0000 * fa + fa);
    // so the tip's quotient is at least 1 - 2^-21
    let w = o - e;
    let _ = lemma_representable(0x7F_FFFC, 126);
    assert(w == 0x7F_FFFC * pow2(126));
    assert(den > 0);
    let p = fa * o;
    assert(p >= 0) by (nonlinear_arith)
        requires
            fa >= 0,
            o > 0,
            p == fa * o,
    ;
    assert(0x40_0000 * (w * den) <= 0x40_0000 * (p * 1)) by (nonlinear_arith)
        requires
            0x40_0000 * den <= 0x40_0000 * fa + fa,
            w == o - e,
            o == 0x20_0000 * e,
            e > 0,
            den > 0,
            fa >= 0,
            p == fa * o,
    ;
    lemma_round_mono(w, 1, p, den);
    let q = div_s(fa, den);
    assert(q >= w);
    if o - q >= 0 {
        let _ = lemma_representable(0x80_0000, 105);
        lemma_pow2_adds(23, 105);
        lemma_round_mono(o - q, 1, e, 1);
    } else {
        lemma_round_nonneg(q - o, 1);
    }
}

/// The tip glyph of a drop of two or more glyphs is drawn at brightness 0.06.
pub proof fn lemma_trail_tip(a: u8, length: usize, layer: u8)
    requires
        2 <= length,
    ensures
        intensity((length - 1) as usize, length) == literal(6, 100),
        glyph_channel(a, (length - 1) as usize, length, layer)
            == to_u8(mul_s(from_int(a as int), mul_s(literal(6, 100), depth(layer)))),
{
    let k = (length - 1) as usize;
    lemma_pow2_pos(128);
    if length <= 0x100_0000 {
        lemma_trail_pos_falls(k, k, length);
    } else {
        lemma_long_positions(k, k, length);
        lemma_long_tip(length);
    }
    lemma_small_position(k, length);
}

/// The literal 0.06 in single precision is 16106127 * 2^-28.
proof fn lemma_six_percent()
    ensures
        literal(6, 100) == 16106127 * pow2(121),
        round_units(literal(6, 100), 1) == literal(6, 100),
{
    lemma2_to64();
    lemma_pow2_adds(144, 5);
    lemma_pow2_adds(144, 1);
    lemma_pow2_adds(28, 121);
    lemma_pow2_adds(23, 121);
    lemma_pow2_adds(24, 121);
    lemma_pow2_pos(144);
    lemma_pow2_pos(121);
    assert(ulp_fits(6 * one(), 100, 121));
    lemma_round_units_at(6 * one(), 100, 121);
    assert(6 * one() == (6 * pow2(28)) * pow2(121)) by (nonlinear_arith)
        requires
            one() == pow2(149),
            pow2(149) == pow2(28) * pow2(121),
    ;
    lemma_rhe_scale((6 * pow2(28)) as int, 100, pow2(121) as int);
    assert(6 * pow2(28) == 1610612736);
    lemma_floor_div(1610612736, 100, 16106127);
    vstd::arithmetic::div_mod::lemma_fundamental_div_mod(1610612736, 100);
    assert(1610612736int % 100 == 36);
    assert(round_half_even(1610612736, 100) == 16106127);
    assert(round_half_even(6 * one(), (100 * pow2(121)) as int) == 16106127);
    assert(literal(6, 100) == pow2(121) * 16106127);
    let _ = lemma_representable(16106127, 121);
}

} // verus!
