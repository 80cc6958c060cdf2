//! Colour encoding, blending and random sampling.
use vstd::prelude::*;
use rand::Rng;
use crate::fixed::{floor_div, LIMIT, fx_mul, lemma_isqrt_exists, fx_sqrt, mul_spec, sqrt_spec, ONE};
use crate::vec3::{square_length_spec, v3, Vec3};

verus! {

/// An 8-bit RGBA pixel.
#[derive(Clone, Copy, Debug, PartialEq, Eq, Structural)]
pub struct Rgba {
    pub r: u8,
    pub g: u8,
    pub b: u8,
    pub a: u8,
}

/// Relies on rand's `thread_rng().gen_range(lo..hi)`: a value in `[lo, hi)`
/// (it panics on an empty range, which `requires` rules out).
#[verifier::external_body]
fn random_in(lo: i64, hi: i64) -> (r: i64)
    requires
        lo < hi,
    ensures
        lo <= r < hi,
{
    rand::thread_rng().gen_range(lo..hi)
}

/// A uniformly drawn scalar in `[0, 1)`.
pub fn random_unit() -> (r: i64)
    ensures
        0 <= r < ONE,
{
    random_in(0, ONE)
}

/// Whether `p` lies in the closed unit ball.
pub open spec fn in_unit_ball(p: Vec3) -> bool {
    square_length_spec(p) <= ONE as int
}

/// Whether every component of `p` lies in `[-1, 1)`.
pub open spec fn in_cube(p: Vec3) -> bool {
    &&& -ONE <= p.x < ONE
    &&& -ONE <= p.y < ONE
    &&& -ONE <= p.z < ONE
}

/// The first of `draws` that lies in the unit ball, or the centre when none does.
pub open spec fn first_in_ball_spec(draws: Seq<Vec3>) -> Vec3
    decreases draws.len(),
{
    if draws.len() == 0 {
        Vec3::spec_zero()
    } else if in_unit_ball(draws[0]) {
        draws[0]
    } else {
        first_in_ball_spec(draws.drop_first())
    }
}

/// The first accepted draw lies in the ball, and in the cube when every draw does.
pub proof fn lemma_first_in_ball(draws: Seq<Vec3>)
    ensures
        in_unit_ball(first_in_ball_spec(draws)),
        (forall|i: int| 0 <= i < draws.len() ==> in_cube(#[trigger] draws[i])) ==> in_cube(first_in_ball_spec(draws)),
    decreases draws.len(),
{
    if draws.len() == 0 {
        assert(square_length_spec(Vec3::spec_zero()) == 0);
    } else if !in_unit_ball(draws[0]) {
        lemma_first_in_ball(draws.drop_first());
        if forall|i: int| 0 <= i < draws.len() ==> in_cube(#[trigger] draws[i]) {
            assert forall|i: int| 0 <= i < draws.drop_first().len() implies in_cube(#[trigger] draws.drop_first()[i]) by {
                assert(in_cube(draws[i + 1]));
            }
        }
    }
}

/// Rejection sampling over given draws: the first one that lies in the unit
/// ball, or the centre when none does.
pub fn first_in_ball(draws: &Vec<Vec3>) -> (r: Vec3)
    ensures
        r == first_in_ball_spec(draws@),
{
    let mut i: usize = 0;
    assert(draws@.subrange(0, draws@.len() as int) == draws@);
    while i < draws.len()
        invariant
            i <= draws@.len(),
            first_in_ball_spec(draws@) == first_in_ball_spec(draws@.subrange(i as int, draws@.len() as int)),
        decreases draws@.len() - i,
    {
        let ghost rest = draws@.subrange(i as int, draws@.len() as int);
        assert(rest[0] == draws@[i as int]);
        if draws[i].square_length() <= ONE {
            return draws[i];
        }
        assert(rest.drop_first() == draws@.subrange(i as int + 1, draws@.len() as int));
        i = i + 1;
    }
    assert(draws@.subrange(i as int, draws@.len() as int).len() == 0);
    Vec3::zero()
}

/// How many draws the rejection sampler makes before it settles for the centre.
pub const MAX_DRAWS: u32 = 64;

/// A point of the unit ball, drawn by rejection from the cube `[-1, 1)^3`:
/// uniform draws are made until one lies in the ball, and that one is
/// returned. Each draw is accepted with probability above one half; should
/// every one of `MAX_DRAWS` draws miss, the centre is returned.
pub fn rnd_in_unit_sphere() -> (r: Vec3)
    ensures
        in_unit_ball(r),
        in_cube(r),
        exists|draws: Seq<Vec3>| {
            &&& 1 <= draws.len() <= MAX_DRAWS
            &&& forall|i: int| 0 <= i < draws.len() ==> in_cube(#[trigger] draws[i])
            &&& forall|i: int| 0 <= i < draws.len() - 1 ==> !in_unit_ball(#[trigger] draws[i])
            &&& r == #[trigger] first_in_ball_spec(draws)
        },
{
    let mut draws: Vec<Vec3> = Vec::new();
    let mut n: u32 = 0;
    loop
        invariant_except_break
            n < MAX_DRAWS,
            forall|i: int| 0 <= i < draws@.len() ==> !in_unit_ball(#[trigger] draws@[i]),
        invariant
            n <= MAX_DRAWS,
            draws@.len() == n,
            forall|i: int| 0 <= i < draws@.len() ==> in_cube(#[trigger] draws@[i]),
        ensures
            1 <= draws@.len() <= MAX_DRAWS,
            forall|i: int| 0 <= i < draws@.len() - 1 ==> !in_unit_ball(#[trigger] draws@[i]),
        decreases MAX_DRAWS - n,
    {
        let p = Vec3::new(random_in(-ONE, ONE), random_in(-ONE, ONE), random_in(-ONE, ONE));
        draws.push(p);
        n = n + 1;
        if p.square_length() <= ONE || n == MAX_DRAWS {
            break;
        }
    }
    let r = first_in_ball(&draws);
    proof {
        lemma_first_in_ball(draws@);
        assert(r == first_in_ball_spec(draws@));
    }
    r
}

/// A scalar in `[0, 1]` as a byte: `round(clamp01(c) * 255)`.
pub open spec fn to_byte(c: int) -> u8 {
    if c <= 0 {
        0
    } else if c >= ONE as int {
        255
    } else {
        ((c * 255 + 32768) / (ONE as int)) as u8
    }
}

/// A byte as a scalar in `[0, 1]`: `b / 255`, rounded to the nearest step.
pub open spec fn from_byte(b: u8) -> int {
    (b as int * ONE + 127) / 255
}

fn channel_to_byte(c: i64) -> (r: u8)
    ensures
        r == to_byte(c as int),
{
    if c <= 0 {
        0
    } else if c >= ONE {
        255
    } else {
        assert((c * 255 + 32768) / 65536 <= 255) by (nonlinear_arith)
            requires 0 < c < 65536;
        ((c * 255 + 32768) / ONE) as u8
    }
}

fn byte_to_channel(b: u8) -> (r: i64)
    ensures
        r as int == from_byte(b),
        0 <= r <= ONE,
{
    (b as i64 * ONE + 127) / 255
}

pub open spec fn rgba_spec(r: int, g: int, b: int, a: int) -> Rgba {
    Rgba { r: to_byte(r), g: to_byte(g), b: to_byte(b), a: to_byte(a) }
}

/// The display gamma: the square root of each channel.
pub open spec fn gamma_spec(v: Vec3) -> Vec3 {
    v3(sqrt_spec(v.x as int), sqrt_spec(v.y as int), sqrt_spec(v.z as int))
}

/// The inverse display gamma: the square of each channel.
pub open spec fn igamma_spec(v: Vec3) -> Vec3 {
    v3(mul_spec(v.x as int, v.x as int), mul_spec(v.y as int, v.y as int), mul_spec(v.z as int, v.z as int))
}

/// Linear interpolation of two bytes, `a + (b - a) * t`, kept within a byte.
pub open spec fn lerp_spec(a: u8, b: u8, t: int) -> u8 {
    let v = a as int + ((b as int - a as int) * t) / (ONE as int);
    if v < 0 {
        0
    } else if v > 255 {
        255
    } else {
        v as u8
    }
}

/// Encoding a linear value of `[0, 1]` for display (square root, then a
/// byte) and decoding it again (back to a scalar, then squared) returns it
/// to within one 8-bit step, `ONE / 255`, and a few steps of the scalar grid.
pub proof fn lemma_gamma_round_trip(x: int)
    requires
        0 <= x <= ONE,
    ensures
        ({
            let b = to_byte(sqrt_spec(x));
            let back = mul_spec(from_byte(b), from_byte(b));
            -(ONE / 255 + 8) <= back - x <= ONE / 255 + 8
        }),
{
    let one = ONE as int;
    let s = sqrt_spec(x);
    if x == 0 {
        assert(s == 0);
    } else {
        lemma_isqrt_exists(x * one);
        assert(x * one <= one * one) by (nonlinear_arith)
            requires 0 <= x <= one, one > 0;
    }
    assert(s * s <= x * one && x * one < (s + 1) * (s + 1) && s >= 0);
    assert(s <= one) by (nonlinear_arith)
        requires s * s <= x * one, x <= one, one == 65536, s >= 0;
    let b = to_byte(s) as int;
    assert(65536 * b <= 255 * s + 32768 < 65536 * b + 65536);
    let f = from_byte(b as u8);
    assert(255 * f <= 65536 * b + 127 < 255 * f + 255);
    assert(-129 <= f - s <= 129);
    assert(0 <= f <= one);
    let back = mul_spec(f, f);
    assert(0 <= f * f <= one * one) by (nonlinear_arith)
        requires 0 <= f <= one;
    assert(back == (f * f) / one);
    assert(one * back <= f * f < one * back + one);
    assert(f * f - s * s == (f - s) * (f + s)) by (nonlinear_arith);
    assert(-129 * (f + s) <= (f - s) * (f + s) <= 129 * (f + s)) by (nonlinear_arith)
        requires -129 <= f - s <= 129, f + s >= 0;
    assert(one * (back - x) <= 258 * one);
    assert((s + 1) * (s + 1) == s * s + 2 * s + 1) by (nonlinear_arith);
    assert(one * (back - x) > -262 * one);
    assert(back - x <= 258) by (nonlinear_arith)
        requires one * (back - x) <= 258 * one, one > 0;
    assert(back - x >= -261) by (nonlinear_arith)
        requires one * (back - x) > -262 * one, one > 0;
}

/// Decoding after encoding a linear value, square root then square, returns
/// it rounded down, by less than `(2 sqrt(x) + 1) / ONE` steps of the scalar
/// grid: at most 5 steps for values in `[0, 4]`.
pub proof fn lemma_gamma_inverse(x: int)
    requires
        0 <= x <= LIMIT,
    ensures
        0 <= x - mul_spec(sqrt_spec(x), sqrt_spec(x)),
        (ONE as int) * (x - mul_spec(sqrt_spec(x), sqrt_spec(x))) <= 2 * sqrt_spec(x) + ONE,
        x <= 4 * ONE ==> x - mul_spec(sqrt_spec(x), sqrt_spec(x)) <= 5,
{
    let one = ONE as int;
    let s = sqrt_spec(x);
    if x == 0 {
        assert(mul_spec(0, 0) == 0);
    } else {
        lemma_isqrt_exists(x * one);
        assert(s * s <= x * one < (s + 1) * (s + 1));
        assert(0 <= s * s) by (nonlinear_arith);
        assert((s * s) / one <= x) by (nonlinear_arith)
            requires s * s <= x * one, one == 65536, s * s >= 0;
        vstd::arithmetic::div_mod::lemma_div_pos_is_pos(s * s, 65536);
        let back = mul_spec(s, s);
        assert(back == (s * s) / one);
        vstd::arithmetic::div_mod::lemma_fundamental_div_mod(s * s, 65536);
        vstd::arithmetic::div_mod::lemma_mod_bound(s * s, 65536);
        assert(one * back <= s * s < one * back + one);
        assert((s + 1) * (s + 1) == s * s + 2 * s + 1) by (nonlinear_arith);
        assert(back <= x) by (nonlinear_arith)
            requires one * back <= s * s, s * s <= x * one, one > 0;
        assert(one * (x - back) <= 2 * s + one) by (nonlinear_arith)
            requires x * one < s * s + 2 * s + 1, s * s < one * back + one;
        if x <= 4 * one {
            assert(s <= 2 * one) by (nonlinear_arith)
                requires s * s <= x * one, x <= 4 * one, one == 65536, s >= 0;
            assert(x - back <= 5) by (nonlinear_arith)
                requires one * (x - back) <= 2 * s + one, s <= 2 * one, one == 65536;
        }
    }
}

pub fn gamma(v: Vec3) -> (r: Vec3)
    ensures
        r == gamma_spec(v),
        r.x as int == sqrt_spec(v.x as int),
        r.y as int == sqrt_spec(v.y as int),
        r.z as int == sqrt_spec(v.z as int),
{
    Vec3::new(fx_sqrt(v.x), fx_sqrt(v.y), fx_sqrt(v.z))
}

pub fn igamma(v: Vec3) -> (r: Vec3)
    ensures
        r == igamma_spec(v),
{
    Vec3::new(fx_mul(v.x, v.x), fx_mul(v.y, v.y), fx_mul(v.z, v.z))
}

pub fn rgba(r: i64, g: i64, b: i64, a: i64) -> (p: Rgba)
    ensures
        p == rgba_spec(r as int, g as int, b as int, a as int),
{
    Rgba { r: channel_to_byte(r), g: channel_to_byte(g), b: channel_to_byte(b), a: channel_to_byte(a) }
}

/// An opaque pixel.
pub fn rgb(r: i64, g: i64, b: i64) -> (p: Rgba)
    ensures
        p == rgba_spec(r as int, g as int, b as int, ONE as int),
        p.a == 255,
{
    rgba(r, g, b, ONE)
}

pub fn vec3_to_rgb(v: Vec3) -> (p: Rgba)
    ensures
        p == rgba_spec(v.x as int, v.y as int, v.z as int, ONE as int),
{
    rgb(v.x, v.y, v.z)
}

pub fn rgb_to_vec3(p: Rgba) -> (v: Vec3)
    ensures
        v == v3(from_byte(p.r), from_byte(p.g), from_byte(p.b)),
{
    Vec3::new(byte_to_channel(p.r), byte_to_channel(p.g), byte_to_channel(p.b))
}

pub fn lerp(a: u8, b: u8, t: i64) -> (r: u8)
    ensures
        r == lerp_spec(a, b, t as int),
{
    let d = b as i128 - a as i128;
    let ti = t as i128;
    assert(-0x100_0000_0000_0000_0000 <= d * ti <= 0x100_0000_0000_0000_0000) by (nonlinear_arith)
        requires -255 <= d <= 255, -0x8000_0000_0000_0000 <= ti <= 0x7fff_ffff_ffff_ffff;
    let prod = d * ti;
    let q = floor_div(prod, ONE as i128);
    let v = a as i128 + q;
    if v < 0 {
        0
    } else if v > 255 {
        255
    } else {
        v as u8
    }
}

pub fn lerp_rgba(im0: Rgba, im1: Rgba, x: i64) -> (r: Rgba)
    ensures
        r == (Rgba {
            r: lerp_spec(im0.r, im1.r, x as int),
            g: lerp_spec(im0.g, im1.g, x as int),
            b: lerp_spec(im0.b, im1.b, x as int),
            a: lerp_spec(im0.a, im1.a, x as int),
        }),
{
    Rgba { r: lerp(im0.r, im1.r, x), g: lerp(im0.g, im1.g, x), b: lerp(im0.b, im1.b, x), a: lerp(im0.a, im1.a, x) }
}

} // verus!
