//! Three-component vectors of fixed-point scalars.
use vstd::prelude::*;
use crate::fixed::{add_spec, clamp, clamp_exec, floor_div, isqrt, isqrt_exec, lemma_isqrt_exists, ONE, div_spec, fx_add, fx_div, fx_mul, fx_neg, fx_sub, mul_spec, neg_spec, sub_spec};

verus! {

/// A vector whose components are fixed-point scalars (see `fixed`), meant
/// to lie in `[-LIMIT, LIMIT]`; a component of `i64::MIN` is read as `-LIMIT`
/// by every operation that saturates (so `Ray::point(0)` moves it one step).
#[derive(Clone, Copy, Debug, PartialEq, Eq, Structural)]
pub struct Vec3 {
    pub x: i64,
    pub y: i64,
    pub z: i64,
}

/// The vector with the given components, each one already a scalar.
pub open spec fn v3(x: int, y: int, z: int) -> Vec3 {
    Vec3 { x: x as i64, y: y as i64, z: z as i64 }
}

pub open spec fn vadd(a: Vec3, b: Vec3) -> Vec3 {
    v3(add_spec(a.x as int, b.x as int), add_spec(a.y as int, b.y as int), add_spec(a.z as int, b.z as int))
}

pub open spec fn vsub(a: Vec3, b: Vec3) -> Vec3 {
    v3(sub_spec(a.x as int, b.x as int), sub_spec(a.y as int, b.y as int), sub_spec(a.z as int, b.z as int))
}

pub open spec fn vneg(a: Vec3) -> Vec3 {
    v3(neg_spec(a.x as int), neg_spec(a.y as int), neg_spec(a.z as int))
}

pub open spec fn vscale(a: Vec3, s: int) -> Vec3 {
    v3(mul_spec(a.x as int, s), mul_spec(a.y as int, s), mul_spec(a.z as int, s))
}

/// Component-wise product.
pub open spec fn vmul(a: Vec3, b: Vec3) -> Vec3 {
    v3(mul_spec(a.x as int, b.x as int), mul_spec(a.y as int, b.y as int), mul_spec(a.z as int, b.z as int))
}

pub open spec fn vdiv(a: Vec3, s: int) -> Vec3 {
    v3(div_spec(a.x as int, s), div_spec(a.y as int, s), div_spec(a.z as int, s))
}

pub open spec fn dot_spec(a: Vec3, b: Vec3) -> int {
    add_spec(add_spec(mul_spec(a.x as int, b.x as int), mul_spec(a.y as int, b.y as int)), mul_spec(a.z as int, b.z as int))
}

pub open spec fn cross_spec(a: Vec3, b: Vec3) -> Vec3 {
    v3(
        sub_spec(mul_spec(a.y as int, b.z as int), mul_spec(a.z as int, b.y as int)),
        sub_spec(mul_spec(a.z as int, b.x as int), mul_spec(a.x as int, b.z as int)),
        sub_spec(mul_spec(a.x as int, b.y as int), mul_spec(a.y as int, b.x as int)),
    )
}

pub open spec fn square_length_spec(a: Vec3) -> int {
    dot_spec(a, a)
}

/// The exact sum of the squares of the raw components.
pub open spec fn raw_square_length(a: Vec3) -> int {
    a.x * a.x + a.y * a.y + a.z * a.z
}

/// The length, rounded down to the scalar grid: the integer square root of
/// the exact sum of squares of the raw components.
pub open spec fn length_spec(a: Vec3) -> int {
    clamp(isqrt(raw_square_length(a)))
}

/// The extra precision with which a vector whose raw squared length is `s`
/// is normalized: 32 more bits for a short vector.
pub open spec fn norm_scale(s: int) -> int {
    if s < 0x1_0000_0000_0000_0000 {
        0x1_0000_0000
    } else {
        1
    }
}

/// The length of `a` times `norm_scale`, rounded down.
pub open spec fn scaled_length(a: Vec3) -> int {
    let s = raw_square_length(a);
    isqrt(s * norm_scale(s) * norm_scale(s))
}

/// Component `c` divided by the length `m / p`, on the scalar grid.
pub open spec fn unit_component(c: int, p: int, m: int) -> int {
    clamp((c * ONE * p) / m)
}

/// A non-zero vector divided by its length; the zero vector is kept.
pub open spec fn normalize_spec(a: Vec3) -> Vec3 {
    let s = raw_square_length(a);
    if s == 0 {
        a
    } else {
        let p = norm_scale(s);
        let m = scaled_length(a);
        v3(unit_component(a.x as int, p, m), unit_component(a.y as int, p, m), unit_component(a.z as int, p, m))
    }
}

/// Mirror image of `d` about the plane with normal `n`: `d - 2 (d . n) n`.
pub open spec fn reflect_spec(d: Vec3, n: Vec3) -> Vec3 {
    let k = dot_spec(d, n);
    vsub(d, vscale(n, add_spec(k, k)))
}

/// Bounds on one component `n = floor(a * ONE / l)` of a normalized vector,
/// in terms of `m = |a| * ONE`: `m^2 - 2 m l <= (l n)^2 <= (m + l)^2`.
proof fn lemma_component_bounds(a: int, l: int, n: int, m: int)
    requires
        l >= 1,
        n == (a * ONE) / l,
        m == if a >= 0 { a * ONE } else { -a * ONE },
    ensures
        m * m - 2 * m * l <= l * l * (n * n) <= (m + l) * (m + l),
        l * (if n >= 0 { n } else { -n }) < m + l,
{
    let x = a * ONE;
    vstd::arithmetic::div_mod::lemma_fundamental_div_mod(x, l);
    vstd::arithmetic::div_mod::lemma_mod_bound(x, l);
    assert(l * n <= x < l * n + l) by (nonlinear_arith)
        requires x == l * (x / l) + x % l, 0 <= x % l < l, n == x / l;
    if a >= 0 {
        assert(n >= 0) by (nonlinear_arith)
            requires x >= 0, x < l * n + l, l >= 1;
        assert(l * l * (n * n) <= m * m) by (nonlinear_arith)
            requires 0 <= l * n <= m, n >= 0, l >= 1;
        assert(m * m <= (m + l) * (m + l)) by (nonlinear_arith)
            requires m >= 0, l >= 1;
        if m >= l {
            assert(l * l * (n * n) >= (m - l) * (m - l)) by (nonlinear_arith)
                requires l * n > m - l, m - l >= 0;
            assert((m - l) * (m - l) >= m * m - 2 * m * l) by (nonlinear_arith);
        } else {
            assert(m * m - 2 * m * l <= 0) by (nonlinear_arith)
                requires 0 <= m < l;
            assert(l * l * (n * n) >= 0) by (nonlinear_arith);
        }
    } else {
        assert(n < 0) by (nonlinear_arith)
            requires x < 0, l * n <= x, l >= 1;
        assert(l * (-n) == -(l * n)) by (nonlinear_arith);
        assert(m <= l * (-n) < m + l);
        assert(l * l * (n * n) >= m * m) by (nonlinear_arith)
            requires m <= l * (-n), m >= 0;
        assert(m * m >= m * m - 2 * m * l) by (nonlinear_arith)
            requires m >= 0, l >= 1;
        assert(l * l * (n * n) <= (m + l) * (m + l)) by (nonlinear_arith)
            requires 0 <= l * (-n) < m + l;
    }
}

pub open spec fn abs_int(a: int) -> int {
    if a >= 0 { a } else { -a }
}

/// One component `n = floor(c * ONE * p / m)` of a normalized vector whose
/// scaled length is `m`, with `(c p)^2 < (m + 1)^2`: it lies in `[-1, 1]`, and
/// with `k = |c p| * ONE`, `k^2 - 2 k m <= (m n)^2 <= (k + m)^2`.
proof fn lemma_scaled_component(c: int, p: int, m: int)
    requires
        m >= 1,
        p >= 1,
        (c * p) * (c * p) < (m + 1) * (m + 1),
    ensures
        abs_int(c * p) <= m,
        ({
            let n = (c * ONE * p) / m;
            let k = abs_int(c * p) * ONE;
            &&& -ONE <= n <= ONE
            &&& k <= m * ONE
            &&& k * k - 2 * k * m <= m * m * (n * n) <= (k + m) * (k + m)
            &&& k * k == (ONE as int) * (ONE as int) * ((c * p) * (c * p))
        }),
{
    let a = c * p;
    let n = (c * ONE * p) / m;
    let k = abs_int(a) * ONE;
    assert(c * ONE * p == a * ONE) by (nonlinear_arith) requires a == c * p;
    assert(abs_int(a) <= m) by (nonlinear_arith)
        requires a * a < (m + 1) * (m + 1), m >= 1, abs_int(a) == if a >= 0 { a } else { -a };
    assert(k == if a >= 0 { a * ONE } else { -a * ONE });
    lemma_component_bounds(a, m, n, k);
    assert(k <= m * ONE) by (nonlinear_arith) requires k == abs_int(a) * ONE, abs_int(a) <= m;
    assert(m * abs_int(n) < m * (ONE + 1)) by (nonlinear_arith)
        requires m * abs_int(n) < k + m, k <= m * ONE;
    assert(abs_int(n) < ONE + 1) by (nonlinear_arith)
        requires m * abs_int(n) < m * (ONE + 1), m >= 1;
    lemma_abs_scaled_square(a, k);
}

proof fn lemma_abs_scaled_square(a: int, m: int)
    requires
        m == abs_int(a) * ONE,
    ensures
        m * m == (ONE as int) * (ONE as int) * (a * a),
        m >= 0,
{
    if a >= 0 {
        assert(m * m == 65536 * 65536 * (a * a)) by (nonlinear_arith) requires m == a * 65536;
    } else {
        assert(m * m == 65536 * 65536 * (a * a)) by (nonlinear_arith) requires m == -a * 65536;
    }
}

/// Normalizing a non-zero vector gives a vector of length 1 to within 4
/// steps of the scalar grid, whatever its length.
pub proof fn lemma_normalize_unit(v: Vec3)
    requires
        raw_square_length(v) > 0,
    ensures
        -4 <= length_spec(normalize_spec(v)) - ONE <= 4,
        ONE * ONE - 6 * ONE <= raw_square_length(normalize_spec(v)) <= ONE * ONE + 6 * ONE + 5,
        -ONE <= normalize_spec(v).x <= ONE,
        -ONE <= normalize_spec(v).y <= ONE,
        -ONE <= normalize_spec(v).z <= ONE,
{
    let one = ONE as int;
    let (a, b, c) = (v.x as int, v.y as int, v.z as int);
    let s = raw_square_length(v);
    let p = norm_scale(s);
    let t = s * p * p;
    let m = scaled_length(v);
    assert(s * p * p >= 0x1_0000_0000_0000_0000) by (nonlinear_arith)
        requires s >= 1, p == (if s < 0x1_0000_0000_0000_0000 { 0x1_0000_0000int } else { 1int });
    lemma_isqrt_exists(t);
    assert(m * m <= t < (m + 1) * (m + 1));
    assert(m >= 0x1_0000_0000) by (nonlinear_arith)
        requires t < (m + 1) * (m + 1), t >= 0x1_0000_0000_0000_0000, m >= 0;
    assert(a * a >= 0 && b * b >= 0 && c * c >= 0) by (nonlinear_arith);
    let pp = p * p;
    assert(t == s * pp) by (nonlinear_arith) requires t == s * p * p, pp == p * p;
    assert(s * pp == (a * a) * pp + (b * b) * pp + (c * c) * pp) by (nonlinear_arith)
        requires s == a * a + b * b + c * c;
    assert((a * p) * (a * p) == (a * a) * pp) by (nonlinear_arith) requires pp == p * p;
    assert((b * p) * (b * p) == (b * b) * pp) by (nonlinear_arith) requires pp == p * p;
    assert((c * p) * (c * p) == (c * c) * pp) by (nonlinear_arith) requires pp == p * p;
    assert((a * p) * (a * p) + (b * p) * (b * p) + (c * p) * (c * p) == t);
    assert((a * p) * (a * p) >= 0 && (b * p) * (b * p) >= 0 && (c * p) * (c * p) >= 0) by (nonlinear_arith);
    lemma_scaled_component(a, p, m);
    lemma_scaled_component(b, p, m);
    lemma_scaled_component(c, p, m);
    let (na, nb, nc) = ((a * ONE * p) / m, (b * ONE * p) / m, (c * ONE * p) / m);
    let (ka, kb, kc) = (abs_int(a * p) * one, abs_int(b * p) * one, abs_int(c * p) * one);
    let w = normalize_spec(v);
    assert(w.x == na && w.y == nb && w.z == nc);
    let nn = na * na + nb * nb + nc * nc;
    assert(raw_square_length(w) == nn);
    let m2 = m * m;
    assert(ka * ka + kb * kb + kc * kc == one * one * t) by (nonlinear_arith)
        requires ka * ka == one * one * ((a * p) * (a * p)), kb * kb == one * one * ((b * p) * (b * p)),
            kc * kc == one * one * ((c * p) * (c * p)),
            (a * p) * (a * p) + (b * p) * (b * p) + (c * p) * (c * p) == t;
    assert(m2 * nn == m2 * (na * na) + m2 * (nb * nb) + m2 * (nc * nc)) by (nonlinear_arith)
        requires nn == na * na + nb * nb + nc * nc;
    assert((ka + m) * (ka + m) == ka * ka + 2 * (ka * m) + m2) by (nonlinear_arith) requires m2 == m * m;
    assert((kb + m) * (kb + m) == kb * kb + 2 * (kb * m) + m2) by (nonlinear_arith) requires m2 == m * m;
    assert((kc + m) * (kc + m) == kc * kc + 2 * (kc * m) + m2) by (nonlinear_arith) requires m2 == m * m;
    assert(2 * ka * m == 2 * (ka * m) && 2 * kb * m == 2 * (kb * m) && 2 * kc * m == 2 * (kc * m)) by (nonlinear_arith);
    assert(ka * m + kb * m + kc * m <= 3 * one * m2) by (nonlinear_arith)
        requires ka <= m * one, kb <= m * one, kc <= m * one, m >= 0, m2 == m * m;
    assert(m2 * (na * na) <= (ka + m) * (ka + m));
    assert(m2 * (nb * nb) <= (kb + m) * (kb + m));
    assert(m2 * (nc * nc) <= (kc + m) * (kc + m));
    assert(2 * (ka * m) + 2 * (kb * m) + 2 * (kc * m) <= 6 * one * m2) by (nonlinear_arith)
        requires ka * m + kb * m + kc * m <= 3 * one * m2;
    assert(m2 * nn <= ka * ka + kb * kb + kc * kc + 2 * (ka * m) + 2 * (kb * m) + 2 * (kc * m) + 3 * m2);
    assert(m2 * nn <= one * one * t + 6 * one * m2 + 3 * m2);
    assert(m2 * nn >= one * one * t - 6 * one * m2);
    assert((m + 1) * (m + 1) == m2 + 2 * m + 1) by (nonlinear_arith) requires m2 == m * m;
    assert(t <= m2 + 2 * m);
    assert(one * one * t <= one * one * m2 + one * one * (2 * m)) by (nonlinear_arith)
        requires t <= m2 + 2 * m, one == 65536;
    assert(one * one * (2 * m) <= 2 * m2) by (nonlinear_arith)
        requires m >= 0x1_0000_0000, one == 65536, m2 == m * m;
    assert(one * one * t <= one * one * m2 + 2 * m2);
    assert(one * one * t >= one * one * m2) by (nonlinear_arith)
        requires t >= m2, one == 65536;
    assert(m2 * nn <= m2 * (one * one + 6 * one + 5)) by (nonlinear_arith)
        requires m2 * nn <= one * one * t + 6 * one * m2 + 3 * m2, one * one * t <= one * one * m2 + 2 * m2;
    assert(m2 * nn >= m2 * (one * one - 6 * one)) by (nonlinear_arith)
        requires m2 * nn >= one * one * t - 6 * one * m2, one * one * t >= one * one * m2;
    assert(nn <= one * one + 6 * one + 5) by (nonlinear_arith)
        requires m2 * nn <= m2 * (one * one + 6 * one + 5), m2 > 0;
    assert(nn >= one * one - 6 * one) by (nonlinear_arith)
        requires m2 * nn >= m2 * (one * one - 6 * one), m2 > 0;
    lemma_isqrt_exists(nn);
    let r = isqrt(nn);
    assert(r * r <= nn < (r + 1) * (r + 1));
    assert(r <= one + 3) by (nonlinear_arith)
        requires r * r <= nn, nn <= one * one + 6 * one + 5, one == 65536, r >= 0;
    assert(r >= one - 4) by (nonlinear_arith)
        requires nn < (r + 1) * (r + 1), nn >= one * one - 6 * one, one == 65536, r >= 0;
}

/// A component `n` of a near-unit vector changes by at most 5 steps when
/// divided again by a scaled length `mp` near `ONE * 2^32`.
proof fn lemma_renormalize_component(n: int, mp: int)
    requires
        -ONE <= n <= ONE,
        (ONE - 4) * 0x1_0000_0000 <= mp < (ONE + 4) * 0x1_0000_0000,
    ensures
        -5 <= (n * ONE * 0x1_0000_0000) / mp - n <= 5,
{
    let g = 65536 * 0x1_0000_0000int;
    let x = n * ONE * 0x1_0000_0000;
    let q = x / mp;
    vstd::arithmetic::div_mod::lemma_fundamental_div_mod(x, mp);
    vstd::arithmetic::div_mod::lemma_mod_bound(x, mp);
    assert(mp * q <= x < mp * q + mp) by (nonlinear_arith)
        requires x == mp * (x / mp) + x % mp, 0 <= x % mp < mp, q == x / mp;
    assert(x == n * g) by (nonlinear_arith) requires x == n * 65536 * 0x1_0000_0000int, g == 65536 * 0x1_0000_0000int;
    assert(-(4 * g) <= n * (g - mp) <= 4 * g) by (nonlinear_arith)
        requires -65536 <= n <= 65536, -0x4_0000_0000 < g - mp <= 0x4_0000_0000, g == 65536 * 0x1_0000_0000int;
    assert(mp * (q - n) <= n * (g - mp)) by (nonlinear_arith) requires mp * q <= x, x == n * g;
    assert(mp * (q - n) > n * (g - mp) - mp) by (nonlinear_arith) requires x < mp * q + mp, x == n * g;
    assert(q - n <= 5) by (nonlinear_arith)
        requires mp * (q - n) <= 4 * g, mp >= 65532 * 0x1_0000_0000int, g == 65536 * 0x1_0000_0000int;
    assert(q - n >= -5) by (nonlinear_arith)
        requires mp * (q - n) > -(4 * g) - mp, mp >= 65532 * 0x1_0000_0000int, g == 65536 * 0x1_0000_0000int;
}

/// Normalizing is stable: normalizing a normalized vector again moves each
/// component by at most 5 steps of the scalar grid.
pub proof fn lemma_normalize_stable(v: Vec3)
    requires
        raw_square_length(v) > 0,
    ensures
        ({
            let w = normalize_spec(v);
            let w2 = normalize_spec(w);
            &&& -5 <= w2.x - w.x <= 5
            &&& -5 <= w2.y - w.y <= 5
            &&& -5 <= w2.z - w.z <= 5
        }),
{
    lemma_normalize_unit(v);
    let w = normalize_spec(v);
    let nn = raw_square_length(w);
    let one = ONE as int;
    assert(nn > 0 && nn < 0x1_0000_0000_0000_0000);
    let t = nn * 0x1_0000_0000 * 0x1_0000_0000;
    let mp = scaled_length(w);
    assert(norm_scale(nn) == 0x1_0000_0000);
    lemma_isqrt_exists(t);
    assert(mp * mp <= t < (mp + 1) * (mp + 1));
    assert(mp < (one + 4) * 0x1_0000_0000) by (nonlinear_arith)
        requires mp * mp <= t, t == nn * 0x1_0000_0000 * 0x1_0000_0000, nn <= one * one + 6 * one + 5, one == 65536, mp >= 0;
    assert(mp >= (one - 4) * 0x1_0000_0000) by (nonlinear_arith)
        requires t < (mp + 1) * (mp + 1), t == nn * 0x1_0000_0000 * 0x1_0000_0000, nn >= one * one - 6 * one, one == 65536, mp >= 0;
    lemma_renormalize_component(w.x as int, mp);
    lemma_renormalize_component(w.y as int, mp);
    lemma_renormalize_component(w.z as int, mp);
}

/// A product of magnitude at most `2^78` does not saturate.
pub proof fn lemma_mul_exact(a: int, b: int)
    requires
        -0x4000_0000_0000_0000_0000 <= a * b <= 0x4000_0000_0000_0000_0000,
    ensures
        mul_spec(a, b) == (a * b) / (ONE as int),
        (ONE as int) * mul_spec(a, b) <= a * b < (ONE as int) * mul_spec(a, b) + ONE,
        -0x4000_0000_0000_0000 <= mul_spec(a, b) <= 0x4000_0000_0000_0000,
{
    vstd::arithmetic::div_mod::lemma_fundamental_div_mod(a * b, 65536);
    vstd::arithmetic::div_mod::lemma_mod_bound(a * b, 65536);
}

pub proof fn lemma_product_bound(a: int, b: int, x: int, y: int)
    requires
        -x <= a <= x,
        -y <= b <= y,
    ensures
        -(x * y) <= a * b <= x * y,
{
    assert(-(x * y) <= a * b <= x * y) by (nonlinear_arith)
        requires -x <= a <= x, -y <= b <= y;
}

/// Reflecting `d` about a unit normal `n` flips its component along `n`:
/// `dot(reflect(d, n), n) = -dot(d, n)`, to within 12 steps of the scalar
/// grid plus a relative error of `38 / ONE`. Here a unit normal is one whose
/// squared length is within 16 steps of 1 and whose components lie in
/// `[-2, 2]`, and `d` has components of magnitude at most `2^36`.
pub proof fn lemma_reflect_normal_component(d: Vec3, n: Vec3)
    requires
        -0x10_0000_0000 <= d.x <= 0x10_0000_0000,
        -0x10_0000_0000 <= d.y <= 0x10_0000_0000,
        -0x10_0000_0000 <= d.z <= 0x10_0000_0000,
        -2 * ONE <= n.x <= 2 * ONE,
        -2 * ONE <= n.y <= 2 * ONE,
        -2 * ONE <= n.z <= 2 * ONE,
        ONE - 16 <= dot_spec(n, n) <= ONE + 16,
    ensures
        ({
            let k = dot_spec(d, n);
            (ONE as int) * abs_int(dot_spec(reflect_spec(d, n), n) + k) <= 12 * ONE + 38 * abs_int(k)
        }),
{
    let (dx, dy, dz) = (d.x as int, d.y as int, d.z as int);
    let (nx, ny, nz) = (n.x as int, n.y as int, n.z as int);
    let dd = 0x10_0000_0000int;
    let nb = 131072int;
    lemma_product_bound(dx, nx, dd, nb);
    lemma_product_bound(dy, ny, dd, nb);
    lemma_product_bound(dz, nz, dd, nb);
    lemma_mul_exact(dx, nx);
    lemma_mul_exact(dy, ny);
    lemma_mul_exact(dz, nz);
    let k = dot_spec(d, n);
    let sdn = dx * nx + dy * ny + dz * nz;
    assert(65536 * k <= sdn < 65536 * k + 3 * 65536);
    assert(-0x80_0000_0000 <= k <= 0x80_0000_0000);
    let kk = add_spec(k, k);
    assert(kk == 2 * k);
    lemma_product_bound(nx, kk, nb, 0x100_0000_0000);
    lemma_product_bound(ny, kk, nb, 0x100_0000_0000);
    lemma_product_bound(nz, kk, nb, 0x100_0000_0000);
    lemma_mul_exact(nx, kk);
    lemma_mul_exact(ny, kk);
    lemma_mul_exact(nz, kk);
    let (mx, my, mz) = (mul_spec(nx, kk), mul_spec(ny, kk), mul_spec(nz, kk));
    assert(-0x400_0000_0000 <= mx <= 0x400_0000_0000);
    assert(-0x400_0000_0000 <= my <= 0x400_0000_0000);
    assert(-0x400_0000_0000 <= mz <= 0x400_0000_0000);
    let r = reflect_spec(d, n);
    assert(r.x == dx - mx && r.y == dy - my && r.z == dz - mz);
    let (rx, ry, rz) = (dx - mx, dy - my, dz - mz);
    let rb = 0x1000_0000_0000int;
    lemma_product_bound(rx, nx, rb, nb);
    lemma_product_bound(ry, ny, rb, nb);
    lemma_product_bound(rz, nz, rb, nb);
    lemma_mul_exact(rx, nx);
    lemma_mul_exact(ry, ny);
    lemma_mul_exact(rz, nz);
    let dr = dot_spec(r, n);
    let srn = rx * nx + ry * ny + rz * nz;
    assert(65536 * dr <= srn < 65536 * dr + 3 * 65536);
    lemma_product_bound(nx, nx, nb, nb);
    lemma_product_bound(ny, ny, nb, nb);
    lemma_product_bound(nz, nz, nb, nb);
    lemma_mul_exact(nx, nx);
    lemma_mul_exact(ny, ny);
    lemma_mul_exact(nz, nz);
    let snn = nx * nx + ny * ny + nz * nz;
    let rho = snn - 65536 * 65536;
    assert(-16 * 65536 <= rho < 19 * 65536);
    // the rounding of each `m = floor(n * kk / ONE)`
    let (ex, ey, ez) = (nx * kk - 65536 * mx, ny * kk - 65536 * my, nz * kk - 65536 * mz);
    assert(0 <= ex < 65536 && 0 <= ey < 65536 && 0 <= ez < 65536);
    lemma_product_bound(nx, ex, nb, 65536);
    lemma_product_bound(ny, ey, nb, 65536);
    lemma_product_bound(nz, ez, nb, 65536);
    let ne = nx * ex + ny * ey + nz * ez;
    assert(-6 * 65536 * 65536 <= ne <= 6 * 65536 * 65536);
    assert(65536 * (mx * nx) == kk * (nx * nx) - nx * ex) by (nonlinear_arith)
        requires ex == nx * kk - 65536 * mx;
    assert(65536 * (my * ny) == kk * (ny * ny) - ny * ey) by (nonlinear_arith)
        requires ey == ny * kk - 65536 * my;
    assert(65536 * (mz * nz) == kk * (nz * nz) - nz * ez) by (nonlinear_arith)
        requires ez == nz * kk - 65536 * mz;
    assert(kk * snn == kk * (nx * nx) + kk * (ny * ny) + kk * (nz * nz)) by (nonlinear_arith)
        requires snn == nx * nx + ny * ny + nz * nz;
    assert(65536 * (mx * nx + my * ny + mz * nz) == 65536 * (mx * nx) + 65536 * (my * ny) + 65536 * (mz * nz)) by (nonlinear_arith);
    assert(65536 * (mx * nx + my * ny + mz * nz) == kk * snn - ne);
    assert(srn == sdn - (mx * nx + my * ny + mz * nz)) by (nonlinear_arith)
        requires srn == rx * nx + ry * ny + rz * nz, rx == dx - mx, ry == dy - my, rz == dz - mz,
            sdn == dx * nx + dy * ny + dz * nz;
    assert(kk * snn == kk * 65536 * 65536 + kk * rho) by (nonlinear_arith)
        requires rho == snn - 65536 * 65536;
    assert(-(19 * 65536 * abs_int(kk)) <= kk * rho <= 19 * 65536 * abs_int(kk)) by (nonlinear_arith)
        requires -16 * 65536 <= rho < 19 * 65536, abs_int(kk) == if kk >= 0 { kk } else { -kk }, 65536 > 0;
    assert(65536 * srn == 65536 * sdn - kk * 65536 * 65536 - kk * rho + ne) by (nonlinear_arith)
        requires srn == sdn - (mx * nx + my * ny + mz * nz),
            65536 * (mx * nx + my * ny + mz * nz) == kk * snn - ne,
            kk * snn == kk * 65536 * 65536 + kk * rho;
    assert(65536 * 65536 * k <= 65536 * sdn < 65536 * 65536 * k + 3 * 65536 * 65536) by (nonlinear_arith)
        requires 65536 * k <= sdn < 65536 * k + 3 * 65536, 65536 > 0;
    assert(65536 * 65536 * dr <= 65536 * srn < 65536 * 65536 * dr + 3 * 65536 * 65536) by (nonlinear_arith)
        requires 65536 * dr <= srn < 65536 * dr + 3 * 65536, 65536 > 0;
    assert(kk * 65536 * 65536 == 2 * (65536 * 65536 * k)) by (nonlinear_arith) requires kk == 2 * k;
    assert(abs_int(kk) == 2 * abs_int(k));
    let e = dr + k;
    assert(65536 * 65536 * e == 65536 * 65536 * dr + 65536 * 65536 * k) by (nonlinear_arith)
        requires e == dr + k;
    let t = 65536 * sdn - 65536 * 65536 * k;
    assert(0 <= t < 3 * 65536 * 65536);
    assert(65536 * srn + 65536 * 65536 * k == t - kk * rho + ne);
    assert(19 * 65536 * abs_int(kk) == 38 * 65536 * abs_int(k)) by (nonlinear_arith)
        requires abs_int(kk) == 2 * abs_int(k);
    assert(-(38 * 65536 * abs_int(k)) <= kk * rho <= 38 * 65536 * abs_int(k));
    assert(-(6 * 65536 * 65536) <= ne <= 6 * 65536 * 65536);
    assert(-(9 * 65536 * 65536 + 38 * 65536 * abs_int(k)) <= 65536 * 65536 * e <= 9 * 65536 * 65536 + 38 * 65536 * abs_int(k));
    assert(65536 * abs_int(e) <= 12 * 65536 + 38 * abs_int(k)) by (nonlinear_arith)
        requires -(9 * 65536 * 65536 + 38 * 65536 * abs_int(k)) <= 65536 * 65536 * e <= 9 * 65536 * 65536 + 38 * 65536 * abs_int(k),
            abs_int(e) == if e >= 0 { e } else { -e }, 65536 == 65536, abs_int(k) >= 0;
}

/// One component of a normalized vector (see `unit_component`).
fn unit_component_exec(c: i64, s: u128, p: u128, m: u128) -> (r: i64)
    requires
        m >= 1,
        m <= 0x1_0000_0000_0000_0000,
        (c as int) * (c as int) <= s,
        s < 0x1_0000_0000_0000_0000 ==> p == 0x1_0000_0000,
        s >= 0x1_0000_0000_0000_0000 ==> p == 1,
    ensures
        r as int == unit_component(c as int, p as int, m as int),
{
    let ci = c as i128;
    let pi = p as i128;
    if s < 0x1_0000_0000_0000_0000 {
        assert(-0x1_0000_0000 < ci < 0x1_0000_0000) by (nonlinear_arith)
            requires ci * ci <= s, s < 0x1_0000_0000_0000_0000u128;
    }
    assert(-0x1_0000_0000_0000_0000_0000 <= ci * 65536 * pi <= 0x1_0000_0000_0000_0000_0000) by (nonlinear_arith)
        requires -0x8000_0000_0000_0000 <= ci <= 0x8000_0000_0000_0000,
            pi == 1 || (pi == 0x1_0000_0000 && -0x1_0000_0000 < ci < 0x1_0000_0000);
    let num = ci * ONE as i128 * pi;
    clamp_exec(floor_div(num, m as i128))
}

/// The reflection law holds about every normal that `normalize` produces:
/// for any non-zero `m` and `d` with components of magnitude at most `2^36`,
/// `dot(reflect(d, n), n) = -dot(d, n)` for `n = normalize(m)`, to within 12
/// steps plus a relative error of `38 / ONE`.
pub proof fn lemma_reflect_about_normalized(d: Vec3, m: Vec3)
    requires
        raw_square_length(m) > 0,
        -0x10_0000_0000 <= d.x <= 0x10_0000_0000,
        -0x10_0000_0000 <= d.y <= 0x10_0000_0000,
        -0x10_0000_0000 <= d.z <= 0x10_0000_0000,
    ensures
        ({
            let n = normalize_spec(m);
            let k = dot_spec(d, n);
            (ONE as int) * abs_int(dot_spec(reflect_spec(d, n), n) + k) <= 12 * ONE + 38 * abs_int(k)
        }),
{
    lemma_normalize_unit(m);
    let n = normalize_spec(m);
    let (x, y, z) = (n.x as int, n.y as int, n.z as int);
    lemma_product_bound(x, x, 65536, 65536);
    lemma_product_bound(y, y, 65536, 65536);
    lemma_product_bound(z, z, 65536, 65536);
    lemma_mul_exact(x, x);
    lemma_mul_exact(y, y);
    lemma_mul_exact(z, z);
    assert(raw_square_length(n) == x * x + y * y + z * z);
    assert(ONE - 16 <= dot_spec(n, n) <= ONE + 16);
    lemma_reflect_normal_component(d, n);
}

impl Vec3 {
    pub fn new(x: i64, y: i64, z: i64) -> (r: Vec3)
        ensures
            r.x == x && r.y == y && r.z == z,
    {
        Vec3 { x, y, z }
    }

    pub open spec fn spec_zero() -> Vec3 {
        v3(0, 0, 0)
    }

    pub fn zero() -> (r: Vec3)
        ensures
            r == Vec3::spec_zero(),
    {
        Vec3 { x: 0, y: 0, z: 0 }
    }

    pub fn dot(self, other: Vec3) -> (r: i64)
        ensures
            r as int == dot_spec(self, other),
    {
        fx_add(fx_add(fx_mul(self.x, other.x), fx_mul(self.y, other.y)), fx_mul(self.z, other.z))
    }

    pub fn cross(self, other: Vec3) -> (r: Vec3)
        ensures
            r == cross_spec(self, other),
    {
        Vec3 {
            x: fx_sub(fx_mul(self.y, other.z), fx_mul(self.z, other.y)),
            y: fx_sub(fx_mul(self.z, other.x), fx_mul(self.x, other.z)),
            z: fx_sub(fx_mul(self.x, other.y), fx_mul(self.y, other.x)),
        }
    }

    pub fn scale(self, s: i64) -> (r: Vec3)
        ensures
            r == vscale(self, s as int),
    {
        Vec3 { x: fx_mul(self.x, s), y: fx_mul(self.y, s), z: fx_mul(self.z, s) }
    }

    pub fn normalize(self) -> (r: Vec3)
        ensures
            r == normalize_spec(self),
            raw_square_length(self) == 0 ==> r == self,
    {
        let s = self.raw_square_length();
        if s == 0 {
            return self;
        }
        let p: u128 = if s < 0x1_0000_0000_0000_0000 { 0x1_0000_0000 } else { 1 };
        assert(s * p * p <= u128::MAX) by (nonlinear_arith)
            requires s <= 0xc000_0000_0000_0000_0000_0000_0000_0000u128,
                s < 0x1_0000_0000_0000_0000 ==> p == 0x1_0000_0000u128, p <= 0x1_0000_0000u128,
                s >= 0x1_0000_0000_0000_0000 ==> p == 1;
        assert(s * p * p >= 1) by (nonlinear_arith) requires s >= 1, p >= 1;
        let m = isqrt_exec(s * p * p);
        assert(m >= 1) by (nonlinear_arith) requires s * p * p >= 1, s * p * p < (m + 1) * (m + 1), m >= 0;
        proof {
            let (x, y, z) = (self.x as int, self.y as int, self.z as int);
            assert(x * x <= s && y * y <= s && z * z <= s) by (nonlinear_arith)
                requires s == x * x + y * y + z * z;
        }
        let x = unit_component_exec(self.x, s, p, m);
        let y = unit_component_exec(self.y, s, p, m);
        let z = unit_component_exec(self.z, s, p, m);
        Vec3 { x, y, z }
    }

    /// The exact sum of the squares of the raw components.
    fn raw_square_length(&self) -> (r: u128)
        ensures
            r as int == raw_square_length(*self),
            r <= 0xc000_0000_0000_0000_0000_0000_0000_0000u128,
    {
        let (x, y, z) = (self.x as i128, self.y as i128, self.z as i128);
        assert(0 <= x * x <= 0x4000_0000_0000_0000_0000_0000_0000_0000) by (nonlinear_arith)
            requires -0x8000_0000_0000_0000 <= x <= 0x8000_0000_0000_0000;
        assert(0 <= y * y <= 0x4000_0000_0000_0000_0000_0000_0000_0000) by (nonlinear_arith)
            requires -0x8000_0000_0000_0000 <= y <= 0x8000_0000_0000_0000;
        assert(0 <= z * z <= 0x4000_0000_0000_0000_0000_0000_0000_0000) by (nonlinear_arith)
            requires -0x8000_0000_0000_0000 <= z <= 0x8000_0000_0000_0000;
        (x * x) as u128 + (y * y) as u128 + (z * z) as u128
    }

    pub fn square_length(&self) -> (r: i64)
        ensures
            r as int == square_length_spec(*self),
            r >= 0,
    {
        assert(square_length_spec(*self) >= 0) by (nonlinear_arith);
        self.dot(*self)
    }

    pub fn length(&self) -> (r: i64)
        ensures
            r as int == length_spec(*self),
            r >= 0,
    {
        let s = self.raw_square_length();
        clamp_exec(isqrt_exec(s) as i128)
    }

    /// Reflection of `self` about the plane with unit normal `n`.
    pub fn reflect(self, n: Vec3) -> (r: Vec3)
        ensures
            r == reflect_spec(self, n),
    {
        let k = self.dot(n);
        self - n.scale(fx_add(k, k))
    }
}

impl std::ops::Add<Vec3> for Vec3 {
    type Output = Vec3;

    fn add(self, other: Vec3) -> Vec3 {
        Vec3 { x: fx_add(self.x, other.x), y: fx_add(self.y, other.y), z: fx_add(self.z, other.z) }
    }
}

impl vstd::std_specs::ops::AddSpecImpl<Vec3> for Vec3 {
    open spec fn obeys_add_spec() -> bool {
        true
    }

    open spec fn add_req(self, other: Vec3) -> bool {
        true
    }

    open spec fn add_spec(self, other: Vec3) -> Vec3 {
        vadd(self, other)
    }
}

impl std::ops::Sub<Vec3> for Vec3 {
    type Output = Vec3;

    fn sub(self, other: Vec3) -> Vec3 {
        Vec3 { x: fx_sub(self.x, other.x), y: fx_sub(self.y, other.y), z: fx_sub(self.z, other.z) }
    }
}

impl vstd::std_specs::ops::SubSpecImpl<Vec3> for Vec3 {
    open spec fn obeys_sub_spec() -> bool {
        true
    }

    open spec fn sub_req(self, other: Vec3) -> bool {
        true
    }

    open spec fn sub_spec(self, other: Vec3) -> Vec3 {
        vsub(self, other)
    }
}

impl std::ops::Mul<i64> for Vec3 {
    type Output = Vec3;

    fn mul(self, s: i64) -> Vec3 {
        self.scale(s)
    }
}

impl vstd::std_specs::ops::MulSpecImpl<i64> for Vec3 {
    open spec fn obeys_mul_spec() -> bool {
        true
    }

    open spec fn mul_req(self, s: i64) -> bool {
        true
    }

    open spec fn mul_spec(self, s: i64) -> Vec3 {
        vscale(self, s as int)
    }
}

impl std::ops::Mul<Vec3> for Vec3 {
    type Output = Vec3;

    fn mul(self, other: Vec3) -> Vec3 {
        Vec3 { x: fx_mul(self.x, other.x), y: fx_mul(self.y, other.y), z: fx_mul(self.z, other.z) }
    }
}

impl vstd::std_specs::ops::MulSpecImpl<Vec3> for Vec3 {
    open spec fn obeys_mul_spec() -> bool {
        true
    }

    open spec fn mul_req(self, other: Vec3) -> bool {
        true
    }

    open spec fn mul_spec(self, other: Vec3) -> Vec3 {
        vmul(self, other)
    }
}

impl std::ops::Div<i64> for Vec3 {
    type Output = Vec3;

    /// Division by a scalar; a zero divisor leaves the vector unchanged.
    fn div(self, s: i64) -> Vec3 {
        Vec3 { x: fx_div(self.x, s), y: fx_div(self.y, s), z: fx_div(self.z, s) }
    }
}

impl vstd::std_specs::ops::DivSpecImpl<i64> for Vec3 {
    open spec fn obeys_div_spec() -> bool {
        true
    }

    open spec fn div_req(self, s: i64) -> bool {
        true
    }

    open spec fn div_spec(self, s: i64) -> Vec3 {
        vdiv(self, s as int)
    }
}

impl std::ops::Neg for Vec3 {
    type Output = Vec3;

    fn neg(self) -> Vec3 {
        Vec3 { x: fx_neg(self.x), y: fx_neg(self.y), z: fx_neg(self.z) }
    }
}

impl vstd::std_specs::ops::NegSpecImpl for Vec3 {
    open spec fn obeys_neg_spec() -> bool {
        true
    }

    open spec fn neg_req(self) -> bool {
        true
    }

    open spec fn neg_spec(self) -> Vec3 {
        vneg(self)
    }
}

} // verus!
