//! Spheres, the scene that holds them, and nearest-hit search.
use vstd::prelude::*;
use crate::fixed::{add_spec, lemma_isqrt_exists, LIMIT, ONE, fx_add, fx_mul, fx_sqrt, fx_sub, mul_spec, sqrt_spec, sub_spec};
use crate::material::{IntersectionResult, Material};
use crate::ray::{point_spec, Ray};
use crate::vec3::{dot_spec, lemma_mul_exact, lemma_product_bound, normalize_spec, square_length_spec, v3, vscale, vsub, Vec3};

verus! {

/// Distance along a ray of unit direction `dir` to the first point, not behind
/// the origin, of a sphere of the given radius whose centre lies at `to_center`
/// from the origin. A sphere whose centre is behind the origin is missed.
pub open spec fn hit_distance(to_center: Vec3, dir: Vec3, radius: int) -> Option<int> {
    let to_nearest = dot_spec(to_center, dir);
    if to_nearest < 0 {
        None
    } else {
        let d2 = sub_spec(square_length_spec(to_center), mul_spec(to_nearest, to_nearest));
        let r2 = mul_spec(radius, radius);
        if d2 > r2 {
            None
        } else {
            let tt = sqrt_spec(sub_spec(r2, d2));
            let t0 = add_spec(to_nearest, tt);
            let t1 = sub_spec(to_nearest, tt);
            let near = if t0 <= t1 { t0 } else { t1 };
            let far = if t0 <= t1 { t1 } else { t0 };
            let t = if near < 0 { far } else { near };
            if t < 0 {
                None
            } else {
                Some(t)
            }
        }
    }
}

/// Where `ray` meets the sphere, if it does.
#[verifier::opaque]
pub open spec fn sphere_hit(s: Sphere, ray: Ray) -> Option<IntersectionResult> {
    match hit_distance(vsub(s.origin, ray.origin), ray.dir, s.radius as int) {
        None => None,
        Some(t) => Some(IntersectionResult {
            t: t as i64,
            n: normalize_spec(vsub(point_spec(ray, t), s.origin)),
            material: s.material,
        }),
    }
}

/// Whether `a - b` is a scalar on every axis, so that subtraction is exact.
pub open spec fn offset_fits(a: Vec3, b: Vec3) -> bool {
    &&& -LIMIT <= a.x - b.x <= LIMIT
    &&& -LIMIT <= a.y - b.y <= LIMIT
    &&& -LIMIT <= a.z - b.z <= LIMIT
}

/// Whether the point at distance `t` along `ray`, and its offset from `c`,
/// are computed without saturation.
pub open spec fn point_fits(ray: Ray, t: int, c: Vec3) -> bool {
    let m = vscale(ray.dir, t);
    &&& -LIMIT <= ray.origin.x + m.x <= LIMIT && -LIMIT <= ray.origin.x + m.x - c.x <= LIMIT
    &&& -LIMIT <= ray.origin.y + m.y <= LIMIT && -LIMIT <= ray.origin.y + m.y - c.y <= LIMIT
    &&& -LIMIT <= ray.origin.z + m.z <= LIMIT && -LIMIT <= ray.origin.z + m.z - c.z <= LIMIT
}

/// Intersection is translation-consistent: moving the sphere's centre to the
/// origin and the ray's origin with it leaves the hit, and its distance, as
/// they were, and the normal too where the hit point does not saturate.
pub proof fn lemma_hit_translation(s: Sphere, ray: Ray)
    requires
        offset_fits(s.origin, ray.origin),
    ensures
        ({
            let moved = sphere_hit(
                Sphere { origin: Vec3::spec_zero(), radius: s.radius, material: s.material },
                Ray { origin: vsub(ray.origin, s.origin), dir: ray.dir },
            );
            &&& sphere_hit(s, ray) is Some <==> moved is Some
            &&& sphere_hit(s, ray) is Some ==> sphere_hit(s, ray)->0.t == moved->0.t
            &&& (sphere_hit(s, ray) is Some && point_fits(ray, sphere_hit(s, ray)->0.t as int, s.origin))
                ==> sphere_hit(s, ray)->0.n == moved->0.n
        }),
{
    reveal(sphere_hit);
    let moved_ray = Ray { origin: vsub(ray.origin, s.origin), dir: ray.dir };
    assert(vsub(s.origin, ray.origin) == vsub(Vec3::spec_zero(), moved_ray.origin));
    if let Some(h) = sphere_hit(s, ray) {
        if point_fits(ray, h.t as int, s.origin) {
            let t = h.t as int;
            assert(vsub(point_spec(ray, t), s.origin) == vsub(point_spec(moved_ray, t), Vec3::spec_zero()));
        }
    }
}

/// A ray along the `z` axis towards the centre of a sphere it starts outside
/// of meets it at the distance to the centre less the radius, to within one
/// step of the scalar grid (the radius is at least one half, so that its
/// square keeps enough precision; the distance is at most `2^38`).
pub proof fn lemma_hit_toward_centre(s: Sphere, ray: Ray)
    requires
        ray.dir == v3(0, 0, ONE as int),
        s.origin.x == ray.origin.x,
        s.origin.y == ray.origin.y,
        s.radius >= ONE / 2 + 1,
        s.radius < s.origin.z - ray.origin.z <= 0x40_0000_0000,
    ensures
        sphere_hit(s, ray) matches Some(h) && {
            let dist = s.origin.z - ray.origin.z;
            dist - s.radius <= h.t <= dist - s.radius + 1
        },
{
    reveal(sphere_hit);
    let one = ONE as int;
    let c = s.origin.z - ray.origin.z;
    let r = s.radius as int;
    let tc = vsub(s.origin, ray.origin);
    assert(tc == v3(0, 0, c));
    lemma_mul_exact(0, 0);
    lemma_mul_exact(c, one);
    assert(dot_spec(tc, ray.dir) == c);
    lemma_product_bound(c, c, 0x40_0000_0000, 0x40_0000_0000);
    lemma_mul_exact(c, c);
    assert(square_length_spec(tc) == mul_spec(c, c));
    lemma_product_bound(r, r, 0x40_0000_0000, 0x40_0000_0000);
    lemma_mul_exact(r, r);
    let q = mul_spec(r, r);
    assert(one * q <= r * r < one * q + one);
    assert(r * r >= 0x4001_0001) by (nonlinear_arith)
        requires r >= 0x8001;
    assert(q > 0);
    lemma_isqrt_exists(q * one);
    let tt = sqrt_spec(q);
    assert(tt * tt <= q * one < (tt + 1) * (tt + 1));
    assert(tt <= r) by (nonlinear_arith)
        requires tt * tt <= q * one, one * q <= r * r, tt >= 0, r >= 0;
    assert((r - 1) * (r - 1) < q * one) by (nonlinear_arith)
        requires r * r < one * q + one, r >= 0x8001, one == 65536;
    assert(tt >= r - 1) by (nonlinear_arith)
        requires (r - 1) * (r - 1) < q * one, q * one < (tt + 1) * (tt + 1), tt >= 0, r >= 1;
    assert(hit_distance(tc, ray.dir, r) == Some(c - tt));
}

/// Something a ray can meet.
pub trait SceneObject {
    spec fn hit(&self, ray: Ray) -> Option<IntersectionResult>;

    fn intersect(&self, ray: &Ray) -> (r: Option<IntersectionResult>)
        ensures
            r == self.hit(*ray),
    ;
}

#[derive(Clone, Copy, Debug, PartialEq, Eq, Structural)]
pub struct Sphere {
    pub origin: Vec3,
    pub radius: i64,
    pub material: Material,
}

impl SceneObject for Sphere {
    open spec fn hit(&self, ray: Ray) -> Option<IntersectionResult> {
        sphere_hit(*self, ray)
    }

    fn intersect(&self, ray: &Ray) -> (r: Option<IntersectionResult>) {
        reveal(sphere_hit);
        let to_center = self.origin - ray.origin;
        let to_nearest = to_center.dot(ray.dir);
        if to_nearest < 0 {
            None
        } else {
            let d2 = fx_sub(to_center.square_length(), fx_mul(to_nearest, to_nearest));
            let r2 = fx_mul(self.radius, self.radius);
            if d2 > r2 {
                None
            } else {
                let tt = fx_sqrt(fx_sub(r2, d2));
                let t0 = fx_add(to_nearest, tt);
                let t1 = fx_sub(to_nearest, tt);
                let mut t = if t0 <= t1 { t0 } else { t1 };
                if t < 0 {
                    t = if t0 <= t1 { t1 } else { t0 };
                }
                if t < 0 {
                    None
                } else {
                    let normal = (ray.point(t) - self.origin).normalize();
                    Some(IntersectionResult { t, n: normal, material: self.material })
                }
            }
        }
    }
}

/// The viewpoint; rays leave it along the fixed world axes.
#[derive(Clone, Copy, Debug, PartialEq, Eq, Structural)]
pub struct Camera {
    pub position: Vec3,
}

pub struct Scene {
    pub objects: Vec<Sphere>,
    pub camera: Camera,
}

/// What `ray` meets of each object, in order.
pub open spec fn hits_of(objs: Seq<Sphere>, ray: Ray) -> Seq<Option<IntersectionResult>> {
    Seq::new(objs.len(), |i: int| sphere_hit(objs[i], ray))
}

/// The nearest hit beyond `min_t` among `hits`, scanned in order; a later hit
/// replaces the one kept only when strictly nearer.
pub open spec fn nearest(hits: Seq<Option<IntersectionResult>>, min_t: int) -> Option<IntersectionResult>
    decreases hits.len(),
{
    if hits.len() == 0 {
        None
    } else {
        let best = nearest(hits.drop_last(), min_t);
        match hits.last() {
            Some(h) => {
                let ok = match best {
                    Some(b) => b.t > h.t,
                    None => true,
                };
                if ok && h.t > min_t {
                    Some(h)
                } else {
                    best
                }
            },
            None => best,
        }
    }
}

/// Whether entry `i` of `hits` is a hit beyond `min_t`.
pub open spec fn beyond(hits: Seq<Option<IntersectionResult>>, min_t: int, i: int) -> bool {
    hits[i] is Some && hits[i]->0.t > min_t
}

/// Nearest-hit search keeps the first of the nearest hits beyond `min_t`:
/// it finds nothing exactly when there is no hit beyond `min_t`; otherwise
/// its result is some hit `i` beyond `min_t`, no hit beyond `min_t` is nearer
/// than it, and no hit before `i` beyond `min_t` is as near.
pub proof fn lemma_nearest_first_minimum(hits: Seq<Option<IntersectionResult>>, min_t: int)
    ensures
        nearest(hits, min_t) is None <==> (forall|j: int| 0 <= j < hits.len() ==> !beyond(hits, min_t, j)),
        nearest(hits, min_t) matches Some(h) ==> exists|i: int| 0 <= i < hits.len()
            && beyond(hits, min_t, i)
            && #[trigger] hits[i] == Some(h)
            && (forall|j: int| 0 <= j < hits.len() && beyond(hits, min_t, j) ==> h.t <= hits[j]->0.t)
            && (forall|j: int| 0 <= j < i && beyond(hits, min_t, j) ==> h.t < hits[j]->0.t),
    decreases hits.len(),
{
    if hits.len() > 0 {
        let pre = hits.drop_last();
        let n = hits.len() - 1;
        lemma_nearest_first_minimum(pre, min_t);
        assert(forall|j: int| 0 <= j < n ==> pre[j] == hits[j]);
        assert(forall|j: int| 0 <= j < n ==> (beyond(pre, min_t, j) <==> beyond(hits, min_t, j)));
        if let Some(h) = nearest(hits, min_t) {
            if nearest(pre, min_t) == Some(h) {
                let i = choose|i: int| 0 <= i < pre.len()
                    && beyond(pre, min_t, i)
                    && #[trigger] pre[i] == Some(h)
                    && (forall|j: int| 0 <= j < pre.len() && beyond(pre, min_t, j) ==> h.t <= pre[j]->0.t)
                    && (forall|j: int| 0 <= j < i && beyond(pre, min_t, j) ==> h.t < pre[j]->0.t);
                assert(hits[i] == Some(h));
                assert(beyond(hits, min_t, i));
            } else {
                assert(hits[n] == Some(h));
                assert(beyond(hits, min_t, n));
            }
        } else {
            assert(nearest(pre, min_t) is None);
            assert(!beyond(hits, min_t, n));
            assert forall|j: int| 0 <= j < hits.len() implies !beyond(hits, min_t, j) by {
                if j < n {
                    assert(!beyond(pre, min_t, j));
                }
            }
        }
    }
}

impl Scene {
    /// An empty scene seen from the origin.
    pub fn new() -> (s: Scene)
        ensures
            s.objects@.len() == 0,
            s.camera.position == Vec3::spec_zero(),
    {
        Scene { objects: Vec::new(), camera: Camera { position: Vec3::zero() } }
    }

    /// The nearest hit beyond `min_t` along `ray`; among equally near hits the
    /// object that comes first wins.
    pub fn intersect(&self, ray: Ray, min_t: i64) -> (r: Option<IntersectionResult>)
        ensures
            r == nearest(hits_of(self.objects@, ray), min_t as int),
    {
        let mut best: Option<IntersectionResult> = None;
        let mut i: usize = 0;
        while i < self.objects.len()
            invariant
                i <= self.objects@.len(),
                best == nearest(hits_of(self.objects@, ray).take(i as int), min_t as int),
            decreases self.objects@.len() - i,
        {
            let object = &self.objects[i];
            assert(hits_of(self.objects@, ray).take(i as int + 1).drop_last() == hits_of(self.objects@, ray).take(i as int));
            if let Some(result) = object.intersect(&ray) {
                let ok = match best {
                    Some(ref b) => b.t > result.t,
                    None => true,
                };
                if ok && result.t > min_t {
                    best = Some(result);
                }
            }
            i = i + 1;
        }
        assert(hits_of(self.objects@, ray).take(self.objects@.len() as int) == hits_of(self.objects@, ray));
        proof {
            let hits = hits_of(self.objects@, ray);
            lemma_nearest_first_minimum(hits, min_t as int);
            if let Some(h) = best {
                let i = choose|i: int| 0 <= i < hits.len()
                    && beyond(hits, min_t as int, i)
                    && #[trigger] hits[i] == Some(h)
                    && (forall|j: int| 0 <= j < hits.len() && beyond(hits, min_t as int, j) ==> h.t <= hits[j]->0.t)
                    && (forall|j: int| 0 <= j < i && beyond(hits, min_t as int, j) ==> h.t < hits[j]->0.t);
                assert(self.objects@[i].hit(ray) == Some(h));
            }
        }
        best
    }
}

} // verus!
