//! The progressive path tracer: camera rays, recursive light transport and
//! the running per-pixel average kept in a gamma-encoded RGBA buffer.
use vstd::prelude::*;
use crate::fixed::{
    add_spec, clamp, clamp_exec, div_spec, floor_div, fx_add, fx_div, fx_mul, fx_sub, lemma_isqrt_of, mul_spec,
    sqrt_spec, sub_spec, ONE,
};
use crate::material::scatter_spec;
use crate::ray::Ray;
use crate::scene::{hits_of, nearest, Scene, Sphere};
use crate::util::{from_byte, gamma, igamma, in_unit_ball, random_unit, rgb_to_vec3, rgba_spec, vec3_to_rgb, Rgba};
use crate::vec3::{normalize_spec, v3, vadd, vmul, Vec3};

verus! {

/// Samples traced for each pixel on each update.
pub const SAMPLES_PER_PIXEL: u32 = 1;

/// Bounces after which a path that still meets a surface counts as absorbed.
pub const MAX_DEPTH: u8 = 40;

/// Nearest distance at which a bounced ray may meet a surface (about 0.001),
/// so that it does not meet the surface it leaves.
pub const MIN_BOUNCE_T: i64 = 66;

/// Tangent of half the default field of view of 60 degrees.
pub const DEFAULT_FOV_TAN: i64 = 37837;

/// The colour of the sky, returned by every ray that meets nothing.
pub open spec fn sky() -> Vec3 {
    v3(ONE as int, ONE as int, ONE as int)
}

pub open spec fn min_t_at(depth: int) -> int {
    if depth > 0 {
        MIN_BOUNCE_T as int
    } else {
        0
    }
}

/// The colour that tracing `ray` at bounce `depth` returns when the diffuse
/// bounce at depth `i` uses the point `offs(i)` of the unit ball: the sky on
/// a miss, black on a hit at the depth bound or on absorption, and otherwise
/// the attenuation times the colour that the scattered ray returns.
pub open spec fn trace_with(objs: Seq<Sphere>, max_depth: int, ray: Ray, depth: int, offs: spec_fn(int) -> Vec3) -> Vec3
    decreases max_depth - depth,
{
    match nearest(hits_of(objs, ray), min_t_at(depth)) {
        None => sky(),
        Some(h) => if depth < max_depth {
            match scatter_spec(h.material, ray, h, offs(depth)) {
                None => Vec3::spec_zero(),
                Some(sc) => vmul(trace_with(objs, max_depth, sc.0, depth + 1, offs), sc.1),
            }
        } else {
            Vec3::spec_zero()
        },
    }
}

/// Whether `c` is a colour that tracing `ray` at bounce `depth` can return,
/// for some choice of the random points of the diffuse bounces.
pub open spec fn traced(objs: Seq<Sphere>, max_depth: int, ray: Ray, depth: int, c: Vec3) -> bool {
    exists|offs: spec_fn(int) -> Vec3| (forall|i: int| in_unit_ball(#[trigger] offs(i)))
        && c == #[trigger] trace_with(objs, max_depth, ray, depth, offs)
}

/// Tracing from bounce `depth` on uses no random point of an earlier bounce.
pub proof fn lemma_trace_frame(objs: Seq<Sphere>, max_depth: int, ray: Ray, depth: int, f: spec_fn(int) -> Vec3, g: spec_fn(int) -> Vec3)
    requires
        forall|i: int| i >= depth ==> #[trigger] f(i) == g(i),
    ensures
        trace_with(objs, max_depth, ray, depth, f) == trace_with(objs, max_depth, ray, depth, g),
    decreases max_depth - depth,
{
    if let Some(h) = nearest(hits_of(objs, ray), min_t_at(depth)) {
        if depth < max_depth {
            assert(f(depth) == g(depth));
            if let Some(sc) = scatter_spec(h.material, ray, h, f(depth)) {
                lemma_trace_frame(objs, max_depth, sc.0, depth + 1, f, g);
            }
        }
    }
}

/// With a depth bound of zero nothing scatters: a path returns the sky when
/// the camera ray meets nothing and black when it meets anything.
pub proof fn lemma_depth_zero(objs: Seq<Sphere>, ray: Ray, c: Vec3)
    requires
        traced(objs, 0, ray, 0, c),
    ensures
        nearest(hits_of(objs, ray), 0) is None ==> c == sky(),
        nearest(hits_of(objs, ray), 0) is Some ==> c == Vec3::spec_zero(),
{
}

/// The sum of a sequence of colours.
pub open spec fn vsum(cs: Seq<Vec3>) -> Vec3
    decreases cs.len(),
{
    if cs.len() == 0 {
        Vec3::spec_zero()
    } else {
        vadd(vsum(cs.drop_last()), cs.last())
    }
}

/// Direction through pixel `(px, py)`, jittered by `(jx, jy)` in `[0, 1)`:
/// the pixel mapped to `[-1, 1]` on both axes, scaled by the field of view
/// and, horizontally, by the aspect ratio, at unit depth; normalized.
pub open spec fn camera_dir(w: int, h: int, fov_tan: int, px: int, py: int, jx: int, jy: int) -> Vec3 {
    let xr = px * ONE + jx;
    let yr = py * ONE + jy;
    let x = sub_spec(div_spec(add_spec(xr, xr), w * ONE), ONE as int);
    let y = sub_spec(div_spec(add_spec(yr, yr), h * ONE), ONE as int);
    let aspect = div_spec(w * ONE, h * ONE);
    normalize_spec(v3(mul_spec(mul_spec(x, fov_tan), aspect), mul_spec(y, fov_tan), ONE as int))
}

/// A running average channel: the old linear value weighted by `k` samples,
/// plus the sum of this update's samples, over all samples so far.
pub open spec fn blend_spec(lin: int, k: int, sum: int) -> int {
    clamp((lin * k * SAMPLES_PER_PIXEL + sum) / ((k + 1) * SAMPLES_PER_PIXEL))
}

/// The linear value that a stored byte stands for.
pub open spec fn linear_of(b: u8) -> int {
    mul_spec(from_byte(b), from_byte(b))
}

/// The pixel stored after an update at iteration `k` whose samples sum to `sum`.
pub open spec fn updated_pixel(old: Rgba, k: int, sum: Vec3) -> Rgba {
    rgba_spec(
        sqrt_spec(blend_spec(linear_of(old.r), k, sum.x as int)),
        sqrt_spec(blend_spec(linear_of(old.g), k, sum.y as int)),
        sqrt_spec(blend_spec(linear_of(old.b), k, sum.z as int)),
        ONE as int,
    )
}

pub open spec fn white_pixel() -> Rgba {
    Rgba { r: 255, g: 255, b: 255, a: 255 }
}

pub open spec fn black_pixel() -> Rgba {
    Rgba { r: 0, g: 0, b: 0, a: 255 }
}

/// Pixel `p` of a packed RGBA buffer.
pub open spec fn pixel_spec(buf: Seq<u8>, p: int) -> Rgba {
    Rgba { r: buf[4 * p], g: buf[4 * p + 1], b: buf[4 * p + 2], a: buf[4 * p + 3] }
}

/// The renderer. `image` holds the running average of all samples so far,
/// gamma-encoded, `width * height` pixels row-major with four bytes each;
/// `iters` counts the updates that went into it, and the two change together.
pub struct RayTracer {
    pub scene: Scene,
    pub image: Vec<u8>,
    pub dimensions: (u32, u32),
    /// Tangent of half the field of view.
    pub fov_tan: i64,
    pub iters: u32,
    pub max_depth: u8,
}

impl RayTracer {
    pub open spec fn wf(&self) -> bool {
        self.image@.len() == 4 * (self.dimensions.0 as int) * (self.dimensions.1 as int)
    }
}

/// Whether `c` is a colour that a sample of pixel `(px, py)` of `rt` can give.
pub open spec fn sample_of(rt: RayTracer, px: int, py: int, c: Vec3) -> bool {
    exists|jx: int, jy: int| 0 <= jx < ONE && 0 <= jy < ONE
        && #[trigger] traced(rt.scene.objects@, rt.max_depth as int,
            Ray { origin: rt.scene.camera.position, dir: camera_dir(rt.dimensions.0 as int, rt.dimensions.1 as int, rt.fov_tan as int, px, py, jx, jy) },
            0, c)
}

/// Whether `new` is a value that an update of `rt` can store at pixel `p`.
pub open spec fn update_of(rt: RayTracer, p: int, new: Rgba) -> bool {
    let w = rt.dimensions.0 as int;
    exists|samples: Seq<Vec3>| samples.len() == SAMPLES_PER_PIXEL
        && (forall|j: int| 0 <= j < samples.len() ==> sample_of(rt, p % w, p / w, #[trigger] samples[j]))
        && new == #[trigger] updated_pixel(pixel_spec(rt.image@, p), rt.iters as int, vsum(samples))
}

impl RayTracer {
    /// The colour that light brings back along `ray`, `depth` bounces from the
    /// camera (a sample of the path-tracing estimate; components may leave
    /// `[0, 1]`).
    pub fn render(&self, ray: Ray, depth: u8) -> (r: Vec3)
        ensures
            traced(self.scene.objects@, self.max_depth as int, ray, depth as int, r),
        decreases self.max_depth - depth,
    {
        let ghost objs = self.scene.objects@;
        let ghost max = self.max_depth as int;
        let ghost zeros = |i: int| Vec3::spec_zero();
        assert(in_unit_ball(Vec3::spec_zero()));
        let min_t: i64 = if depth > 0 { MIN_BOUNCE_T } else { 0 };
        let intersection = self.scene.intersect(ray, min_t);
        assert(intersection == nearest(hits_of(objs, ray), min_t_at(depth as int)));
        match intersection {
            None => {
                let c = Vec3::new(ONE, ONE, ONE);
                assert(c == sky());
                assert(c == trace_with(objs, max, ray, depth as int, zeros));
                c
            },
            Some(result) => {
                if depth < self.max_depth {
                    let scatter = result.material.scatter(&ray, &result);
                    let ghost o = choose|o: Vec3| in_unit_ball(o) && scatter == scatter_spec(result.material, ray, result, o);
                    match scatter {
                        Some((next, attenuation)) => {
                            let d = self.render(next, depth + 1);
                            let c = d * attenuation;
                            proof {
                                let g = choose|g: spec_fn(int) -> Vec3| (forall|i: int| in_unit_ball(#[trigger] g(i)))
                                    && d == #[trigger] trace_with(objs, max, next, depth + 1, g);
                                let f = |i: int| if i == depth { o } else { g(i) };
                                assert forall|i: int| in_unit_ball(#[trigger] f(i)) by {
                                    if i != depth {
                                        assert(in_unit_ball(g(i)));
                                    }
                                }
                                lemma_trace_frame(objs, max, next, depth + 1, f, g);
                                assert(c == trace_with(objs, max, ray, depth as int, f));
                            }
                            c
                        },
                        None => {
                            let c = Vec3::zero();
                            let ghost f = |i: int| o;
                            assert(c == trace_with(objs, max, ray, depth as int, f));
                            c
                        },
                    }
                } else {
                    let c = Vec3::zero();
                    assert(c == trace_with(objs, max, ray, depth as int, zeros));
                    c
                }
            },
        }
    }
}

impl RayTracer {
    /// A renderer of the given size with an empty scene, a 60 degree field
    /// of view, no updates made and every pixel opaque black.
    pub fn new(dimensions: (u32, u32)) -> (rt: RayTracer)
        requires
            4 * (dimensions.0 as int) * (dimensions.1 as int) <= usize::MAX,
        ensures
            rt.wf(),
            rt.dimensions == dimensions,
            rt.iters == 0,
            rt.fov_tan == DEFAULT_FOV_TAN,
            rt.max_depth == MAX_DEPTH,
            rt.scene.objects@.len() == 0,
            rt.scene.camera.position == Vec3::spec_zero(),
            forall|p: int| 0 <= p < dimensions.0 * dimensions.1 ==> #[trigger] pixel_spec(rt.image@, p) == black_pixel(),
    {
        let w = dimensions.0 as usize;
        let h = dimensions.1 as usize;
        assert(w * h <= usize::MAX) by (nonlinear_arith)
            requires 4 * w * h <= usize::MAX, 0 <= w, 0 <= h;
        let n = w * h;
        assert(4 * n <= usize::MAX) by (nonlinear_arith)
            requires n == w * h, 4 * w * h <= usize::MAX;
        let mut image: Vec<u8> = Vec::new();
        let mut i: usize = 0;
        while i < n
            invariant
                i <= n,
                n == w * h,
                4 * n <= usize::MAX,
                image@.len() == 4 * i,
                forall|p: int| 0 <= p < i ==> #[trigger] pixel_spec(image@, p) == black_pixel(),
            decreases n - i,
        {
            let ghost prev = image@;
            image.push(0);
            image.push(0);
            image.push(0);
            image.push(255);
            assert forall|p: int| 0 <= p < i + 1 implies #[trigger] pixel_spec(image@, p) == black_pixel() by {
                if p < i {
                    assert(pixel_spec(prev, p) == black_pixel());
                }
            }
            i = i + 1;
        }
        assert(image@.len() == 4 * (dimensions.0 as int) * (dimensions.1 as int)) by (nonlinear_arith)
            requires image@.len() == 4 * n, n == w * h, w == dimensions.0, h == dimensions.1;
        RayTracer {
            scene: Scene::new(),
            image,
            dimensions,
            fov_tan: DEFAULT_FOV_TAN,
            iters: 0,
            max_depth: MAX_DEPTH,
        }
    }

    /// The camera ray through pixel `(px, py)`, jittered by `(jx, jy)`, which
    /// lie in `[0, 1)`.
    pub fn camera_ray(&self, px: u32, py: u32, jx: i64, jy: i64) -> (r: Ray)
        requires
            0 <= jx < ONE,
            0 <= jy < ONE,
        ensures
            r == (Ray {
                origin: self.scene.camera.position,
                dir: camera_dir(self.dimensions.0 as int, self.dimensions.1 as int, self.fov_tan as int, px as int, py as int, jx as int, jy as int),
            }),
    {
        let xr = px as i64 * ONE + jx;
        let yr = py as i64 * ONE + jy;
        let w1 = self.dimensions.0 as i64 * ONE;
        let h1 = self.dimensions.1 as i64 * ONE;
        let x = fx_sub(fx_div(fx_add(xr, xr), w1), ONE);
        let y = fx_sub(fx_div(fx_add(yr, yr), h1), ONE);
        let aspect = fx_div(w1, h1);
        let dir = Vec3::new(fx_mul(fx_mul(x, self.fov_tan), aspect), fx_mul(y, self.fov_tan), ONE).normalize();
        Ray::new(self.scene.camera.position, dir)
    }
}

impl RayTracer {
    /// One pass of progressive refinement: each pixel gets
    /// `SAMPLES_PER_PIXEL` new samples, averaged with all earlier ones, and
    /// the update count goes up by one.
    pub fn update(&mut self)
        requires
            old(self).wf(),
            old(self).iters < u32::MAX,
        ensures
            update_step(*old(self), *final(self)),
            final(self).wf(),
            final(self).iters == old(self).iters + 1,
            final(self).scene == old(self).scene,
            final(self).dimensions == old(self).dimensions,
            final(self).fov_tan == old(self).fov_tan,
            final(self).max_depth == old(self).max_depth,
            forall|p: int| 0 <= p < old(self).dimensions.0 * old(self).dimensions.1
                ==> update_of(*old(self), p, #[trigger] pixel_spec(final(self).image@, p)),
            old(self).scene.objects@.len() == 0 && (old(self).iters == 0 || forall|p: int|
                0 <= p < old(self).dimensions.0 * old(self).dimensions.1 ==> #[trigger] pixel_spec(old(self).image@, p) == white_pixel())
                ==> forall|p: int| 0 <= p < old(self).dimensions.0 * old(self).dimensions.1
                    ==> #[trigger] pixel_spec(final(self).image@, p) == white_pixel(),
    {
        let ghost pre = *old(self);
        let w = self.dimensions.0 as usize;
        let h = self.dimensions.1 as usize;
        let len = self.image.len();
        assert(len == 4 * (w * h)) by (nonlinear_arith)
            requires len == 4 * w * h;
        let n = len / 4;
        assert(n == w * h);
        let k = self.iters;
        let mut i: usize = 0;
        while i < n
            invariant
                i <= n,
                n == w * h,
                w == pre.dimensions.0,
                h == pre.dimensions.1,
                k == pre.iters,
                self.image@.len() == pre.image@.len(),
                self.image@.len() == 4 * n,
                4 * n <= usize::MAX,
                self.scene == pre.scene,
                self.dimensions == pre.dimensions,
                self.fov_tan == pre.fov_tan,
                self.max_depth == pre.max_depth,
                self.iters == pre.iters,
                forall|p: int| 0 <= p < i ==> update_of(pre, p, #[trigger] pixel_spec(self.image@, p)),
                forall|p: int| i <= p < n ==> #[trigger] pixel_spec(self.image@, p) == pixel_spec(pre.image@, p),
            decreases n - i,
        {
            assert(w > 0) by (nonlinear_arith)
                requires i < n, n == w * h;
            let px = i % w;
            let py = i / w;
            proof {
                vstd::arithmetic::div_mod::lemma_multiply_divide_lt(i as int, w as int, h as int);
            }
            assert(px < w && py < h);
            let pxu = px as u32;
            let pyu = py as u32;
            assert(pixel_spec(self.image@, i as int) == pixel_spec(pre.image@, i as int));
            let b = 4 * i;
            let old_pixel = Rgba { r: self.image[b], g: self.image[b + 1], b: self.image[b + 2], a: self.image[b + 3] };
            assert(old_pixel == pixel_spec(pre.image@, i as int));
            let mut sum = Vec3::zero();
            let mut s: u32 = 0;
            let ghost mut samples: Seq<Vec3> = Seq::empty();
            while s < SAMPLES_PER_PIXEL
                invariant
                    s <= SAMPLES_PER_PIXEL,
                    samples.len() == s,
                    sum == vsum(samples),
                    pxu as int == px as int,
                    pyu as int == py as int,
                    self.scene == pre.scene,
                    self.dimensions == pre.dimensions,
                    self.fov_tan == pre.fov_tan,
                    self.max_depth == pre.max_depth,
                    forall|j: int| 0 <= j < samples.len() ==> sample_of(pre, px as int, py as int, #[trigger] samples[j]),
                decreases SAMPLES_PER_PIXEL - s,
            {
                let jx = random_unit();
                let jy = random_unit();
                let ray = self.camera_ray(pxu, pyu, jx, jy);
                let c = self.render(ray, 0);
                proof {
                    assert(traced(pre.scene.objects@, pre.max_depth as int,
                        Ray { origin: pre.scene.camera.position, dir: camera_dir(pre.dimensions.0 as int, pre.dimensions.1 as int, pre.fov_tan as int, px as int, py as int, jx as int, jy as int) },
                        0, c));
                    assert(sample_of(pre, px as int, py as int, c));
                    let next = samples.push(c);
                    assert(next.drop_last() == samples);
                    samples = next;
                }
                sum = sum + c;
                s = s + 1;
            }
            let new_pixel = blend_pixel(old_pixel, k, sum);
            assert(update_of(pre, i as int, new_pixel));
            let ghost before = self.image@;
            self.image.set(b, new_pixel.r);
            self.image.set(b + 1, new_pixel.g);
            self.image.set(b + 2, new_pixel.b);
            self.image.set(b + 3, new_pixel.a);
            assert(pixel_spec(self.image@, i as int) == new_pixel);
            assert forall|p: int| 0 <= p < n && p != i implies #[trigger] pixel_spec(self.image@, p) == pixel_spec(before, p) by {
                assert(self.image@[4 * p] == before[4 * p]);
                assert(self.image@[4 * p + 1] == before[4 * p + 1]);
                assert(self.image@[4 * p + 2] == before[4 * p + 2]);
                assert(self.image@[4 * p + 3] == before[4 * p + 3]);
            }
            i = i + 1;
        }
        self.iters = self.iters + 1;
        proof {
            if pre.scene.objects@.len() == 0 && (pre.iters == 0 || forall|p: int|
                0 <= p < pre.dimensions.0 * pre.dimensions.1 ==> #[trigger] pixel_spec(pre.image@, p) == white_pixel()) {
                assert forall|p: int| 0 <= p < pre.dimensions.0 * pre.dimensions.1 implies
                    #[trigger] pixel_spec(self.image@, p) == white_pixel() by {
                    lemma_sky_average_stable(pre, p, pixel_spec(self.image@, p));
                }
            }
        }
    }
}

/// Whether `next` is a state that one update can leave after `prev`.
pub open spec fn update_step(prev: RayTracer, next: RayTracer) -> bool {
    &&& next.wf()
    &&& next.iters == prev.iters + 1
    &&& next.scene == prev.scene
    &&& next.dimensions == prev.dimensions
    &&& next.fov_tan == prev.fov_tan
    &&& next.max_depth == prev.max_depth
    &&& forall|p: int| 0 <= p < prev.dimensions.0 * prev.dimensions.1
        ==> update_of(prev, p, #[trigger] pixel_spec(next.image@, p))
}

/// The running average does not drift, whatever the number of updates: from
/// a fresh start on a scene with no object, every pixel is white after the
/// first update and after each later one.
pub proof fn lemma_sky_average_every_update(states: Seq<RayTracer>)
    requires
        states.len() >= 1,
        states[0].iters == 0,
        states[0].scene.objects@.len() == 0,
        forall|i: int| 0 <= i < states.len() - 1 ==> update_step(#[trigger] states[i], states[i + 1]),
    ensures
        forall|i: int| 0 <= i < states.len() ==> (#[trigger] states[i]).scene == states[0].scene
            && states[i].dimensions == states[0].dimensions,
        forall|i: int, p: int| 1 <= i < states.len() && 0 <= p < states[0].dimensions.0 * states[0].dimensions.1
            ==> #[trigger] pixel_spec(states[i].image@, p) == white_pixel(),
    decreases states.len(),
{
    if states.len() > 1 {
        let pre = states.drop_last();
        let n = states.len() - 1;
        assert forall|i: int| 0 <= i < pre.len() - 1 implies update_step(#[trigger] pre[i], pre[i + 1]) by {
            assert(update_step(states[i], states[i + 1]));
        }
        lemma_sky_average_every_update(pre);
        assert(pre[n - 1] == states[n - 1]);
        let prev = states[n - 1];
        assert(update_step(prev, states[n]));
        assert forall|i: int| 0 <= i < states.len() implies (#[trigger] states[i]).scene == states[0].scene
            && states[i].dimensions == states[0].dimensions by {
            if i < n {
                assert(pre[i] == states[i]);
            }
        }
        assert forall|i: int, p: int| 1 <= i < states.len() && 0 <= p < states[0].dimensions.0 * states[0].dimensions.1
            implies #[trigger] pixel_spec(states[i].image@, p) == white_pixel() by {
            if i < n {
                assert(pre[i] == states[i]);
                assert(pixel_spec(pre[i].image@, p) == white_pixel());
            } else {
                assert(update_of(prev, p, pixel_spec(states[n].image@, p)));
                if n - 1 >= 1 {
                    assert(pixel_spec(pre[n - 1].image@, p) == white_pixel());
                } else {
                    assert(prev.iters == 0);
                }
                lemma_sky_average_stable(prev, p, pixel_spec(states[n].image@, p));
            }
        }
    }
}

/// An empty scene sends every ray to the sky.
proof fn lemma_empty_scene_sky(max_depth: int, ray: Ray, depth: int, c: Vec3)
    requires
        traced(Seq::empty(), max_depth, ray, depth, c),
    ensures
        c == sky(),
{
    assert(hits_of(Seq::empty(), ray).len() == 0);
    let offs = choose|offs: spec_fn(int) -> Vec3| (forall|i: int| in_unit_ball(#[trigger] offs(i)))
        && c == #[trigger] trace_with(Seq::empty(), max_depth, ray, depth, offs);
    assert(c == trace_with(Seq::empty(), max_depth, ray, depth, offs));
}

/// The running average does not drift: with a scene that holds no object,
/// every sample is the sky, so an update stores white in a pixel at the first
/// update and keeps it white at every later one.
pub proof fn lemma_sky_average_stable(rt: RayTracer, p: int, new: Rgba)
    requires
        rt.scene.objects@.len() == 0,
        update_of(rt, p, new),
        rt.iters == 0 || pixel_spec(rt.image@, p) == white_pixel(),
    ensures
        new == white_pixel(),
{
    let w = rt.dimensions.0 as int;
    let samples = choose|samples: Seq<Vec3>| samples.len() == SAMPLES_PER_PIXEL
        && (forall|j: int| 0 <= j < samples.len() ==> sample_of(rt, p % w, p / w, #[trigger] samples[j]))
        && new == #[trigger] updated_pixel(pixel_spec(rt.image@, p), rt.iters as int, vsum(samples));
    assert(sample_of(rt, p % w, p / w, samples[0]));
    assert(rt.scene.objects@ == Seq::<Sphere>::empty());
    let (jx, jy) = choose|jx: int, jy: int| 0 <= jx < ONE && 0 <= jy < ONE
        && #[trigger] traced(rt.scene.objects@, rt.max_depth as int,
            Ray { origin: rt.scene.camera.position, dir: camera_dir(rt.dimensions.0 as int, rt.dimensions.1 as int, rt.fov_tan as int, p % w, p / w, jx, jy) },
            0, samples[0]);
    lemma_empty_scene_sky(rt.max_depth as int,
        Ray { origin: rt.scene.camera.position, dir: camera_dir(rt.dimensions.0 as int, rt.dimensions.1 as int, rt.fov_tan as int, p % w, p / w, jx, jy) },
        0, samples[0]);
    assert(samples.drop_last().len() == 0);
    assert(vsum(samples) == sky()) by {
        reveal_with_fuel(vsum, 2);
        assert(samples.last() == samples[0]);
        assert(vsum(samples.drop_last()) == Vec3::spec_zero());
    }
    let old = pixel_spec(rt.image@, p);
    let k = rt.iters as int;
    lemma_isqrt_of(ONE * ONE, ONE as int);
    lemma_blend_sky(old.r, k);
    lemma_blend_sky(old.g, k);
    lemma_blend_sky(old.b, k);
}

/// Averaging a white sample into a white pixel, or into any pixel at the
/// first update, gives white.
proof fn lemma_blend_sky(b: u8, k: int)
    requires
        0 <= k,
        k == 0 || b == 255,
    ensures
        blend_spec(linear_of(b), k, ONE as int) == ONE,
{
    let one = ONE as int;
    let spp = SAMPLES_PER_PIXEL as int;
    assert(spp == 1);
    if k == 0 {
        assert(linear_of(b) * k * spp == 0) by (nonlinear_arith)
            requires k == 0;
        assert((k + 1) * spp == 1) by (nonlinear_arith)
            requires k == 0, spp == 1;
    } else {
        assert(from_byte(255) == one);
        assert(linear_of(255) == one);
        assert(one * k * spp + one == (k + 1) * one) by (nonlinear_arith)
            requires spp == 1;
        assert((k + 1) * spp == k + 1) by (nonlinear_arith)
            requires spp == 1;
        vstd::arithmetic::div_mod::lemma_div_multiples_vanish(one, k + 1);
    }
}

/// One channel of the running average (see `blend_spec`).
fn blend_channel(lin: i64, k: u32, sum: i64) -> (r: i64)
    requires
        0 <= lin <= ONE,
    ensures
        r as int == blend_spec(lin as int, k as int, sum as int),
{
    let li = lin as i128;
    let ki = k as i128;
    assert(0 <= li * ki <= 0x1_0000_0000_0000_0000) by (nonlinear_arith)
        requires 0 <= li <= 65536, 0 <= ki <= 0xffff_ffff;
    let lk = li * ki;
    let spp = SAMPLES_PER_PIXEL as i128;
    assert(0 <= lk * spp <= 0x1_0000_0000_0000_0000_0000_0000) by (nonlinear_arith)
        requires 0 <= lk <= 0x1_0000_0000_0000_0000, 1 <= spp <= 0xffff_ffff;
    assert(1 <= (ki + 1) * spp <= 0x1_0000_0000_0000_0000) by (nonlinear_arith)
        requires 0 <= ki <= 0xffff_ffff, 1 <= spp <= 0xffff_ffff;
    let num = lk * spp + sum as i128;
    let den = (ki + 1) * spp;
    assert(num == lin as int * k as int * SAMPLES_PER_PIXEL + sum as int);
    clamp_exec(floor_div(num, den))
}

/// The pixel stored after an update at iteration `k` whose samples sum to
/// `sum`: the stored value is decoded to linear light, averaged with the new
/// samples, and encoded again.
pub fn blend_pixel(old: Rgba, k: u32, sum: Vec3) -> (r: Rgba)
    ensures
        r == updated_pixel(old, k as int, sum),
{
    let lin = igamma(rgb_to_vec3(old));
    proof {
        lemma_square_unit(from_byte(old.r));
        lemma_square_unit(from_byte(old.g));
        lemma_square_unit(from_byte(old.b));
    }
    let avg = Vec3::new(blend_channel(lin.x, k, sum.x), blend_channel(lin.y, k, sum.y), blend_channel(lin.z, k, sum.z));
    let g = gamma(avg);
    vec3_to_rgb(g)
}

/// The square of a scalar in `[0, 1]` stays in `[0, 1]`.
proof fn lemma_square_unit(f: int)
    requires
        0 <= f <= ONE,
    ensures
        0 <= mul_spec(f, f) <= ONE,
{
    assert(0 <= f * f <= 65536 * 65536) by (nonlinear_arith)
        requires 0 <= f <= 65536;
    vstd::arithmetic::div_mod::lemma_div_is_ordered(f * f, 65536int * 65536int, 65536int);
    vstd::arithmetic::div_mod::lemma_div_pos_is_pos(f * f, 65536int);
}

} // verus!