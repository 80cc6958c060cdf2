use rusty_ray::fixed::ONE;
use rusty_ray::material::{IntersectionResult, Material};
use rusty_ray::ray::Ray;
use rusty_ray::raytracer::{blend_pixel, RayTracer, MAX_DEPTH};
use rusty_ray::scene::{Scene, SceneObject, Sphere};
use rusty_ray::util::{
    first_in_ball, gamma, igamma, lerp, lerp_rgba, random_unit, rgb, rgb_to_vec3, rgba, rnd_in_unit_sphere, vec3_to_rgb, Rgba,
};
use rusty_ray::vec3::Vec3;

fn v(x: i64, y: i64, z: i64) -> Vec3 {
    Vec3::new(x * ONE, y * ONE, z * ONE)
}

fn sphere(c: Vec3, r: i64, m: Material) -> Sphere {
    Sphere { origin: c, radius: r, material: m }
}

fn grey() -> Material {
    Material::Lambertian(Vec3::new(ONE / 2, ONE / 2, ONE / 2))
}

#[test]
fn ray_point() {
    let r = Ray::new(v(1, 2, 3), v(0, 0, 1));
    assert_eq!(r.point(2 * ONE), v(1, 2, 5));
}

#[test]
fn ray_at_centre_hits_near_side() {
    let s = sphere(v(0, 0, 5), ONE, grey());
    let hit = s.intersect(&Ray::new(Vec3::zero(), v(0, 0, 1))).unwrap();
    assert_eq!(hit.t, 4 * ONE);
    assert_eq!(hit.n, v(0, 0, -1));
    assert_eq!(hit.material, grey());
    let s = sphere(v(3, 4, 0), 2 * ONE, grey());
    let hit = s.intersect(&Ray::new(Vec3::zero(), Vec3::new(3 * ONE / 5, 4 * ONE / 5, 0))).unwrap();
    // the direction is rounded to the scalar grid, which moves the hit by a few steps
    assert!((hit.t - 3 * ONE).abs() <= 16);
}

#[test]
fn sphere_behind_or_aside_is_missed() {
    let ray = Ray::new(Vec3::zero(), v(0, 0, 1));
    assert!(sphere(v(0, 0, -5), ONE, grey()).intersect(&ray).is_none());
    assert!(sphere(v(3, 0, 5), ONE, grey()).intersect(&ray).is_none());
}

#[test]
fn origin_inside_sphere_uses_far_root() {
    let ray = Ray::new(Vec3::zero(), v(0, 0, 1));
    let hit = sphere(v(0, 0, 1), 2 * ONE, grey()).intersect(&ray).unwrap();
    assert_eq!(hit.t, 3 * ONE);
}

#[test]
fn intersection_is_translation_consistent() {
    let d = v(1, 2, 2).normalize();
    for (o, c) in [(v(1, -2, 3), v(4, 5, 11)), (v(-10, 7, 0), v(-8, 10, 6)), (v(0, 0, 0), v(1, 2, 2))] {
        let a = sphere(c, 3 * ONE / 2, grey()).intersect(&Ray::new(o, d));
        let b = sphere(Vec3::zero(), 3 * ONE / 2, grey()).intersect(&Ray::new(o - c, d));
        assert_eq!(a.map(|h| h.t), b.map(|h| h.t));
        assert_eq!(a.map(|h| h.n), b.map(|h| h.n));
    }
}

#[test]
fn scene_keeps_nearest_hit() {
    let mut scene = Scene::new();
    let a = Material::Metal(v(1, 0, 0));
    let b = Material::Metal(v(0, 1, 0));
    let c = Material::Metal(v(0, 0, 1));
    scene.objects.push(sphere(v(0, 0, 6), ONE, a));
    scene.objects.push(sphere(v(0, 0, 3), ONE, b));
    scene.objects.push(sphere(v(10, 0, 5), ONE, c));
    let ray = Ray::new(Vec3::zero(), v(0, 0, 1));
    let hit = scene.intersect(ray, 0).unwrap();
    assert_eq!(hit.t, 2 * ONE);
    assert_eq!(hit.material, b);
    assert!(scene.intersect(ray, 3 * ONE).map(|h| h.t) == Some(5 * ONE));
    assert!(scene.intersect(ray, 6 * ONE).is_none());
}

#[test]
fn scene_ties_keep_first() {
    let mut scene = Scene::new();
    let a = Material::Metal(v(1, 0, 0));
    let b = Material::Lambertian(v(0, 1, 0));
    scene.objects.push(sphere(v(0, 0, 4), ONE, a));
    scene.objects.push(sphere(v(0, 0, 4), ONE, b));
    let hit = scene.intersect(Ray::new(Vec3::zero(), v(0, 0, 1)), 0).unwrap();
    assert_eq!(hit.material, a);
}

#[test]
fn empty_scene_misses() {
    let scene = Scene::new();
    assert_eq!(scene.camera.position, Vec3::zero());
    assert!(scene.intersect(Ray::new(Vec3::zero(), v(0, 0, 1)), 0).is_none());
}

#[test]
fn metal_reflects_or_absorbs() {
    let m = Material::Metal(Vec3::new(ONE / 2, ONE, ONE / 4));
    let ray = Ray::new(Vec3::zero(), v(0, 0, 1));
    let res = IntersectionResult { t: 4 * ONE, n: v(0, 0, -1), material: m };
    let (out, att) = m.scatter(&ray, &res).unwrap();
    assert_eq!(out.origin, v(0, 0, 4));
    assert_eq!(out.dir, v(0, 0, -1));
    assert_eq!(att, Vec3::new(ONE / 2, ONE, ONE / 4));
    let grazing = IntersectionResult { t: 4 * ONE, n: v(0, 0, 1), material: m };
    assert!(m.scatter(&ray, &grazing).is_none());
}

#[test]
fn lambertian_scatters_about_normal() {
    let m = Material::Lambertian(Vec3::new(ONE / 2, ONE / 3, ONE / 4));
    let ray = Ray::new(Vec3::zero(), v(0, 0, 1));
    let res = IntersectionResult { t: 4 * ONE, n: v(0, 0, -1), material: m };
    let (out, att) = m.scatter_with(&ray, &res, Vec3::new(ONE / 2, 0, 0)).unwrap();
    assert_eq!(out.origin, v(0, 0, 4));
    assert_eq!(att, Vec3::new(ONE / 2, ONE / 3, ONE / 4));
    assert!((out.dir.length() - ONE).abs() <= 16);
    assert!(out.dir.x > 0 && out.dir.z < 0);
    for _ in 0..50 {
        let (out, _) = m.scatter(&ray, &res).unwrap();
        assert_eq!(out.origin, v(0, 0, 4));
    }
}

#[test]
fn random_draws_stay_in_range() {
    let mut distinct = false;
    let first = random_unit();
    for _ in 0..200 {
        let r = random_unit();
        assert!(0 <= r && r < ONE);
        if r != first {
            distinct = true;
        }
        let p = rnd_in_unit_sphere();
        assert!(p.square_length() <= ONE);
    }
    assert!(distinct);
}

#[test]
fn depth_zero_render() {
    let mut rt = RayTracer::new((4, 4));
    assert_eq!(rt.max_depth, MAX_DEPTH);
    rt.max_depth = 0;
    let ray = Ray::new(Vec3::zero(), v(0, 0, 1));
    assert_eq!(rt.render(ray, 0), v(1, 1, 1));
    rt.scene.objects.push(sphere(v(0, 0, 5), ONE, Material::Lambertian(v(1, 1, 1))));
    assert_eq!(rt.render(ray, 0), Vec3::zero());
    assert_eq!(rt.render(Ray::new(Vec3::zero(), v(0, 1, 0)), 0), v(1, 1, 1));
}

#[test]
fn render_absorbs_and_attenuates() {
    let mut rt = RayTracer::new((4, 4));
    rt.scene.objects.push(sphere(v(0, 0, 5), ONE, Material::Metal(Vec3::new(ONE / 2, ONE / 4, ONE))));
    let c = rt.render(Ray::new(Vec3::zero(), v(0, 0, 1)), 0);
    assert_eq!(c, Vec3::new(ONE / 2, ONE / 4, ONE));
    let c = rt.render(Ray::new(Vec3::zero(), v(0, 0, 1)), MAX_DEPTH);
    assert_eq!(c, Vec3::zero());
}

#[test]
fn new_tracer_is_black() {
    let rt = RayTracer::new((3, 2));
    assert_eq!(rt.dimensions, (3, 2));
    assert_eq!(rt.iters, 0);
    assert_eq!(rt.image.len(), 3 * 2 * 4);
    for p in rt.image.chunks(4) {
        assert_eq!(p, &[0, 0, 0, 255]);
    }
}

#[test]
fn sky_only_average_does_not_drift() {
    for n in [1u32, 2, 5] {
        let mut rt = RayTracer::new((5, 3));
        for _ in 0..n {
            rt.update();
        }
        assert_eq!(rt.iters, n);
        assert!(rt.image.iter().all(|&b| b == 255));
    }
}

#[test]
fn update_converges_under_a_sphere() {
    let mut rt = RayTracer::new((8, 8));
    rt.scene.objects.push(sphere(v(0, 0, 3), 20 * ONE, Material::Metal(v(1, 1, 1))));
    for _ in 0..3 {
        rt.update();
    }
    assert!(rt.image.iter().enumerate().all(|(i, &b)| if i % 4 == 3 { b == 255 } else { b == 0 }));
}

#[test]
fn blend_pixel_averages() {
    let white = Rgba { r: 255, g: 255, b: 255, a: 255 };
    let black = Rgba { r: 0, g: 0, b: 0, a: 255 };
    assert_eq!(blend_pixel(black, 0, v(1, 1, 1)), white);
    assert_eq!(blend_pixel(white, 7, v(1, 1, 1)), white);
    assert_eq!(blend_pixel(white, 1, Vec3::zero()), Rgba { r: 180, g: 180, b: 180, a: 255 });
    assert_eq!(blend_pixel(black, 3, Vec3::new(4 * ONE, -ONE, ONE)), Rgba { r: 255, g: 0, b: 128, a: 255 });
}

#[test]
fn camera_ray_through_centre() {
    let rt = RayTracer::new((2, 2));
    let r = rt.camera_ray(1, 1, 0, 0);
    assert_eq!(r.origin, Vec3::zero());
    assert_eq!(r.dir, v(0, 0, 1));
    let corner = rt.camera_ray(0, 0, 0, 0);
    assert!(corner.dir.x < 0 && corner.dir.y < 0 && corner.dir.z > 0);
}

#[test]
fn colour_encoding() {
    assert_eq!(rgba(ONE, 0, ONE / 2, ONE), Rgba { r: 255, g: 0, b: 128, a: 255 });
    assert_eq!(rgba(-ONE, 2 * ONE, ONE / 4, 0), Rgba { r: 0, g: 255, b: 64, a: 0 });
    assert_eq!(rgb(0, 0, 0), Rgba { r: 0, g: 0, b: 0, a: 255 });
    assert_eq!(vec3_to_rgb(v(1, 0, 1)), Rgba { r: 255, g: 0, b: 255, a: 255 });
    assert_eq!(rgb_to_vec3(Rgba { r: 255, g: 0, b: 51, a: 7 }), Vec3::new(ONE, 0, ONE / 5));
    assert_eq!(gamma(Vec3::new(ONE / 4, ONE, 0)), Vec3::new(ONE / 2, ONE, 0));
    assert_eq!(igamma(Vec3::new(ONE / 2, ONE, 0)), Vec3::new(ONE / 4, ONE, 0));
}

#[test]
fn gamma_round_trip_within_quantization() {
    let mut x: i64 = 0;
    while x <= ONE {
        let back = igamma(rgb_to_vec3(vec3_to_rgb(gamma(Vec3::new(x, x, x)))));
        assert!((back.x - x).abs() <= ONE / 255 + 8, "{} -> {}", x, back.x);
        x += 97;
    }
    for b in 0..=255u8 {
        let p = Rgba { r: b, g: b, b: b, a: 255 };
        assert_eq!(vec3_to_rgb(gamma(igamma(rgb_to_vec3(p)))), p);
    }
}

#[test]
fn lerp_bytes() {
    assert_eq!(lerp(0, 200, ONE / 2), 100);
    assert_eq!(lerp(200, 0, ONE / 4), 150);
    assert_eq!(lerp(10, 20, 0), 10);
    assert_eq!(lerp(10, 20, ONE), 20);
    assert_eq!(lerp(0, 255, 2 * ONE), 255);
    assert_eq!(lerp(100, 0, 2 * ONE), 0);
    let a = Rgba { r: 0, g: 100, b: 200, a: 255 };
    let b = Rgba { r: 100, g: 100, b: 0, a: 55 };
    assert_eq!(lerp_rgba(a, b, ONE / 2), Rgba { r: 50, g: 100, b: 100, a: 155 });
}

#[test]
fn rejection_keeps_first_draw_in_ball() {
    let outside = v(1, 1, 1);
    let corner = Vec3::new(-ONE, -ONE, ONE - 1);
    let inside = Vec3::new(ONE / 2, -ONE / 2, 0);
    let later = Vec3::new(0, ONE / 4, 0);
    assert_eq!(first_in_ball(&vec![outside, corner, inside, later]), inside);
    assert_eq!(first_in_ball(&vec![later, inside]), later);
    assert_eq!(first_in_ball(&vec![v(1, 0, 0)]), v(1, 0, 0));
    assert_eq!(first_in_ball(&vec![outside, corner]), Vec3::zero());
    assert_eq!(first_in_ball(&vec![]), Vec3::zero());
}

#[test]
fn unit_ball_samples_stay_in_cube() {
    let mut spread = false;
    for _ in 0..500 {
        let p = rnd_in_unit_sphere();
        assert!(p.square_length() <= ONE);
        for c in [p.x, p.y, p.z] {
            assert!(-ONE <= c && c < ONE);
        }
        if p.x.abs() > ONE / 2 {
            spread = true;
        }
    }
    assert!(spread);
}

#[test]
fn gamma_then_inverse_gamma() {
    let mut x: i64 = 0;
    while x <= 4 * ONE {
        let back = igamma(gamma(Vec3::new(x, x, x)));
        assert!(back.x <= x && x - back.x <= 5, "{} -> {}", x, back.x);
        x += 61;
    }
}
