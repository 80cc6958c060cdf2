//! Surface materials and the way they scatter light.
use vstd::prelude::*;
use crate::ray::{point_spec, Ray};
use crate::util::{in_unit_ball, rnd_in_unit_sphere};
use crate::vec3::{dot_spec, normalize_spec, reflect_spec, vadd, vsub, Vec3};

verus! {

/// How a surface scatters the light that reaches it; the vector is its albedo.
#[derive(Clone, Copy, Debug, PartialEq, Eq, Structural)]
pub enum Material {
    Lambertian(Vec3),
    Metal(Vec3),
}

/// Where a ray meets a surface: the distance along the ray, the unit normal
/// there, and the surface's material.
#[derive(Clone, Copy, Debug, PartialEq, Eq, Structural)]
pub struct IntersectionResult {
    pub t: i64,
    pub n: Vec3,
    pub material: Material,
}

/// Diffuse bounce: from the hit point towards the hit point plus the normal
/// plus `offset`, a point of the unit ball.
#[verifier::opaque]
pub open spec fn lambertian_spec(ray: Ray, res: IntersectionResult, albedo: Vec3, offset: Vec3) -> Option<(Ray, Vec3)> {
    let p = point_spec(ray, res.t as int);
    let target = vadd(vadd(p, res.n), offset);
    Some((Ray { origin: p, dir: normalize_spec(vsub(target, p)) }, albedo))
}

/// Mirror bounce, absorbed when the reflection does not leave the surface.
#[verifier::opaque]
pub open spec fn metal_spec(ray: Ray, res: IntersectionResult, albedo: Vec3) -> Option<(Ray, Vec3)> {
    let reflected = reflect_spec(ray.dir, res.n);
    if dot_spec(reflected, res.n) > 0 {
        Some((Ray { origin: point_spec(ray, res.t as int), dir: normalize_spec(reflected) }, albedo))
    } else {
        None
    }
}

/// The scattered ray and attenuation of `m`, given the random point `offset`
/// that a diffuse bounce uses.
pub open spec fn scatter_spec(m: Material, ray: Ray, res: IntersectionResult, offset: Vec3) -> Option<(Ray, Vec3)> {
    match m {
        Material::Lambertian(albedo) => lambertian_spec(ray, res, albedo, offset),
        Material::Metal(albedo) => metal_spec(ray, res, albedo),
    }
}

impl Material {
    fn scatter_lambertian(&self, ray: &Ray, res: &IntersectionResult, albedo: Vec3, offset: Vec3) -> (r: Option<(Ray, Vec3)>)
        ensures
            r == lambertian_spec(*ray, *res, albedo, offset),
    {
        reveal(lambertian_spec);
        let p = ray.point(res.t);
        let target = p + res.n + offset;
        Some((Ray::new(p, (target - p).normalize()), albedo))
    }

    fn scatter_metal(&self, ray: &Ray, res: &IntersectionResult, albedo: Vec3) -> (r: Option<(Ray, Vec3)>)
        ensures
            r == metal_spec(*ray, *res, albedo),
    {
        reveal(metal_spec);
        let reflected = ray.dir.reflect(res.n);
        if reflected.dot(res.n) > 0 {
            Some((Ray::new(ray.point(res.t), reflected.normalize()), albedo))
        } else {
            None
        }
    }

    /// Scattering with a given point of the unit ball for the diffuse case.
    pub fn scatter_with(&self, ray: &Ray, res: &IntersectionResult, offset: Vec3) -> (r: Option<(Ray, Vec3)>)
        ensures
            r == scatter_spec(*self, *ray, *res, offset),
    {
        match *self {
            Material::Lambertian(albedo) => self.scatter_lambertian(ray, res, albedo, offset),
            Material::Metal(albedo) => self.scatter_metal(ray, res, albedo),
        }
    }

    /// Scattering with a freshly drawn point of the unit ball.
    pub fn scatter(&self, ray: &Ray, res: &IntersectionResult) -> (r: Option<(Ray, Vec3)>)
        ensures
            exists|offset: Vec3| in_unit_ball(offset) && r == scatter_spec(*self, *ray, *res, offset),
    {
        match *self {
            Material::Lambertian(albedo) => {
                let offset = rnd_in_unit_sphere();
                let r = self.scatter_lambertian(ray, res, albedo, offset);
                assert(in_unit_ball(offset) && r == scatter_spec(*self, *ray, *res, offset));
                r
            },
            Material::Metal(albedo) => {
                let r = self.scatter_metal(ray, res, albedo);
                let z = Vec3::zero();
                assert(in_unit_ball(z) && r == scatter_spec(*self, *ray, *res, z));
                r
            },
        }
    }
}

} // verus!
