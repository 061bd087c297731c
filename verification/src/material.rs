//! Scattering: how a surface turns an incoming ray into an outgoing ray,
//! an attenuation color, and a flag saying whether anything continues.
//! Each material's scattering is split into a deterministic part, exact
//! per its mirror, and a sampling part that draws from the explicit
//! random source.
use vstd::prelude::*;
use crate::fixed::{
    abs_i, div_fx, div_fx_s, lemma_div_fx_bound, lemma_mul_fx_bound, mul_fx, mul_fx_s, sqrt_fx,
    sqrt_fx_s,
};
use crate::hit_record::HitRecord;
use crate::interval::min_i;
use crate::ray::Ray;
use crate::sampler::{next_state_s, unit_from_s, Sampler};
use crate::vec3d::{
    add_s, bounded, dot_s, is_zero, random_unit_s, reflect_s, refract_s, scale_s, Color, Vec3d,
    UNIT_TRIES,
};

verus! {

/// A diffuse surface: always scatters, tinted by its albedo.
#[derive(Debug, PartialEq, Eq, Structural, Clone, Copy)]
pub struct Lambertian {
    pub albedo: Color,
}

/// A reflective surface with a roughness in `[0, 1]`.
#[derive(Debug, PartialEq, Eq, Structural, Clone, Copy)]
pub struct Metal {
    pub albedo: Color,
    pub fuzz: i64,
}

/// A refractive surface described by its index of refraction.
#[derive(Debug, PartialEq, Eq, Structural, Clone, Copy)]
pub struct Dielectric {
    pub refraction_index: i64,
}

#[derive(Debug, PartialEq, Eq, Structural, Clone, Copy)]
pub enum MaterialEnum {
    Lambertian(Lambertian),
    Metal(Metal),
    Dielectric(Dielectric),
}

pub open spec fn color_wf(c: Color) -> bool {
    0 <= c.r <= 1000 && 0 <= c.g <= 1000 && 0 <= c.b <= 1000
}

pub open spec fn material_wf(m: MaterialEnum) -> bool {
    match m {
        MaterialEnum::Lambertian(l) => color_wf(l.albedo),
        MaterialEnum::Metal(mm) => color_wf(mm.albedo) && 0 <= mm.fuzz <= 1000,
        MaterialEnum::Dielectric(d) => 100 <= d.refraction_index <= 10_000,
    }
}

/// The bounds the scattering code needs of an incoming ray and a record.
pub open spec fn scatter_in_wf(r: Ray, hr: HitRecord) -> bool {
    &&& bounded(r.direction, 2_097_152)
    &&& 0 <= r.tm <= 1000
    &&& bounded(hr.point.0, 2_097_152)
    &&& bounded(hr.normal, 2000)
}

/// Diffuse scattering given the sampled unit direction: bounce about the
/// normal, falling back to the normal itself when the sum cancels.
pub open spec fn lambertian_scatter_s(l: Lambertian, ray_in: Ray, hr: HitRecord, u: Vec3d) -> (
    Ray,
    Color,
    bool,
) {
    let d0 = add_s(hr.normal, u);
    let dir = if is_zero(d0) {
        hr.normal
    } else {
        d0
    };
    (Ray { origin: hr.point, direction: dir, tm: ray_in.tm }, l.albedo, true)
}

/// Specular scattering given the sampled fuzz direction; the bounce is
/// absorbed when it lands under the surface.
pub open spec fn metal_scatter_s(m: Metal, ray_in: Ray, hr: HitRecord, u: Vec3d) -> (
    Ray,
    Color,
    bool,
) {
    let refl = reflect_s(ray_in.direction, hr.normal);
    let dir = add_s(crate::vec3d::unit_s(refl), scale_s(u, m.fuzz as int));
    (
        Ray { origin: hr.point, direction: dir, tm: ray_in.tm },
        m.albedo,
        dot_s(dir, hr.normal) > 0,
    )
}

pub open spec fn pow5_s(x: int) -> int {
    mul_fx_s(mul_fx_s(mul_fx_s(mul_fx_s(x, x), x), x), x)
}

/// The Schlick reflectance approximation.
pub open spec fn schlick_s(cosine: int, ri: int) -> int {
    let r0 = div_fx_s(1000 - ri, 1000 + ri);
    let r0sq = mul_fx_s(r0, r0);
    r0sq + mul_fx_s(1000 - r0sq, pow5_s(1000 - cosine))
}

/// Refractive scattering given the reflectance draw: reflect on total
/// internal reflection or when the draw falls under the reflectance,
/// else refract; always scatters, without tinting.
pub open spec fn dielectric_scatter_s(d: Dielectric, ray_in: Ray, hr: HitRecord, draw: int) -> (
    Ray,
    Color,
    bool,
) {
    let ri = if hr.front_face {
        div_fx_s(1000, d.refraction_index as int)
    } else {
        d.refraction_index as int
    };
    let unit_dir = crate::vec3d::unit_s(ray_in.direction);
    let cos_theta = min_i(dot_s(scale_s(unit_dir, -1000), hr.normal), 1000);
    let gap = 1000 - mul_fx_s(cos_theta, cos_theta);
    let sin_theta = sqrt_fx_s(if gap < 0 {
        0
    } else {
        gap
    });
    let cannot_refract = mul_fx_s(ri, sin_theta) > 1000 || schlick_s(cos_theta, ri) > draw;
    let dir = if cannot_refract {
        reflect_s(unit_dir, hr.normal)
    } else {
        refract_s(unit_dir, hr.normal, ri)
    };
    (
        Ray { origin: hr.point, direction: dir, tm: ray_in.tm },
        Color { r: 1000, g: 1000, b: 1000 },
        true,
    )
}

/// One scattering step of any material, with the state it leaves the
/// random source in.
pub open spec fn material_scatter_s(m: MaterialEnum, ray_in: Ray, hr: HitRecord, st: u64) -> (
    (Ray, Color, bool),
    u64,
) {
    match m {
        MaterialEnum::Lambertian(l) => (
            lambertian_scatter_s(l, ray_in, hr, random_unit_s(st, UNIT_TRIES as nat).0),
            random_unit_s(st, UNIT_TRIES as nat).1,
        ),
        MaterialEnum::Metal(mm) => (
            metal_scatter_s(mm, ray_in, hr, random_unit_s(st, UNIT_TRIES as nat).0),
            random_unit_s(st, UNIT_TRIES as nat).1,
        ),
        MaterialEnum::Dielectric(d) => (
            dielectric_scatter_s(d, ray_in, hr, unit_from_s(next_state_s(st))),
            next_state_s(st),
        ),
    }
}

impl Lambertian {
    /// The deterministic part of diffuse scattering.
    pub fn scatter_with(&self, ray_in: &Ray, hr: &HitRecord, u: Vec3d) -> (res: (Ray, Color, bool))
        requires
            scatter_in_wf(*ray_in, *hr),
            bounded(u, 2000),
        ensures
            res == lambertian_scatter_s(*self, *ray_in, *hr, u),
            !is_zero(hr.normal) ==> !is_zero(res.0.direction),
            bounded(res.0.direction, 2_097_152),
            res.1 == self.albedo,
            res.2 == true,
    {
        let mut scatter_direction = Vec3d::add(&hr.normal, &u);
        if scatter_direction.near_zero() {
            scatter_direction = hr.normal.clone();
        }
        let scattered = Ray::new(hr.point.clone(), scatter_direction, Some(ray_in.tm));
        (scattered, self.albedo, true)
    }

    /// Diffuse scattering, drawing the bounce direction from the source.
    pub fn scatter(&self, ray_in: &Ray, hr: &HitRecord, s: &mut Sampler) -> (res: (
        Ray,
        Color,
        bool,
    ))
        requires
            scatter_in_wf(*ray_in, *hr),
        ensures
            res == lambertian_scatter_s(
                *self,
                *ray_in,
                *hr,
                random_unit_s(old(s).state, UNIT_TRIES as nat).0,
            ),
            final(s).state == random_unit_s(old(s).state, UNIT_TRIES as nat).1,
            !is_zero(hr.normal) ==> !is_zero(res.0.direction),
            bounded(res.0.direction, 2_097_152),
            res.1 == self.albedo,
            res.2 == true,
    {
        let u = Vec3d::random_unit(s);
        self.scatter_with(ray_in, hr, u)
    }
}

impl Metal {
    /// The deterministic part of specular scattering.
    pub fn scatter_with(&self, ray_in: &Ray, hr: &HitRecord, u: Vec3d) -> (res: (Ray, Color, bool))
        requires
            scatter_in_wf(*ray_in, *hr),
            bounded(u, 2000),
            0 <= self.fuzz <= 1000,
        ensures
            res == metal_scatter_s(*self, *ray_in, *hr, u),
            bounded(res.0.direction, 2_097_152),
            res.1 == self.albedo,
            res.2 == (dot_s(res.0.direction, hr.normal) > 0),
    {
        let refl = Vec3d::reflect(&ray_in.direction, &hr.normal);
        let unit_refl = Vec3d::unit(&refl);
        proof {
            lemma_mul_fx_bound(u.x as int, self.fuzz as int, 2000, 1000);
            lemma_mul_fx_bound(u.y as int, self.fuzz as int, 2000, 1000);
            lemma_mul_fx_bound(u.z as int, self.fuzz as int, 2000, 1000);
        }
        let scatter_direction = Vec3d::add(&unit_refl, &Vec3d::mul(&u, self.fuzz));
        let scattered = Ray::new(hr.point.clone(), scatter_direction, Some(ray_in.tm));
        let is_scattered = Vec3d::dot(&scattered.direction, &hr.normal) > 0;
        (scattered, self.albedo, is_scattered)
    }

    /// Specular scattering, drawing the fuzz direction from the source.
    pub fn scatter(&self, ray_in: &Ray, hr: &HitRecord, s: &mut Sampler) -> (res: (
        Ray,
        Color,
        bool,
    ))
        requires
            scatter_in_wf(*ray_in, *hr),
            0 <= self.fuzz <= 1000,
        ensures
            res == metal_scatter_s(
                *self,
                *ray_in,
                *hr,
                random_unit_s(old(s).state, UNIT_TRIES as nat).0,
            ),
            final(s).state == random_unit_s(old(s).state, UNIT_TRIES as nat).1,
            bounded(res.0.direction, 2_097_152),
            res.1 == self.albedo,
            res.2 == (dot_s(res.0.direction, hr.normal) > 0),
    {
        let u = Vec3d::random_unit(s);
        self.scatter_with(ray_in, hr, u)
    }
}

impl Dielectric {
    /// The Schlick reflectance, exact per its mirror and within `[0, 2]`
    /// of the unit.
    fn reflectance(&self, cosine: i64, refraction_index: i64) -> (r: i64)
        requires
            -15_000 <= cosine <= 1000,
            1 <= refraction_index <= 10_000,
        ensures
            r as int == schlick_s(cosine as int, refraction_index as int),
    {
        proof {
            lemma_div_fx_bound(
                1000 - refraction_index as int,
                1000 + refraction_index as int,
                10_000,
                1001,
            );
        }
        let r0 = div_fx(1000 - refraction_index, 1000 + refraction_index);
        proof {
            lemma_mul_fx_bound(r0 as int, r0 as int, 10_000, 10_000);
        }
        let r0sq = mul_fx(r0, r0);
        let base = 1000 - cosine;
        proof {
            lemma_mul_fx_bound(base as int, base as int, 16_000, 16_000);
            lemma_mul_fx_bound(mul_fx_s(base as int, base as int), base as int, 256_000, 16_000);
            lemma_mul_fx_bound(
                mul_fx_s(mul_fx_s(base as int, base as int), base as int),
                base as int,
                4_096_000,
                16_000,
            );
            lemma_mul_fx_bound(
                mul_fx_s(mul_fx_s(mul_fx_s(base as int, base as int), base as int), base as int),
                base as int,
                65_536_000,
                16_000,
            );
        }
        let p2 = mul_fx(base, base);
        let p3 = mul_fx(p2, base);
        let p4 = mul_fx(p3, base);
        let p5 = mul_fx(p4, base);
        proof {
            lemma_mul_fx_bound(1000 - r0sq as int, p5 as int, 200_000, 1_048_576_000);
        }
        r0sq + mul_fx(1000 - r0sq, p5)
    }

    /// The deterministic part of refractive scattering, given the
    /// reflectance draw.
    pub fn scatter_with(&self, ray_in: &Ray, hr: &HitRecord, draw: i64) -> (res: (Ray, Color, bool))
        requires
            scatter_in_wf(*ray_in, *hr),
            100 <= self.refraction_index <= 10_000,
            0 <= draw < 1000,
        ensures
            res == dielectric_scatter_s(*self, *ray_in, *hr, draw as int),
            bounded(res.0.direction, 2_097_152),
            res.1 == (Color { r: 1000, g: 1000, b: 1000 }),
            res.2 == true,
    {
        let ri = if hr.front_face {
            proof {
                lemma_div_fx_bound(1000, self.refraction_index as int, 1000, 100);
                vstd::arithmetic::div_mod::lemma_div_is_ordered_by_denominator(
                    1_000_000,
                    self.refraction_index as int,
                    10_000,
                );
                assert(div_fx_s(1000, self.refraction_index as int) == 1_000_000int
                    / self.refraction_index as int);
            }
            div_fx(1000, self.refraction_index)
        } else {
            self.refraction_index
        };
        let unit_dir = Vec3d::unit(&ray_in.direction);
        proof {
            crate::vec3d::lemma_scale_minus_one(unit_dir);
            lemma_mul_fx_bound(-(unit_dir.x as int), hr.normal.x as int, 2000, 2000);
            lemma_mul_fx_bound(-(unit_dir.y as int), hr.normal.y as int, 2000, 2000);
            lemma_mul_fx_bound(-(unit_dir.z as int), hr.normal.z as int, 2000, 2000);
        }
        let d = Vec3d::dot(&Vec3d::mul(&unit_dir, -1000), &hr.normal);
        let cos_theta = if d < 1000 {
            d
        } else {
            1000
        };
        proof {
            lemma_mul_fx_bound(cos_theta as int, cos_theta as int, 15_000, 15_000);
        }
        let csq = mul_fx(cos_theta, cos_theta);
        let gap = 1000 - csq;
        proof {
            crate::vec3d::lemma_sqrt_le(if gap < 0 { 0int } else { gap as int }, 32_000);
            lemma_mul_fx_bound(ri as int, 32_000, 10_000, 32_000);
        }
        let sin_theta = sqrt_fx(if gap < 0 { 0 } else { gap });
        let mut cannot_refract = mul_fx(ri, sin_theta) > 1000;
        let refl = self.reflectance(cos_theta, ri);
        if refl > draw {
            cannot_refract = true;
        }
        let direction = if cannot_refract {
            proof {
                lemma_mul_fx_bound(unit_dir.x as int, hr.normal.x as int, 2000, 2000);
                lemma_mul_fx_bound(unit_dir.y as int, hr.normal.y as int, 2000, 2000);
                lemma_mul_fx_bound(unit_dir.z as int, hr.normal.z as int, 2000, 2000);
                lemma_mul_fx_bound(
                    hr.normal.x as int,
                    2 * dot_s(unit_dir, hr.normal),
                    2000,
                    24_000,
                );
                lemma_mul_fx_bound(
                    hr.normal.y as int,
                    2 * dot_s(unit_dir, hr.normal),
                    2000,
                    24_000,
                );
                lemma_mul_fx_bound(
                    hr.normal.z as int,
                    2 * dot_s(unit_dir, hr.normal),
                    2000,
                    24_000,
                );
            }
            Vec3d::reflect(&unit_dir, &hr.normal)
        } else {
            Vec3d::refract(unit_dir, hr.normal.clone(), ri)
        };
        let scattered = Ray::new(hr.point.clone(), direction, Some(ray_in.tm));
        (scattered, Color { r: 1000, g: 1000, b: 1000 }, true)
    }

    /// Refractive scattering, drawing the reflectance test from the
    /// source.
    pub fn scatter(&self, ray_in: &Ray, hr: &HitRecord, s: &mut Sampler) -> (res: (
        Ray,
        Color,
        bool,
    ))
        requires
            scatter_in_wf(*ray_in, *hr),
            100 <= self.refraction_index <= 10_000,
        ensures
            res == dielectric_scatter_s(
                *self,
                *ray_in,
                *hr,
                unit_from_s(next_state_s(old(s).state)),
            ),
            final(s).state == next_state_s(old(s).state),
            bounded(res.0.direction, 2_097_152),
            res.1 == (Color { r: 1000, g: 1000, b: 1000 }),
            res.2 == true,
    {
        let draw = s.next_unit();
        self.scatter_with(ray_in, hr, draw)
    }
}

impl MaterialEnum {
    /// One scattering step, dispatched on the material kind.
    pub fn scatter(&self, ray_in: &Ray, hr: &HitRecord, s: &mut Sampler) -> (res: (
        Ray,
        Color,
        bool,
    ))
        requires
            material_wf(*self),
            scatter_in_wf(*ray_in, *hr),
        ensures
            res == material_scatter_s(*self, *ray_in, *hr, old(s).state).0,
            final(s).state == material_scatter_s(*self, *ray_in, *hr, old(s).state).1,
            bounded(res.0.direction, 2_097_152),
    {
        match self {
            MaterialEnum::Lambertian(lambertian) => lambertian.scatter(ray_in, hr, s),
            MaterialEnum::Metal(metal) => metal.scatter(ray_in, hr, s),
            MaterialEnum::Dielectric(dielectric) => dielectric.scatter(ray_in, hr, s),
        }
    }
}


/// At normal incidence a front-face refraction is decided by the Schlick
/// draw alone: the ray refracts exactly when the draw is at least the
/// base reflectance, and reflects exactly when the draw falls below it.
pub proof fn lemma_dielectric_normal_incidence(d: Dielectric, ray_in: Ray, hr: HitRecord, draw: int)
    requires
        hr.front_face,
        100 <= d.refraction_index <= 10_000,
        0 <= draw < 1000,
        min_i(
            dot_s(scale_s(crate::vec3d::unit_s(ray_in.direction), -1000), hr.normal),
            1000,
        ) == 1000,
    ensures
        ({
            let ri = div_fx_s(1000, d.refraction_index as int);
            let r0 = div_fx_s(1000 - ri, 1000 + ri);
            let r0sq = mul_fx_s(r0, r0);
            let res = dielectric_scatter_s(d, ray_in, hr, draw);
            &&& (draw >= r0sq ==> res.0.direction == refract_s(
                crate::vec3d::unit_s(ray_in.direction),
                hr.normal,
                ri,
            ))
            &&& (draw < r0sq ==> res.0.direction == reflect_s(
                crate::vec3d::unit_s(ray_in.direction),
                hr.normal,
            ))
        }),
{
    let ri = div_fx_s(1000, d.refraction_index as int);
    lemma_ri_range(d.refraction_index as int);
    let r0 = div_fx_s(1000 - ri, 1000 + ri);
    let r0sq = mul_fx_s(r0, r0);
    assert(mul_fx_s(1000, 1000) == 1000) by {
        assert(1000int * 1000 == 1_000_000);
        vstd::arithmetic::div_mod::lemma_div_multiples_vanish(1000, 1000);
    }
    assert(sqrt_fx_s(0) == 0) by {
        crate::fixed::lemma_isqrt_props(0);
        crate::fixed::lemma_isqrt_unique(0, 0);
    }
    assert(mul_fx_s(ri, 0) == 0);
    assert(pow5_s(0) == 0);
    assert(mul_fx_s(1000 - r0sq, 0) == 0);
    assert(schlick_s(1000, ri) == r0sq);
}

/// At grazing incidence the Schlick reflectance reaches one exactly.
pub proof fn lemma_schlick_grazing(ri: int)
    requires
        100 <= ri <= 10_000,
    ensures
        schlick_s(0, ri) == 1000,
{
    lemma_r0_bounds(ri);
    let r0 = div_fx_s(1000 - ri, 1000 + ri);
    let r0sq = mul_fx_s(r0, r0);
    assert(mul_fx_s(1000, 1000) == 1000) by {
        assert(1000int * 1000 == 1_000_000);
        vstd::arithmetic::div_mod::lemma_div_multiples_vanish(1000, 1000);
    }
    assert(pow5_s(1000) == 1000);
    assert(mul_fx_s(1000 - r0sq, 1000) == 1000 - r0sq) by {
        let x = 1000 - r0sq;
        assert(x >= 0);
        crate::fixed::lemma_abs_mul(x, 1000);
        assert(mul_fx_s(x, 1000) == x * 1000 / 1000);
        assert(x * 1000 == 1000 * x) by (nonlinear_arith);
        vstd::arithmetic::div_mod::lemma_div_multiples_vanish(x, 1000);
    }
}

/// The base reflectance is a proper fraction of the unit.
pub proof fn lemma_r0_bounds(ri: int)
    requires
        0 < ri <= 10_000,
    ensures
        0 <= mul_fx_s(div_fx_s(1000 - ri, 1000 + ri), div_fx_s(1000 - ri, 1000 + ri)) <= 999,
{
    let r0 = div_fx_s(1000 - ri, 1000 + ri);
    crate::fixed::lemma_abs_mul(1000 - ri, 1000);
    assert(abs_i(r0) == abs_i(1000 - ri) * 1000 / (1000 + ri));
    assert(abs_i(1000 - ri) * 1000 < (1000 + ri) * 1000) by (nonlinear_arith)
        requires
            0 < ri,
    ;
    vstd::arithmetic::div_mod::lemma_multiply_divide_lt(
        abs_i(1000 - ri) * 1000,
        1000 + ri,
        1000,
    );
    assert(abs_i(r0) <= 999);
    crate::fixed::lemma_abs_mul(r0, r0);
    assert(abs_i(r0 * r0) == abs_i(r0) * abs_i(r0));
    assert(abs_i(r0) * abs_i(r0) <= 999 * 999) by (nonlinear_arith)
        requires
            abs_i(r0) <= 999,
    ;
    assert(r0 * r0 >= 0) by (nonlinear_arith);
    vstd::arithmetic::div_mod::lemma_div_pos_is_pos(r0 * r0, 1000);
    vstd::arithmetic::div_mod::lemma_div_is_ordered(r0 * r0, 998_001, 1000);
}

proof fn lemma_ri_range(ir: int)
    requires
        100 <= ir <= 10_000,
    ensures
        100 <= div_fx_s(1000, ir) <= 10_000,
{
    crate::fixed::lemma_abs_mul(1000, 1000);
    assert(div_fx_s(1000, ir) == 1_000_000int / ir);
    vstd::arithmetic::div_mod::lemma_div_is_ordered_by_denominator(1_000_000, 100, ir);
    vstd::arithmetic::div_mod::lemma_div_is_ordered_by_denominator(1_000_000, ir, 10_000);
}

} // verus!
