//! The camera and the renderer: per-pixel sample rays with antialias
//! jitter, optional defocus blur and a per-ray time sample, the recursive
//! radiance integrator, and the row-range renderer. Every pixel of the
//! output is pinned to a spec function of the scene, the camera and the
//! seed alone, so neither the worker count nor the order of row ranges
//! can change the image.
use vstd::prelude::*;
use crate::fixed::{abs_i, div_fx, div_fx_s, lemma_div_fx_bound, lemma_mul_fx_bound, mul_fx, mul_fx_s, sqrt_fx, sqrt_fx_s, tdiv};
use crate::hit_record::{lemma_scan_props, list_wf, ray_wf, scan_hit_s, Hittable, HittableList};
use crate::interval::Interval;
use crate::material::{material_scatter_s, material_wf, MaterialEnum};
use crate::ray::Ray;
use crate::sampler::{next_state_s, pixel_seed_s, state_n, unit_from_s, Sampler};
use crate::vec3d::{add_s, axis_sel, bounded, cross_s, random_in_disk_s, scale_s, sub_s, unit_s, v3, Color, Point3d, Vec3d, UNIT_TRIES};

verus! {

/// What the camera looks from, at, and through.
pub struct CameraView {
    /// Tangent of half the vertical field of view, as a fixed-point
    /// scalar; the trigonometry itself is the caller's business.
    pub tan_half_fov: i64,
    pub lookfrom: Point3d,
    pub lookat: Point3d,
    pub vup: Vec3d,
    /// The aperture angle in fixed-point degrees; zero disables defocus.
    pub defocus_angle: i64,
    /// Tangent of half the aperture angle, as a fixed-point scalar.
    pub tan_half_defocus: i64,
    pub focus_dist: i64,
}

pub struct Camera {
    pub image_width: u16,
    pub image_height: u16,
    pub samples_per_pixel: u16,
    pub max_depth: u8,
    pub center: Point3d,
    pub pixel00_loc: Point3d,
    pub pixel_delta_u: Vec3d,
    pub pixel_delta_v: Vec3d,
    pub defocus_angle: i64,
    pub defocus_disk_u: Vec3d,
    pub defocus_disk_v: Vec3d,
}

/// The per-axis budget that keeps every sample ray's origin and
/// direction within the coordinate range: the pixel anchor, the two
/// pixel deltas stretched across the widest admissible image, the
/// center, and the two lens-disk vectors together stay within range.
pub open spec fn ray_budget_ok(c: Camera) -> bool {
    &&& abs_i(c.pixel00_loc.0.x as int) + 4097 * abs_i(c.pixel_delta_u.x as int) + 4097 * abs_i(
        c.pixel_delta_v.x as int,
    ) + abs_i(c.center.0.x as int) + abs_i(c.defocus_disk_u.x as int) + abs_i(
        c.defocus_disk_v.x as int,
    ) <= 2_097_152
    &&& abs_i(c.pixel00_loc.0.y as int) + 4097 * abs_i(c.pixel_delta_u.y as int) + 4097 * abs_i(
        c.pixel_delta_v.y as int,
    ) + abs_i(c.center.0.y as int) + abs_i(c.defocus_disk_u.y as int) + abs_i(
        c.defocus_disk_v.y as int,
    ) <= 2_097_152
    &&& abs_i(c.pixel00_loc.0.z as int) + 4097 * abs_i(c.pixel_delta_u.z as int) + 4097 * abs_i(
        c.pixel_delta_v.z as int,
    ) + abs_i(c.center.0.z as int) + abs_i(c.defocus_disk_u.z as int) + abs_i(
        c.defocus_disk_v.z as int,
    ) <= 2_097_152
}

pub open spec fn camera_wf(c: Camera) -> bool {
    &&& 1 <= c.image_width <= 4096
    &&& 1 <= c.image_height <= 4096
    &&& 1 <= c.samples_per_pixel <= 10_000
    &&& bounded(c.center.0, 1_048_576)
    &&& bounded(c.pixel00_loc.0, 2_097_152)
    &&& bounded(c.pixel_delta_u, 2_097_152)
    &&& bounded(c.pixel_delta_v, 2_097_152)
    &&& bounded(c.defocus_disk_u, 2_097_152)
    &&& bounded(c.defocus_disk_v, 2_097_152)
    &&& 0 <= c.defocus_angle <= 180_000
    &&& ray_budget_ok(c)
}

/// The image height a width and an aspect ratio ask for, at least one.
pub open spec fn image_height_s(w: int, a: int) -> int {
    let h = tdiv(div_fx_s(w * 1000, a), 1000);
    if h < 1 {
        1
    } else {
        h
    }
}

pub fn get_image_height(w: u16, a: i64) -> (r: u16)
    requires
        1 <= w <= 4096,
        1000 <= a <= 10_000,
    ensures
        r as int == image_height_s(w as int, a as int),
        1 <= r <= w,
{
    proof {
        lemma_div_fx_bound(w as int * 1000, a as int, w as int * 1000, 1000);
        vstd::arithmetic::div_mod::lemma_div_pos_is_pos(
            abs_i(w as int * 1000 * 1000),
            a as int,
        );
    }
    let hf = div_fx(w as i64 * 1000, a);
    let h = hf / 1000;
    proof {
        assert(hf as int >= 0);
        assert(hf as int <= w as int * 1000);
        vstd::arithmetic::div_mod::lemma_div_is_ordered(hf as int, w as int * 1000, 1000);
        vstd::arithmetic::div_mod::lemma_div_multiples_vanish(w as int, 1000);
        assert(w as int * 1000 == 1000 * w as int);
        vstd::arithmetic::div_mod::lemma_div_pos_is_pos(hf as int, 1000);
    }
    if h < 1 {
        1
    } else {
        h as u16
    }
}

/// The fields the camera derives from a view, before the sanity check.
pub open spec fn camera_candidate_s(
    aspect_ratio: int,
    image_width: int,
    image_height: int,
    max_depth: u8,
    spp: u16,
    cv: CameraView,
) -> Camera {
    let w = unit_s(sub_s(cv.lookfrom.0, cv.lookat.0));
    let u = unit_s(cross_s(cv.vup, w));
    let v = cross_s(w, u);
    let vh = 2 * mul_fx_s(cv.tan_half_fov as int, cv.focus_dist as int);
    let ratio_wh = div_fx_s(image_width * 1000, image_height * 1000);
    let vw0 = mul_fx_s(vh, ratio_wh);
    let vw = if -50_000_000 <= vw0 <= 50_000_000 {
        vw0
    } else {
        0
    };
    let viewport_u = scale_s(u, vw);
    let viewport_v = scale_s(v, -vh);
    let recip_w = div_fx_s(1000, image_width * 1000);
    let recip_h = div_fx_s(1000, image_height * 1000);
    let pixel_delta_u = scale_s(viewport_u, recip_w);
    let pixel_delta_v = scale_s(viewport_v, recip_h);
    let viewport_center_camera = sub_s(cv.lookfrom.0, scale_s(w, cv.focus_dist as int));
    let viewport_center_viewport = add_s(scale_s(viewport_u, 500), scale_s(viewport_v, 500));
    let viewport_upper_left = sub_s(viewport_center_camera, viewport_center_viewport);
    let pixel00 = add_s(viewport_upper_left, scale_s(add_s(pixel_delta_u, pixel_delta_v), 500));
    let defocus_radius = mul_fx_s(cv.focus_dist as int, cv.tan_half_defocus as int);
    let defocus_disk_u = scale_s(u, defocus_radius);
    let defocus_disk_v = scale_s(v, defocus_radius);
    Camera {
        image_width: image_width as u16,
        image_height: image_height as u16,
        samples_per_pixel: spp,
        max_depth,
        center: cv.lookfrom,
        pixel00_loc: Point3d(pixel00),
        pixel_delta_u,
        pixel_delta_v,
        defocus_angle: cv.defocus_angle,
        defocus_disk_u,
        defocus_disk_v,
    }
}

/// A fixed fallback camera for configurations whose derived fields leave
/// the coordinate range: axis-aligned, at the origin.
pub open spec fn camera_fallback_s(
    image_width: int,
    image_height: int,
    max_depth: u8,
    spp: u16,
    cv: CameraView,
) -> Camera {
    Camera {
        image_width: image_width as u16,
        image_height: image_height as u16,
        samples_per_pixel: spp,
        max_depth,
        center: Point3d(v3(0, 0, 0)),
        pixel00_loc: Point3d(v3(-1000, 1000, -1000)),
        pixel_delta_u: v3(2, 0, 0),
        pixel_delta_v: v3(0, -2, 0),
        defocus_angle: cv.defocus_angle,
        defocus_disk_u: v3(0, 0, 0),
        defocus_disk_v: v3(0, 0, 0),
    }
}

pub open spec fn camera_ok(c: Camera) -> bool {
    &&& bounded(c.pixel00_loc.0, 2_097_152)
    &&& bounded(c.pixel_delta_u, 2_097_152)
    &&& bounded(c.pixel_delta_v, 2_097_152)
    &&& bounded(c.defocus_disk_u, 2_097_152)
    &&& bounded(c.defocus_disk_v, 2_097_152)
    &&& ray_budget_ok(c)
}

/// What `initialize` returns: the derived camera, or the fallback when a
/// derived field leaves the coordinate range.
pub open spec fn initialize_s(
    aspect_ratio: int,
    image_width: int,
    max_depth: u8,
    spp: u16,
    cv: CameraView,
) -> Camera {
    let image_height = image_height_s(image_width, aspect_ratio);
    let cand = camera_candidate_s(aspect_ratio, image_width, image_height, max_depth, spp, cv);
    if camera_ok(cand) {
        cand
    } else {
        camera_fallback_s(image_width, image_height, max_depth, spp, cv)
    }
}

/// The requirements `initialize` puts on its inputs.
pub open spec fn view_wf(cv: CameraView) -> bool {
    &&& bounded(cv.lookfrom.0, 1_048_576)
    &&& bounded(cv.lookat.0, 1_048_576)
    &&& bounded(cv.vup, 1_048_576)
    &&& 1 <= cv.tan_half_fov <= 10_000
    &&& 1 <= cv.focus_dist <= 100_000
    &&& 0 <= cv.defocus_angle <= 180_000
    &&& 0 <= cv.tan_half_defocus <= 10_000
}

impl Camera {
    /// Derives the viewport geometry from the view parameters.
    #[verifier::rlimit(100)]
    #[verifier::spinoff_prover]
    pub fn initialize(aspect_ratio: i64, image_width: u16, max_depth: u8, spp: u16, cv: CameraView) -> (res: Camera)
        requires
            1000 <= aspect_ratio <= 10_000,
            1 <= image_width <= 4096,
            1 <= spp <= 10_000,
            view_wf(cv),
        ensures
            res == initialize_s(aspect_ratio as int, image_width as int, max_depth, spp, cv),
            camera_wf(res),
            res.image_width == image_width,
            res.image_height as int == image_height_s(image_width as int, aspect_ratio as int),
            res.samples_per_pixel == spp,
            res.max_depth == max_depth,
    {
        let image_height = get_image_height(image_width, aspect_ratio);
        let w = Vec3d::unit(&Vec3d::sub(&cv.lookfrom.as_vec3d(), &cv.lookat.as_vec3d()));
        proof {
            lemma_mul_fx_bound(cv.vup.y as int, w.z as int, 1_048_576, 2000);
            lemma_mul_fx_bound(cv.vup.z as int, w.y as int, 1_048_576, 2000);
            lemma_mul_fx_bound(cv.vup.z as int, w.x as int, 1_048_576, 2000);
            lemma_mul_fx_bound(cv.vup.x as int, w.z as int, 1_048_576, 2000);
            lemma_mul_fx_bound(cv.vup.x as int, w.y as int, 1_048_576, 2000);
            lemma_mul_fx_bound(cv.vup.y as int, w.x as int, 1_048_576, 2000);
        }
        let u = Vec3d::unit(&Vec3d::cross(&cv.vup, &w));
        proof {
            lemma_mul_fx_bound(w.y as int, u.z as int, 2000, 2000);
            lemma_mul_fx_bound(w.z as int, u.y as int, 2000, 2000);
            lemma_mul_fx_bound(w.z as int, u.x as int, 2000, 2000);
            lemma_mul_fx_bound(w.x as int, u.z as int, 2000, 2000);
            lemma_mul_fx_bound(w.x as int, u.y as int, 2000, 2000);
            lemma_mul_fx_bound(w.y as int, u.x as int, 2000, 2000);
        }
        let v = Vec3d::cross(&w, &u);
        proof {
            lemma_mul_fx_bound(cv.tan_half_fov as int, cv.focus_dist as int, 10_000, 100_000);
        }
        let vh = 2 * mul_fx(cv.tan_half_fov, cv.focus_dist);
        proof {
            lemma_div_fx_bound(
                image_width as int * 1000,
                image_height as int * 1000,
                4_096_000,
                1000,
            );
        }
        let ratio_wh = div_fx(image_width as i64 * 1000, image_height as i64 * 1000);
        proof {
            lemma_mul_fx_bound(vh as int, ratio_wh as int, 2_000_000, 4_096_000);
        }
        let vw0 = mul_fx(vh, ratio_wh);
        let vw = if -50_000_000 <= vw0 && vw0 <= 50_000_000 {
            vw0
        } else {
            0
        };
        proof {
            lemma_mul_fx_bound(u.x as int, vw as int, 2000, 50_000_000);
            lemma_mul_fx_bound(u.y as int, vw as int, 2000, 50_000_000);
            lemma_mul_fx_bound(u.z as int, vw as int, 2000, 50_000_000);
            lemma_mul_fx_bound(v.x as int, -(vh as int), 8000, 2_000_000);
            lemma_mul_fx_bound(v.y as int, -(vh as int), 8000, 2_000_000);
            lemma_mul_fx_bound(v.z as int, -(vh as int), 8000, 2_000_000);
        }
        let viewport_u = Vec3d::mul(&u, vw);
        let viewport_v = Vec3d::mul(&v, -vh);
        proof {
            lemma_div_fx_bound(1000, image_width as int * 1000, 1000, 1000);
            lemma_div_fx_bound(1000, image_height as int * 1000, 1000, 1000);
        }
        let recip_w = div_fx(1000, image_width as i64 * 1000);
        let recip_h = div_fx(1000, image_height as i64 * 1000);
        proof {
            lemma_mul_fx_bound(viewport_u.x as int, recip_w as int, 100_000_000, 1000);
            lemma_mul_fx_bound(viewport_u.y as int, recip_w as int, 100_000_000, 1000);
            lemma_mul_fx_bound(viewport_u.z as int, recip_w as int, 100_000_000, 1000);
            lemma_mul_fx_bound(viewport_v.x as int, recip_h as int, 16_000_000, 1000);
            lemma_mul_fx_bound(viewport_v.y as int, recip_h as int, 16_000_000, 1000);
            lemma_mul_fx_bound(viewport_v.z as int, recip_h as int, 16_000_000, 1000);
        }
        let pixel_delta_u = Vec3d::mul(&viewport_u, recip_w);
        let pixel_delta_v = Vec3d::mul(&viewport_v, recip_h);
        proof {
            lemma_mul_fx_bound(w.x as int, cv.focus_dist as int, 2000, 100_000);
            lemma_mul_fx_bound(w.y as int, cv.focus_dist as int, 2000, 100_000);
            lemma_mul_fx_bound(w.z as int, cv.focus_dist as int, 2000, 100_000);
        }
        let viewport_center_camera = Vec3d::sub(
            &cv.lookfrom.as_vec3d(),
            &Vec3d::mul(&w, cv.focus_dist),
        );
        proof {
            lemma_mul_fx_bound(viewport_u.x as int, 500, 100_000_000, 500);
            lemma_mul_fx_bound(viewport_u.y as int, 500, 100_000_000, 500);
            lemma_mul_fx_bound(viewport_u.z as int, 500, 100_000_000, 500);
            lemma_mul_fx_bound(viewport_v.x as int, 500, 16_000_000, 500);
            lemma_mul_fx_bound(viewport_v.y as int, 500, 16_000_000, 500);
            lemma_mul_fx_bound(viewport_v.z as int, 500, 16_000_000, 500);
        }
        let viewport_center_viewport = Vec3d::add(
            &Vec3d::mul(&viewport_u, 500),
            &Vec3d::mul(&viewport_v, 500),
        );
        let viewport_upper_left = Vec3d::sub(&viewport_center_camera, &viewport_center_viewport);
        let delta_sum = Vec3d::add(&pixel_delta_u, &pixel_delta_v);
        proof {
            lemma_mul_fx_bound(delta_sum.x as int, 500, 120_000_000, 500);
            lemma_mul_fx_bound(delta_sum.y as int, 500, 120_000_000, 500);
            lemma_mul_fx_bound(delta_sum.z as int, 500, 120_000_000, 500);
        }
        let pixel00 = Vec3d::add(&viewport_upper_left, &Vec3d::mul(&delta_sum, 500));
        proof {
            lemma_mul_fx_bound(cv.focus_dist as int, cv.tan_half_defocus as int, 100_000, 10_000);
        }
        let defocus_radius = mul_fx(cv.focus_dist, cv.tan_half_defocus);
        proof {
            lemma_mul_fx_bound(u.x as int, defocus_radius as int, 2000, 1_000_000);
            lemma_mul_fx_bound(u.y as int, defocus_radius as int, 2000, 1_000_000);
            lemma_mul_fx_bound(u.z as int, defocus_radius as int, 2000, 1_000_000);
            lemma_mul_fx_bound(v.x as int, defocus_radius as int, 8000, 1_000_000);
            lemma_mul_fx_bound(v.y as int, defocus_radius as int, 8000, 1_000_000);
            lemma_mul_fx_bound(v.z as int, defocus_radius as int, 8000, 1_000_000);
        }
        let defocus_disk_u = Vec3d::mul(&u, defocus_radius);
        let defocus_disk_v = Vec3d::mul(&v, defocus_radius);
        let cand = Camera {
            image_width,
            image_height,
            samples_per_pixel: spp,
            max_depth,
            center: cv.lookfrom.clone(),
            pixel00_loc: Point3d::from_vec3d(pixel00),
            pixel_delta_u,
            pixel_delta_v,
            defocus_angle: cv.defocus_angle,
            defocus_disk_u,
            defocus_disk_v,
        };
        if camera_in_range(&cand) {
            cand
        } else {
            Camera {
                image_width,
                image_height,
                samples_per_pixel: spp,
                max_depth,
                center: Point3d::new(0, 0, 0),
                pixel00_loc: Point3d::new(-1000, 1000, -1000),
                pixel_delta_u: Vec3d::new(2, 0, 0),
                pixel_delta_v: Vec3d::new(0, -2, 0),
                defocus_angle: cv.defocus_angle,
                defocus_disk_u: Vec3d::new(0, 0, 0),
                defocus_disk_v: Vec3d::new(0, 0, 0),
            }
        }
    }
}

/// The range check the derived camera must pass.
fn camera_in_range(c: &Camera) -> (r: bool)
    requires
        bounded(c.center.0, 1_048_576),
    ensures
        r == camera_ok(*c),
{
    in_range(&c.pixel00_loc.0) && in_range(&c.pixel_delta_u) && in_range(&c.pixel_delta_v)
        && in_range(&c.defocus_disk_u) && in_range(&c.defocus_disk_v) && budget_in_range(c, 0)
        && budget_in_range(c, 1) && budget_in_range(c, 2)
}

/// One axis of the ray budget, evaluated on components already known to
/// be in the coordinate range.
fn budget_in_range(c: &Camera, axis: i32) -> (r: bool)
    requires
        bounded(c.center.0, 1_048_576),
        bounded(c.pixel00_loc.0, 2_097_152),
        bounded(c.pixel_delta_u, 2_097_152),
        bounded(c.pixel_delta_v, 2_097_152),
        bounded(c.defocus_disk_u, 2_097_152),
        bounded(c.defocus_disk_v, 2_097_152),
    ensures
        r == (abs_i(axis_sel(c.pixel00_loc.0, axis as int)) + 4097 * abs_i(
            axis_sel(c.pixel_delta_u, axis as int),
        ) + 4097 * abs_i(axis_sel(c.pixel_delta_v, axis as int)) + abs_i(
            axis_sel(c.center.0, axis as int),
        ) + abs_i(axis_sel(c.defocus_disk_u, axis as int)) + abs_i(
            axis_sel(c.defocus_disk_v, axis as int),
        ) <= 2_097_152),
{
    let total = abs64(c.pixel00_loc.0.axis(axis)) + 4097 * abs64(c.pixel_delta_u.axis(axis)) + 4097
        * abs64(c.pixel_delta_v.axis(axis)) + abs64(c.center.0.axis(axis)) + abs64(
        c.defocus_disk_u.axis(axis),
    ) + abs64(c.defocus_disk_v.axis(axis));
    total <= 2_097_152
}

/// Scaling by a fraction of the unit cannot grow a scalar.
proof fn lemma_scale_by_fraction(a: int, p: int)
    requires
        abs_i(p) <= 1000,
    ensures
        abs_i(mul_fx_s(a, p)) <= abs_i(a),
{
    lemma_mul_fx_bound(a, p, abs_i(a), 1000);
    assert(abs_i(a) * 1000 == 1000 * abs_i(a)) by (nonlinear_arith);
    vstd::arithmetic::div_mod::lemma_div_multiples_vanish(abs_i(a), 1000);
}

/// A pixel delta stretched across the widest admissible image stays
/// within four thousand and ninety-seven times its own size.
proof fn lemma_jitter_shift(a: int, f: int)
    requires
        abs_i(f) <= 4_096_500,
    ensures
        abs_i(mul_fx_s(a, f)) <= 4097 * abs_i(a),
{
    lemma_mul_fx_bound(a, f, abs_i(a), 4_096_500);
    assert(abs_i(a) * 4_096_500 <= (4097 * abs_i(a)) * 1000) by (nonlinear_arith);
    vstd::arithmetic::div_mod::lemma_div_is_ordered(
        abs_i(a) * 4_096_500,
        (4097 * abs_i(a)) * 1000,
        1000,
    );
    assert((4097 * abs_i(a)) * 1000 == 1000 * (4097 * abs_i(a))) by (nonlinear_arith);
    vstd::arithmetic::div_mod::lemma_div_multiples_vanish(4097 * abs_i(a), 1000);
}

fn abs64(x: i64) -> (r: i64)
    requires
        x != i64::MIN,
    ensures
        r as int == abs_i(x as int),
{
    if x < 0 {
        -x
    } else {
        x
    }
}

fn in_range(v: &Vec3d) -> (r: bool)
    ensures
        r == bounded(*v, 2_097_152),
{
    v.x <= 2_097_152 && v.x >= -2_097_152 && v.y <= 2_097_152 && v.y >= -2_097_152 && v.z
        <= 2_097_152 && v.z >= -2_097_152
}


pub open spec fn mats_wf(s: Seq<MaterialEnum>) -> bool {
    forall|i: int| 0 <= i < s.len() ==> material_wf(#[trigger] s[i])
}

/// A color whose components stay within ten units of intensity; every
/// radiance value the integrator produces satisfies it.
pub open spec fn color_amp(c: Color) -> bool {
    abs_i(c.r as int) <= 10_000 && abs_i(c.g as int) <= 10_000 && abs_i(c.b as int) <= 10_000
}

/// The antialias jitter: two draws centered on the pixel.
pub open spec fn sample_square_s(st: u64) -> (Vec3d, u64) {
    (
        v3(unit_from_s(state_n(st, 1)) - 500, unit_from_s(state_n(st, 2)) - 500, 0),
        state_n(st, 2),
    )
}

/// A lens sample: the camera center displaced within the defocus disk.
pub open spec fn defocus_disk_sample_s(c: Camera, st: u64) -> (Vec3d, u64) {
    let pr = random_in_disk_s(st, UNIT_TRIES as nat);
    (
        add_s(
            c.center.0,
            add_s(
                scale_s(c.defocus_disk_u, pr.0.x as int),
                scale_s(c.defocus_disk_v, pr.0.y as int),
            ),
        ),
        pr.1,
    )
}

/// The sample ray for a pixel: jittered through the pixel, from the lens
/// center when defocus is off and from a lens-disk point when it is on,
/// at a fresh time draw. The camera's per-axis ray budget keeps both the
/// origin and the direction inside the coordinate range.
pub open spec fn get_ray_s(c: Camera, i: int, j: int, st: u64) -> (Ray, u64) {
    let off = sample_square_s(st);
    let ifx = i * 1000 + off.0.x;
    let jfx = j * 1000 + off.0.y;
    let pixel_sample = add_s(
        c.pixel00_loc.0,
        add_s(scale_s(c.pixel_delta_u, ifx), scale_s(c.pixel_delta_v, jfx)),
    );
    let og = if c.defocus_angle > 0 {
        defocus_disk_sample_s(c, off.1)
    } else {
        (c.center.0, off.1)
    };
    let dir = sub_s(pixel_sample, og.0);
    let st3 = next_state_s(og.1);
    (Ray { origin: Point3d(og.0), direction: dir, tm: unit_from_s(st3) as i64 }, st3)
}

/// The background: white blended toward sky blue by the ray's upward
/// slope.
pub open spec fn sky_color_s(r: Ray) -> Color {
    let ud = unit_s(r.direction);
    let a = mul_fx_s(500, ud.y + 1000);
    Color {
        r: (mul_fx_s(1000, 1000 - a) + mul_fx_s(500, a)) as i64,
        g: (mul_fx_s(1000, 1000 - a) + mul_fx_s(700, a)) as i64,
        b: (mul_fx_s(1000, 1000 - a) + mul_fx_s(1000, a)) as i64,
    }
}

/// The radiance along a ray: black at the depth cutoff, the scattering
/// recursion on a hit, the sky on a miss. A handle outside the material
/// arena absorbs the ray.
pub open spec fn ray_color_s(
    r: Ray,
    depth: u8,
    objs: Seq<Hittable>,
    mats: Seq<MaterialEnum>,
    st: u64,
) -> (Color, u64)
    decreases depth,
{
    if depth == 0 {
        (Color { r: 0, g: 0, b: 0 }, st)
    } else {
        match scan_hit_s(objs, r, 1, i64::MAX as int) {
            Some((hr, mid)) => {
                if mid >= mats.len() {
                    (Color { r: 0, g: 0, b: 0 }, st)
                } else {
                    let step = material_scatter_s(mats[mid as int], r, hr, st);
                    if step.0.2 {
                        let rec = ray_color_s(step.0.0, (depth - 1) as u8, objs, mats, step.1);
                        (
                            Color {
                                r: mul_fx_s(rec.0.r as int, step.0.1.r as int) as i64,
                                g: mul_fx_s(rec.0.g as int, step.0.1.g as int) as i64,
                                b: mul_fx_s(rec.0.b as int, step.0.1.b as int) as i64,
                            },
                            rec.1,
                        )
                    } else {
                        (Color { r: 0, g: 0, b: 0 }, step.1)
                    }
                }
            },
            None => (sky_color_s(r), st),
        }
    }
}

/// An empty world shows pure sky: for any ray at any positive depth the
/// integrator returns exactly the sky gradient and draws nothing.
pub proof fn lemma_empty_world_sky(r: Ray, depth: u8, mats: Seq<MaterialEnum>, st: u64)
    requires
        depth > 0,
    ensures
        ray_color_s(r, depth, Seq::<Hittable>::empty(), mats, st).0 == sky_color_s(r),
        ray_color_s(r, depth, Seq::<Hittable>::empty(), mats, st).1 == st,
{
    assert(scan_hit_s(Seq::<Hittable>::empty(), r, 1, i64::MAX as int) is None);
}

/// The accumulated radiance of the first samples of a pixel, with the
/// state they leave the source in.
pub open spec fn sample_acc_s(
    c: Camera,
    objs: Seq<Hittable>,
    mats: Seq<MaterialEnum>,
    i: int,
    j: int,
    st: u64,
    k: nat,
) -> (Color, u64)
    decreases k,
{
    if k == 0 {
        (Color { r: 0, g: 0, b: 0 }, st)
    } else {
        let prev = sample_acc_s(c, objs, mats, i, j, st, (k - 1) as nat);
        let gr = get_ray_s(c, i, j, prev.1);
        let rc = ray_color_s(gr.0, c.max_depth, objs, mats, gr.1);
        (
            Color {
                r: (prev.0.r + rc.0.r) as i64,
                g: (prev.0.g + rc.0.g) as i64,
                b: (prev.0.b + rc.0.b) as i64,
            },
            rc.1,
        )
    }
}

/// One finished pixel: the average of its samples, from a seed that
/// depends only on the frame seed and the pixel's own index.
pub open spec fn pixel_color_s(
    c: Camera,
    objs: Seq<Hittable>,
    mats: Seq<MaterialEnum>,
    base: u64,
    i: int,
    j: int,
) -> Color {
    let st0 = pixel_seed_s(base, (j * c.image_width as int + i) as u64);
    let acc = sample_acc_s(c, objs, mats, i, j, st0, c.samples_per_pixel as nat);
    Color {
        r: tdiv(acc.0.r as int, c.samples_per_pixel as int) as i64,
        g: tdiv(acc.0.g as int, c.samples_per_pixel as int) as i64,
        b: tdiv(acc.0.b as int, c.samples_per_pixel as int) as i64,
    }
}

impl Camera {
    /// The antialias jitter for one sample.
    fn sample_square(&self, s: &mut Sampler) -> (r: Vec3d)
        ensures
            r == sample_square_s(old(s).state).0,
            final(s).state == sample_square_s(old(s).state).1,
            bounded(r, 500),
    {
        let ghost s0 = old(s).state;
        let rnd_x = s.next_unit();
        let rnd_y = s.next_unit();
        proof {
            assert(state_n(s0, 0) == s0);
            assert(state_n(s0, 1) == next_state_s(state_n(s0, 0)));
            assert(state_n(s0, 2) == next_state_s(state_n(s0, 1)));
        }
        Vec3d::new(rnd_x - 500, rnd_y - 500, 0)
    }

    /// A point of the lens disk, as a displaced camera center; each
    /// component stays within the center plus the two disk vectors.
    fn defocus_disk_sample(&self, s: &mut Sampler) -> (r: Vec3d)
        requires
            camera_wf(*self),
        ensures
            r == defocus_disk_sample_s(*self, old(s).state).0,
            final(s).state == defocus_disk_sample_s(*self, old(s).state).1,
            abs_i(r.x as int) <= abs_i(self.center.0.x as int) + abs_i(
                self.defocus_disk_u.x as int,
            ) + abs_i(self.defocus_disk_v.x as int),
            abs_i(r.y as int) <= abs_i(self.center.0.y as int) + abs_i(
                self.defocus_disk_u.y as int,
            ) + abs_i(self.defocus_disk_v.y as int),
            abs_i(r.z as int) <= abs_i(self.center.0.z as int) + abs_i(
                self.defocus_disk_u.z as int,
            ) + abs_i(self.defocus_disk_v.z as int),
    {
        let p = Vec3d::random_in_unit_disk(s);
        proof {
            lemma_scale_by_fraction(self.defocus_disk_u.x as int, p.x as int);
            lemma_scale_by_fraction(self.defocus_disk_u.y as int, p.x as int);
            lemma_scale_by_fraction(self.defocus_disk_u.z as int, p.x as int);
            lemma_scale_by_fraction(self.defocus_disk_v.x as int, p.y as int);
            lemma_scale_by_fraction(self.defocus_disk_v.y as int, p.y as int);
            lemma_scale_by_fraction(self.defocus_disk_v.z as int, p.y as int);
        }
        Vec3d::add(
            &self.center.as_vec3d(),
            &Vec3d::add(
                &Vec3d::mul(&self.defocus_disk_u, p.x),
                &Vec3d::mul(&self.defocus_disk_v, p.y),
            ),
        )
    }

    /// The sample ray aimed through pixel `(i, j)`.
    #[verifier::rlimit(100)]
    #[verifier::spinoff_prover]
    pub fn get_ray(&self, i: u16, j: u16, s: &mut Sampler) -> (res: Ray)
        requires
            camera_wf(*self),
            i < self.image_width,
            j < self.image_height,
        ensures
            res == get_ray_s(*self, i as int, j as int, old(s).state).0,
            final(s).state == get_ray_s(*self, i as int, j as int, old(s).state).1,
            ray_wf(res),
    {
        let offset = self.sample_square(s);
        let ifx = i as i64 * 1000 + offset.x;
        let jfx = j as i64 * 1000 + offset.y;
        proof {
            lemma_mul_fx_bound(self.pixel_delta_u.x as int, ifx as int, 2_097_152, 4_096_500);
            lemma_mul_fx_bound(self.pixel_delta_u.y as int, ifx as int, 2_097_152, 4_096_500);
            lemma_mul_fx_bound(self.pixel_delta_u.z as int, ifx as int, 2_097_152, 4_096_500);
            lemma_mul_fx_bound(self.pixel_delta_v.x as int, jfx as int, 2_097_152, 4_096_500);
            lemma_mul_fx_bound(self.pixel_delta_v.y as int, jfx as int, 2_097_152, 4_096_500);
            lemma_mul_fx_bound(self.pixel_delta_v.z as int, jfx as int, 2_097_152, 4_096_500);
        }
        proof {
            lemma_jitter_shift(self.pixel_delta_u.x as int, ifx as int);
            lemma_jitter_shift(self.pixel_delta_u.y as int, ifx as int);
            lemma_jitter_shift(self.pixel_delta_u.z as int, ifx as int);
            lemma_jitter_shift(self.pixel_delta_v.x as int, jfx as int);
            lemma_jitter_shift(self.pixel_delta_v.y as int, jfx as int);
            lemma_jitter_shift(self.pixel_delta_v.z as int, jfx as int);
        }
        let pixel_shift = Vec3d::add(
            &Vec3d::mul(&self.pixel_delta_u, ifx),
            &Vec3d::mul(&self.pixel_delta_v, jfx),
        );
        let pixel_sample = Vec3d::add(&self.pixel00_loc.as_vec3d(), &pixel_shift);
        let ray_origin = if self.defocus_angle > 0 {
            self.defocus_disk_sample(s)
        } else {
            self.center.as_vec3d()
        };
        let ray_direction = Vec3d::sub(&pixel_sample, &ray_origin);
        let tm = s.next_unit();
        Ray::new(Point3d::from_vec3d(ray_origin), ray_direction, Some(tm))
    }

    /// The radiance along a ray, to a bounded bounce depth.
    pub fn ray_color(
        r: Ray,
        depth: u8,
        world: &HittableList,
        materials: &Vec<MaterialEnum>,
        s: &mut Sampler,
    ) -> (res: Color)
        requires
            ray_wf(r),
            list_wf(*world),
            mats_wf(materials@),
        ensures
            res == ray_color_s(r, depth, world.objects@, materials@, old(s).state).0,
            final(s).state == ray_color_s(r, depth, world.objects@, materials@, old(s).state).1,
            color_amp(res),
        decreases depth,
    {
        if depth == 0 {
            return Color { r: 0, g: 0, b: 0 };
        }
        let hit = world.hit(&r, Interval::new(1, i64::MAX));
        proof {
            lemma_scan_props(world.objects@, r, 1, i64::MAX as int);
        }
        match hit {
            Some((hr, mid)) => {
                if mid >= materials.len() {
                    Color { r: 0, g: 0, b: 0 }
                } else {
                    let m = materials[mid];
                    let (scat_ray, scat_color, scattered) = m.scatter(&r, &hr, s);
                    if scattered {
                        let rc = Self::ray_color(scat_ray, depth - 1, world, materials, s);
                        proof {
                            lemma_mul_fx_bound(rc.r as int, scat_color.r as int, 10_000, 1000);
                            lemma_mul_fx_bound(rc.g as int, scat_color.g as int, 10_000, 1000);
                            lemma_mul_fx_bound(rc.b as int, scat_color.b as int, 10_000, 1000);
                        }
                        Color {
                            r: mul_fx(rc.r, scat_color.r),
                            g: mul_fx(rc.g, scat_color.g),
                            b: mul_fx(rc.b, scat_color.b),
                        }
                    } else {
                        Color { r: 0, g: 0, b: 0 }
                    }
                }
            },
            None => {
                let unit_direction = Vec3d::unit(&r.direction);
                proof {
                    lemma_mul_fx_bound(500, unit_direction.y as int + 1000, 500, 3000);
                }
                let a = mul_fx(500, unit_direction.y + 1000);
                proof {
                    lemma_mul_fx_bound(1000, 1000 - a as int, 1000, 2500);
                    lemma_mul_fx_bound(500, a as int, 500, 1500);
                    lemma_mul_fx_bound(700, a as int, 700, 1500);
                    lemma_mul_fx_bound(1000, a as int, 1000, 1500);
                }
                Color {
                    r: mul_fx(1000, 1000 - a) + mul_fx(500, a),
                    g: mul_fx(1000, 1000 - a) + mul_fx(700, a),
                    b: mul_fx(1000, 1000 - a) + mul_fx(1000, a),
                }
            },
        }
    }

    /// One finished pixel.
    fn render_pixel(
        &self,
        world: &HittableList,
        materials: &Vec<MaterialEnum>,
        base_seed: u64,
        i: u16,
        j: u16,
    ) -> (res: Color)
        requires
            camera_wf(*self),
            list_wf(*world),
            mats_wf(materials@),
            i < self.image_width,
            j < self.image_height,
        ensures
            res == pixel_color_s(
                *self,
                world.objects@,
                materials@,
                base_seed,
                i as int,
                j as int,
            ),
    {
        proof {
            assert((j as int) * (self.image_width as int) + (i as int) < 0x1000000)
                by (nonlinear_arith)
                requires
                    j < 4096,
                    i < 4096,
                    self.image_width <= 4096,
            ;
        }
        let idx: u64 = (j as u64) * (self.image_width as u64) + (i as u64);
        let mut sampler = Sampler::for_pixel(base_seed, idx);
        let mut acc = Color { r: 0, g: 0, b: 0 };
        let mut k: u16 = 0;
        let spp = self.samples_per_pixel;
        while k < spp
            invariant
                camera_wf(*self),
                list_wf(*world),
                mats_wf(materials@),
                i < self.image_width,
                j < self.image_height,
                spp == self.samples_per_pixel,
                0 <= k <= spp,
                abs_i(acc.r as int) <= 10_000 * k as int,
                abs_i(acc.g as int) <= 10_000 * k as int,
                abs_i(acc.b as int) <= 10_000 * k as int,
                (acc, sampler.state) == sample_acc_s(
                    *self,
                    world.objects@,
                    materials@,
                    i as int,
                    j as int,
                    pixel_seed_s(base_seed, (j as int * self.image_width as int + i as int) as u64),
                    k as nat,
                ),
            decreases spp - k,
        {
            let r = self.get_ray(i, j, &mut sampler);
            let pc = Self::ray_color(r, self.max_depth, world, materials, &mut sampler);
            acc = Color { r: acc.r + pc.r, g: acc.g + pc.g, b: acc.b + pc.b };
            k = k + 1;
        }
        Color {
            r: crate::fixed::idiv(acc.r, spp as i64),
            g: crate::fixed::idiv(acc.g, spp as i64),
            b: crate::fixed::idiv(acc.b, spp as i64),
        }
    }

    /// Renders the rows `[start_row, end_row)` into a fresh buffer, one
    /// pixel per entry, row-major.
    #[verifier::rlimit(100)]
    pub fn subrender(
        &self,
        world: &HittableList,
        materials: &Vec<MaterialEnum>,
        base_seed: u64,
        start_row: u16,
        end_row: u16,
    ) -> (res: Vec<Color>)
        requires
            camera_wf(*self),
            list_wf(*world),
            mats_wf(materials@),
            start_row <= end_row,
            end_row <= self.image_height,
        ensures
            res@.len() == (end_row - start_row) * self.image_width,
            forall|j: int, i: int|
                start_row <= j < end_row && 0 <= i < self.image_width ==> res@[(j - start_row)
                    * self.image_width + i] == pixel_color_s(
                    *self,
                    world.objects@,
                    materials@,
                    base_seed,
                    i,
                    j,
                ),
    {
        let mut v: Vec<Color> = Vec::new();
        let w = self.image_width;
        let mut j: u16 = start_row;
        while j < end_row
            invariant
                camera_wf(*self),
                list_wf(*world),
                mats_wf(materials@),
                start_row <= j <= end_row,
                end_row <= self.image_height,
                w == self.image_width,
                v@.len() == (j - start_row) * w,
                forall|j2: int, i2: int|
                    start_row <= j2 < j && 0 <= i2 < w ==> v@[(j2 - start_row) * w + i2]
                        == pixel_color_s(
                        *self,
                        world.objects@,
                        materials@,
                        base_seed,
                        i2,
                        j2,
                    ),
            decreases end_row - j,
        {
            let mut row = self.render_row(world, materials, base_seed, j);
            let ghost row0 = row@;
            let ghost before = v@;
            v.append(&mut row);
            proof {
                lemma_stitch_row(
                    before,
                    row0,
                    v@,
                    *self,
                    world.objects@,
                    materials@,
                    base_seed,
                    start_row as int,
                    j as int,
                    w as int,
                );
            }
            j = j + 1;
        }
        v
    }

    /// Renders one row of the image.
    fn render_row(
        &self,
        world: &HittableList,
        materials: &Vec<MaterialEnum>,
        base_seed: u64,
        j: u16,
    ) -> (res: Vec<Color>)
        requires
            camera_wf(*self),
            list_wf(*world),
            mats_wf(materials@),
            j < self.image_height,
        ensures
            res@.len() == self.image_width,
            forall|i: int|
                0 <= i < self.image_width ==> res@[i] == pixel_color_s(
                    *self,
                    world.objects@,
                    materials@,
                    base_seed,
                    i,
                    j as int,
                ),
    {
        let mut v: Vec<Color> = Vec::new();
        let w = self.image_width;
        let mut i: u16 = 0;
        while i < w
            invariant
                camera_wf(*self),
                list_wf(*world),
                mats_wf(materials@),
                j < self.image_height,
                w == self.image_width,
                0 <= i <= w,
                v@.len() == i,
                forall|i2: int|
                    0 <= i2 < i ==> v@[i2] == pixel_color_s(
                        *self,
                        world.objects@,
                        materials@,
                        base_seed,
                        i2,
                        j as int,
                    ),
            decreases w - i,
        {
            let px = self.render_pixel(world, materials, base_seed, i, j);
            v.push(px);
            i = i + 1;
        }
        v
    }

    /// Renders the whole image, partitioned into contiguous row ranges as
    /// a worker pool would take them; the result is the same for every
    /// range count and depends only on the scene, the camera and the
    /// seed.
    pub fn render(
        &self,
        world: &HittableList,
        materials: &Vec<MaterialEnum>,
        thread_num: u8,
        base_seed: u64,
    ) -> (res: Vec<Color>)
        requires
            camera_wf(*self),
            list_wf(*world),
            mats_wf(materials@),
        ensures
            res@.len() == self.image_height * self.image_width,
            forall|j: int, i: int|
                0 <= j < self.image_height && 0 <= i < self.image_width ==> res@[j
                    * self.image_width + i] == pixel_color_s(
                    *self,
                    world.objects@,
                    materials@,
                    base_seed,
                    i,
                    j,
                ),
    {
        let t: u16 = if thread_num > 0 {
            thread_num as u16
        } else {
            1
        };
        let h = self.image_height;
        let w = self.image_width;
        let rows: u16 = h / t;
        let rows_rem: u16 = h % t;
        let mut res: Vec<Color> = Vec::new();
        let mut iter: u16 = 0;
        proof {
            assert(h / t * t + h % t == h) by (nonlinear_arith)
                requires
                    t >= 1,
                    h >= 0,
            ;
        }
        while iter < t
            invariant
                camera_wf(*self),
                list_wf(*world),
                mats_wf(materials@),
                t >= 1,
                h == self.image_height,
                w == self.image_width,
                rows == h / t,
                0 <= iter <= t,
                iter as int * rows as int <= h,
                res@.len() == iter * rows * w,
                forall|j: int, i: int|
                    0 <= j < iter * rows && 0 <= i < w ==> res@[j * w + i] == pixel_color_s(
                        *self,
                        world.objects@,
                        materials@,
                        base_seed,
                        i,
                        j,
                    ),
            decreases t - iter,
        {
            proof {
                assert((iter + 1) as int * rows as int <= t as int * rows as int)
                    by (nonlinear_arith)
                    requires
                        iter < t,
                        rows >= 0,
                ;
                assert(t as int * rows as int <= h as int) by (nonlinear_arith)
                    requires
                        rows == h as int / t as int,
                        t >= 1,
                        h >= 0,
                ;
            }
            proof {
                assert(iter as int * rows as int <= (iter + 1) as int * rows as int)
                    by (nonlinear_arith)
                    requires
                        rows >= 0,
                        iter >= 0,
                ;
            }
            let lo: u16 = iter * rows;
            let hi: u16 = (iter + 1) * rows;
            let mut chunk = self.subrender(world, materials, base_seed, lo, hi);
            let ghost chunk0 = chunk@;
            let ghost before = res@;
            res.append(&mut chunk);
            proof {
                lemma_stitch(before, chunk0, res@, *self, world.objects@, materials@, base_seed, lo as int, hi as int, w as int);
                assert((iter + 1) as int * rows as int * w as int == iter as int * rows as int
                    * w as int + (hi - lo) * w as int) by (nonlinear_arith)
                    requires
                        lo == iter as int * rows as int,
                        hi == (iter + 1) as int * rows as int,
                ;
            }
            iter = iter + 1;
        }
        if rows_rem > 0 {
            let lo: u16 = t * rows;
            let mut chunk = self.subrender(world, materials, base_seed, lo, h);
            let ghost chunk0 = chunk@;
            let ghost before = res@;
            res.append(&mut chunk);
            proof {
                lemma_stitch(before, chunk0, res@, *self, world.objects@, materials@, base_seed, lo as int, h as int, w as int);
            }
        }
        res
    }
}


/// Appending one finished row keeps every pixel at its row-major place
/// within the range buffer.
proof fn lemma_stitch_row(
    before: Seq<Color>,
    row: Seq<Color>,
    after: Seq<Color>,
    c: Camera,
    objs: Seq<Hittable>,
    mats: Seq<MaterialEnum>,
    base: u64,
    start: int,
    j: int,
    w: int,
)
    requires
        after == before + row,
        w >= 1,
        start <= j,
        before.len() == (j - start) * w,
        row.len() == w,
        forall|j2: int, i2: int|
            start <= j2 < j && 0 <= i2 < w ==> before[(j2 - start) * w + i2] == pixel_color_s(
                c,
                objs,
                mats,
                base,
                i2,
                j2,
            ),
        forall|i2: int| 0 <= i2 < w ==> row[i2] == pixel_color_s(c, objs, mats, base, i2, j),
    ensures
        after.len() == (j + 1 - start) * w,
        forall|j2: int, i2: int|
            start <= j2 < j + 1 && 0 <= i2 < w ==> after[(j2 - start) * w + i2] == pixel_color_s(
                c,
                objs,
                mats,
                base,
                i2,
                j2,
            ),
{
    assert((j - start) * w + w == (j + 1 - start) * w) by (nonlinear_arith);
    assert forall|j2: int, i2: int|
        start <= j2 < j + 1 && 0 <= i2 < w implies after[(j2 - start) * w + i2] == pixel_color_s(
        c,
        objs,
        mats,
        base,
        i2,
        j2,
    ) by {
        if j2 < j {
            assert(0 <= (j2 - start) * w + i2 < (j - start) * w) by (nonlinear_arith)
                requires
                    start <= j2 < j && 0 <= i2 < w,
            ;
            assert(after[(j2 - start) * w + i2] == before[(j2 - start) * w + i2]);
        } else {
            assert((j2 - start) * w + i2 == (j - start) * w + i2) by (nonlinear_arith)
                requires
                    j2 == j,
            ;
            assert(after[(j - start) * w + i2] == row[i2]);
        }
    }
}

/// Appending a row-range buffer to the rows before it keeps every pixel
/// at its row-major place.
proof fn lemma_stitch(
    before: Seq<Color>,
    chunk: Seq<Color>,
    after: Seq<Color>,
    c: Camera,
    objs: Seq<Hittable>,
    mats: Seq<MaterialEnum>,
    base: u64,
    lo: int,
    hi: int,
    w: int,
)
    requires
        after == before + chunk,
        w >= 1,
        0 <= lo <= hi,
        before.len() == lo * w,
        chunk.len() == (hi - lo) * w,
        forall|j: int, i: int|
            0 <= j < lo && 0 <= i < w ==> before[j * w + i] == pixel_color_s(
                c,
                objs,
                mats,
                base,
                i,
                j,
            ),
        forall|j: int, i: int|
            lo <= j < hi && 0 <= i < w ==> chunk[(j - lo) * w + i] == pixel_color_s(
                c,
                objs,
                mats,
                base,
                i,
                j,
            ),
    ensures
        after.len() == hi * w,
        forall|j: int, i: int|
            0 <= j < hi && 0 <= i < w ==> after[j * w + i] == pixel_color_s(
                c,
                objs,
                mats,
                base,
                i,
                j,
            ),
{
    assert(lo * w + (hi - lo) * w == hi * w) by (nonlinear_arith);
    assert forall|j: int, i: int| 0 <= j < hi && 0 <= i < w implies after[j * w + i]
        == pixel_color_s(c, objs, mats, base, i, j) by {
        if j < lo {
            assert(j * w + i < lo * w) by (nonlinear_arith)
                requires
                    0 <= j < lo && 0 <= i < w,
            ;
            assert(0 <= j * w + i) by (nonlinear_arith)
                requires
                    0 <= j && 0 <= i && w >= 1,
            ;
            assert(after[j * w + i] == before[j * w + i]);
        } else {
            assert(j * w + i == lo * w + ((j - lo) * w + i)) by (nonlinear_arith);
            assert(0 <= (j - lo) * w + i < (hi - lo) * w) by (nonlinear_arith)
                requires
                    lo <= j < hi && 0 <= i < w,
            ;
            assert(after[lo * w + ((j - lo) * w + i)] == chunk[(j - lo) * w + i]);
        }
    }
}

/// The gamma transform for output: the square root of a nonnegative
/// intensity, zero below.
pub fn linear_to_gamma(l: i64) -> (r: i64)
    requires
        abs_i(l as int) <= 10_000,
    ensures
        r as int == if l < 0 {
            0int
        } else {
            sqrt_fx_s(l as int)
        },
        0 <= r <= 3163,
{
    if l < 0 {
        0
    } else {
        proof {
            crate::vec3d::lemma_sqrt_le(l as int, 3163);
        }
        sqrt_fx(l)
    }
}

/// A finished color as one byte per channel: gamma, clamp to just below
/// one, and widen to the byte range.
pub open spec fn color_to_bytes_s(c: Color) -> (u8, u8, u8) {
    (byte_of(c.r as int), byte_of(c.g as int), byte_of(c.b as int))
}

pub open spec fn byte_of(l: int) -> u8 {
    let g = if l < 0 {
        0int
    } else {
        sqrt_fx_s(l)
    };
    let cl = if g < 0 {
        0int
    } else if g > 999 {
        999int
    } else {
        g
    };
    tdiv(256 * cl, 1000) as u8
}

pub fn color_to_bytes(c: &Color) -> (r: (u8, u8, u8))
    requires
        abs_i(c.r as int) <= 10_000,
        abs_i(c.g as int) <= 10_000,
        abs_i(c.b as int) <= 10_000,
    ensures
        r == color_to_bytes_s(*c),
{
    (byte_channel(c.r), byte_channel(c.g), byte_channel(c.b))
}

fn byte_channel(l: i64) -> (r: u8)
    requires
        abs_i(l as int) <= 10_000,
    ensures
        r == byte_of(l as int),
{
    let g = linear_to_gamma(l);
    let cl = if g < 0 {
        0
    } else if g > 999 {
        999
    } else {
        g
    };
    let scaled = 256 * cl;
    proof {
        vstd::arithmetic::div_mod::lemma_div_pos_is_pos(scaled as int, 1000);
        vstd::arithmetic::div_mod::lemma_div_is_ordered(scaled as int, 255_744, 1000);
    }
    (scaled / 1000) as u8
}

} // verus!
