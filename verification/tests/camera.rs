use raytrace::camera::{color_to_bytes, get_image_height, linear_to_gamma, Camera, CameraView};
use raytrace::hit_record::{Hittable, HittableList, Sphere};
use raytrace::material::{Lambertian, MaterialEnum};
use raytrace::ray::Ray;
use raytrace::sampler::Sampler;
use raytrace::vec3d::{Color, Point3d, Vec3d};

fn empty_world() -> HittableList {
    HittableList { objects: Vec::new(), bbox: raytrace::aabb::Aabb::empty() }
}

fn no_materials() -> Vec<MaterialEnum> {
    Vec::new()
}

#[test]
fn sky_up_is_blue_down_is_white() {
    let world = empty_world();
    let mats = no_materials();
    let mut s = Sampler::new(1);
    let up = Ray::new(Point3d::new(0, 0, 0), Vec3d::new(0, 1000, 0), None);
    let c = Camera::ray_color(up, 8, &world, &mats, &mut s);
    assert_eq!(c, Color { r: 500, g: 700, b: 1000 });
    let down = Ray::new(Point3d::new(0, 0, 0), Vec3d::new(0, -1000, 0), None);
    let c2 = Camera::ray_color(down, 8, &world, &mats, &mut s);
    assert_eq!(c2, Color { r: 1000, g: 1000, b: 1000 });
}

#[test]
fn depth_zero_is_black() {
    let world = empty_world();
    let mats = no_materials();
    let mut s = Sampler::new(1);
    let r = Ray::new(Point3d::new(0, 0, 0), Vec3d::new(0, 1000, 0), None);
    let c = Camera::ray_color(r, 0, &world, &mats, &mut s);
    assert_eq!(c, Color { r: 0, g: 0, b: 0 });
}

#[test]
fn image_height_follows_aspect() {
    // A 400-wide sixteen-by-nine frame is 225 rows tall.
    assert_eq!(get_image_height(400, 1777), 225);
    assert_eq!(get_image_height(1, 10_000), 1);
}

#[test]
fn gamma_and_bytes_exact() {
    assert_eq!(linear_to_gamma(1000), 1000);
    assert_eq!(linear_to_gamma(250), 500);
    assert_eq!(linear_to_gamma(-5), 0);
    let c = Color { r: 1000, g: 0, b: 250 };
    assert_eq!(color_to_bytes(&c), (255, 0, 128));
}

fn small_scene() -> (Camera, HittableList, Vec<MaterialEnum>) {
    let mats = vec![MaterialEnum::Lambertian(Lambertian {
        albedo: Color { r: 500, g: 500, b: 500 },
    })];
    let mut world = HittableList::new(Hittable::Sphere(Sphere::new(
        Point3d::new(0, 0, -1200),
        500,
        0,
    )));
    world.add(Hittable::Sphere(Sphere::new(Point3d::new(0, -101_000, -1200), 100_000, 0)));
    let cv = CameraView {
        tan_half_fov: 364,
        lookfrom: Point3d::new(0, 0, 0),
        lookat: Point3d::new(0, 0, -1000),
        vup: Vec3d::new(0, 1000, 0),
        defocus_angle: 0,
        tan_half_defocus: 0,
        focus_dist: 1000,
    };
    let cam = Camera::initialize(1778, 16, 6, 2, cv);
    (cam, world, mats)
}

/// One worker and several workers paint the same image from one seed.
#[test]
fn render_same_for_any_thread_count() {
    let (cam, world, mats) = small_scene();
    let a = cam.render(&world, &mats, 1, 424242);
    let b = cam.render(&world, &mats, 3, 424242);
    let c = cam.render(&world, &mats, 7, 424242);
    assert_eq!(a.len(), (cam.image_width as usize) * (cam.image_height as usize));
    assert_eq!(a, b);
    assert_eq!(a, c);
}

/// Rendering twice with one seed is bit-identical.
#[test]
fn render_deterministic_per_seed() {
    let (cam, world, mats) = small_scene();
    let a = cam.render(&world, &mats, 2, 7);
    let b = cam.render(&world, &mats, 2, 7);
    assert_eq!(a, b);
    let other = cam.render(&world, &mats, 2, 8);
    assert_eq!(other.len(), a.len());
}

#[test]
fn subrender_rows_match_full_render() {
    let (cam, world, mats) = small_scene();
    let full = cam.render(&world, &mats, 1, 99);
    let w = cam.image_width as usize;
    let top = cam.subrender(&world, &mats, 99, 0, 1);
    assert_eq!(top.len(), w);
    for i in 0..w {
        assert_eq!(top[i], full[i]);
    }
    let second = cam.subrender(&world, &mats, 99, 1, 2);
    for i in 0..w {
        assert_eq!(second[i], full[w + i]);
    }
}

#[test]
fn camera_center_ray_hits_sphere_scene() {
    let (cam, world, mats) = small_scene();
    // The exact center-pixel ray: aim straight down the axis by hand.
    let r = Ray::new(Point3d::new(0, 0, 0), Vec3d::new(0, 0, -1000), None);
    let hit = world.hit(&r, raytrace::interval::Interval::new(1, i64::MAX));
    let (hr, m) = hit.expect("center ray must hit the sphere");
    assert_eq!(hr.t, 700);
    assert_eq!(hr.normal, Vec3d { x: 0, y: 0, z: 1000 });
    assert_eq!(m, 0);
    assert!(cam.image_height >= 1);
}

#[test]
fn sampler_is_reproducible() {
    let mut a = Sampler::new(5);
    let mut b = Sampler::new(5);
    for _ in 0..32 {
        assert_eq!(a.next_unit(), b.next_unit());
    }
    let mut c = Sampler::for_pixel(5, 3);
    let mut d = Sampler::for_pixel(5, 3);
    assert_eq!(c.next_unit(), d.next_unit());
}

#[test]
fn initialize_sets_dimensions_and_center() {
    let (cam, _, _) = small_scene();
    assert_eq!(cam.image_width, 16);
    assert_eq!(cam.image_height, 8);
    assert_eq!(cam.samples_per_pixel, 2);
    assert_eq!(cam.max_depth, 6);
    assert_eq!(cam.center, Point3d::new(0, 0, 0));
    assert_eq!(cam.defocus_angle, 0);
}
