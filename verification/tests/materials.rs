use raytrace::hit_record::HitRecord;
use raytrace::material::{Dielectric, Lambertian, MaterialEnum, Metal};
use raytrace::ray::Ray;
use raytrace::sampler::Sampler;
use raytrace::vec3d::{Color, Point3d, Vec3d};

fn record_facing_z() -> HitRecord {
    HitRecord {
        point: Point3d::new(0, 0, -500),
        normal: Vec3d::new(0, 0, 1000),
        t: 500,
        front_face: true,
    }
}

fn incoming() -> Ray {
    Ray::new(Point3d::new(0, 0, 0), Vec3d::new(0, 0, -1000), None)
}

#[test]
fn lambertian_attenuation_is_albedo() {
    let albedo = Color { r: 400, g: 200, b: 100 };
    let l = Lambertian { albedo };
    let hr = record_facing_z();
    let (scattered, attenuation, ok) = l.scatter_with(&incoming(), &hr, Vec3d::new(1000, 0, 0));
    assert!(ok);
    assert_eq!(attenuation, albedo);
    assert_eq!(scattered.direction, Vec3d { x: 1000, y: 0, z: 1000 });
    assert_eq!(scattered.origin, hr.point);
}

#[test]
fn lambertian_falls_back_to_normal_on_cancellation() {
    let l = Lambertian { albedo: Color { r: 500, g: 500, b: 500 } };
    let hr = record_facing_z();
    // The sampled direction exactly cancels the normal.
    let (scattered, _, ok) = l.scatter_with(&incoming(), &hr, Vec3d::new(0, 0, -1000));
    assert!(ok);
    assert_eq!(scattered.direction, hr.normal);
    assert!(!scattered.direction.near_zero());
}

#[test]
fn lambertian_sampled_direction_never_zero() {
    let l = Lambertian { albedo: Color { r: 500, g: 500, b: 500 } };
    let hr = record_facing_z();
    let mut s = Sampler::new(4242);
    for _ in 0..100 {
        let (scattered, _, _) = l.scatter(&incoming(), &hr, &mut s);
        assert!(!scattered.direction.near_zero());
    }
}

#[test]
fn metal_reflects_and_absorbs() {
    let m = Metal { albedo: Color { r: 900, g: 800, b: 700 }, fuzz: 0 };
    let hr = HitRecord {
        point: Point3d::new(0, -1000, 0),
        normal: Vec3d::new(0, 1000, 0),
        t: 1000,
        front_face: true,
    };
    let grazing = Ray::new(Point3d::new(-1000, 0, 0), Vec3d::new(1000, -1000, 0), None);
    let (scattered, attenuation, ok) = m.scatter_with(&grazing, &hr, Vec3d::new(0, 0, 1000));
    assert!(ok);
    assert_eq!(attenuation, Color { r: 900, g: 800, b: 700 });
    assert!(scattered.direction.y > 0);
    // A fuzz sample pointing into the surface absorbs the bounce.
    let m2 = Metal { albedo: Color { r: 900, g: 800, b: 700 }, fuzz: 1000 };
    let head_on = Ray::new(Point3d::new(0, 1000, 0), Vec3d::new(0, -1000, 0), None);
    let (_, _, ok2) = m2.scatter_with(&head_on, &hr, Vec3d::new(0, -1000, 0));
    assert!(!ok2);
}

#[test]
fn dielectric_normal_incidence_schlick_threshold() {
    // Entering glass head on: the base reflectance in thousandths is 40.
    let d = Dielectric { refraction_index: 1500 };
    let hr = record_facing_z();
    let (reflected, _, _) = d.scatter_with(&incoming(), &hr, 39);
    assert_eq!(reflected.direction, Vec3d { x: 0, y: 0, z: 1000 });
    let (refracted, white, ok) = d.scatter_with(&incoming(), &hr, 40);
    assert_eq!(refracted.direction, Vec3d { x: 0, y: 0, z: -1000 });
    assert_eq!(white, Color { r: 1000, g: 1000, b: 1000 });
    assert!(ok);
}

#[test]
fn dielectric_always_scatters_white() {
    let d = Dielectric { refraction_index: 1500 };
    let hr = record_facing_z();
    let mut s = Sampler::new(7);
    for _ in 0..50 {
        let (_, attenuation, ok) = d.scatter(&incoming(), &hr, &mut s);
        assert!(ok);
        assert_eq!(attenuation, Color { r: 1000, g: 1000, b: 1000 });
    }
}

#[test]
fn material_enum_dispatches() {
    let hr = record_facing_z();
    let mut s = Sampler::new(11);
    let lam = MaterialEnum::Lambertian(Lambertian { albedo: Color { r: 100, g: 200, b: 300 } });
    let (_, att, ok) = lam.scatter(&incoming(), &hr, &mut s);
    assert!(ok);
    assert_eq!(att, Color { r: 100, g: 200, b: 300 });
}
