use raytrace::sampler::Sampler;
use raytrace::vec3d::Vec3d;

#[test]
fn vec_add_vec() {
    let v1 = Vec3d { x: 1000, y: 2000, z: 3000 };
    let r = Vec3d::add(&v1, &Vec3d { x: 2000, y: 3000, z: 4000 });
    assert_eq!(r, Vec3d { x: 3000, y: 5000, z: 7000 });
}

#[test]
fn vec_plus_vec() {
    let v1 = Vec3d { x: 1000, y: 2000, z: 3000 };
    let r = Vec3d::add(&v1.clone(), &Vec3d { x: 2000, y: 3000, z: 4000 });
    assert_eq!(r, Vec3d { x: 3000, y: 5000, z: 7000 });
    assert_eq!(v1, Vec3d { x: 1000, y: 2000, z: 3000 });
}

#[test]
fn mul_vec_scalar() {
    let v1 = Vec3d { x: 1000, y: 2000, z: 3000 };
    let v2 = Vec3d::mul(&v1, 500);
    assert_eq!(v2, Vec3d { x: 500, y: 1000, z: 1500 });
}

#[test]
fn dot_and_length() {
    let v = Vec3d::new(3000, 4000, 0);
    assert_eq!(Vec3d::dot(&v, &v), 25_000);
    assert_eq!(v.length_squared(), 25_000);
    assert_eq!(v.length(), 5000);
    let u = Vec3d::unit(&v);
    assert_eq!(u, Vec3d { x: 600, y: 800, z: 0 });
}

#[test]
fn cross_of_axes() {
    let x = Vec3d::new(1000, 0, 0);
    let y = Vec3d::new(0, 1000, 0);
    assert_eq!(Vec3d::cross(&x, &y), Vec3d { x: 0, y: 0, z: 1000 });
}

#[test]
fn reflect_off_floor() {
    let v = Vec3d::new(1000, -1000, 0);
    let n = Vec3d::new(0, 1000, 0);
    assert_eq!(Vec3d::reflect(&v, &n), Vec3d { x: 1000, y: 1000, z: 0 });
}

#[test]
fn refract_straight_through() {
    let uv = Vec3d::new(0, 0, -1000);
    let n = Vec3d::new(0, 0, 1000);
    let r = Vec3d::refract(uv, n, 666);
    assert_eq!(r, Vec3d { x: 0, y: 0, z: -1000 });
}

#[test]
fn near_zero_only_at_zero() {
    assert!(Vec3d::new(0, 0, 0).near_zero());
    assert!(!Vec3d::new(1, 0, 0).near_zero());
    assert!(!Vec3d::new(0, -1, 0).near_zero());
}

#[test]
fn random_unit_never_zero() {
    let mut s = Sampler::new(12345);
    for _ in 0..200 {
        let u = Vec3d::random_unit(&mut s);
        assert!(!u.near_zero());
        assert!(u.x.abs() <= 2000 && u.y.abs() <= 2000 && u.z.abs() <= 2000);
    }
}

#[test]
fn random_range_stays_in_range() {
    let mut s = Sampler::new(99);
    for _ in 0..100 {
        let v = Vec3d::random_range(&mut s, -1000, 1000);
        assert!(v.x >= -1000 && v.x < 1000);
        assert!(v.y >= -1000 && v.y < 1000);
        assert!(v.z >= -1000 && v.z < 1000);
    }
}

#[test]
fn random_components_are_unit_fractions() {
    let mut s = Sampler::new(2024);
    for _ in 0..50 {
        let v = Vec3d::random(&mut s);
        assert!(v.x >= 0 && v.x < 1000);
        assert!(v.y >= 0 && v.y < 1000);
        assert!(v.z >= 0 && v.z < 1000);
    }
}

#[test]
fn hemisphere_sample_faces_the_normal() {
    let normal = Vec3d::new(0, 0, 1000);
    let mut s = Sampler::new(31);
    for _ in 0..100 {
        let p = Vec3d::random_on_hemisphere(&mut s, &normal);
        assert!(Vec3d::dot(&p, &normal) >= 0);
        assert!(!p.near_zero());
    }
}

#[test]
fn axis_accessor_selects_components() {
    let v = Vec3d::new(7, 8, 9);
    assert_eq!(v.axis(0), 7);
    assert_eq!(v.axis(1), 8);
    assert_eq!(v.axis(2), 9);
}
