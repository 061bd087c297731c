use raytrace::aabb::Aabb;
use raytrace::hit_record::{Hittable, HittableList, Sphere};
use raytrace::interval::Interval;
use raytrace::ray::Ray;
use raytrace::vec3d::{Point3d, Vec3d};

fn ray(origin: (i64, i64, i64), dir: (i64, i64, i64)) -> Ray {
    Ray::new(
        Point3d::new(origin.0, origin.1, origin.2),
        Vec3d::new(dir.0, dir.1, dir.2),
        None,
    )
}

fn unit_box_at_origin() -> Aabb {
    Aabb::new(
        Interval::new(-1000, 1000),
        Interval::new(-1000, 1000),
        Interval::new(-1000, 1000),
    )
}

#[test]
fn aabb_hit_through_center() {
    let b = unit_box_at_origin();
    let r = ray((0, 0, 5000), (0, 0, -1000));
    assert!(b.hit(&r, Interval::new(1, i64::MAX)));
}

#[test]
fn aabb_miss_outside_axis() {
    let b = unit_box_at_origin();
    // Travels parallel to the box, two units off along the first axis.
    let r = ray((3000, 0, 5000), (0, 0, -1000));
    assert!(!b.hit(&r, Interval::new(1, i64::MAX)));
    // The parameter window ends before the box is reached.
    let near = ray((0, 0, 5000), (0, 0, -1000));
    assert!(!b.hit(&near, Interval::new(1, 2000)));
}

#[test]
fn aabb_parallel_ray_inside_slab() {
    let b = unit_box_at_origin();
    // Zero direction along two axes, origin between those slab planes.
    let r = ray((0, 0, 5000), (0, 0, -1000));
    assert!(b.hit(&r, Interval::new(1, i64::MAX)));
    let outside = ray((0, 2000, 5000), (0, 0, -1000));
    assert!(!outside.direction.near_zero());
    assert!(!b.hit(&outside, Interval::new(1, i64::MAX)));
}

#[test]
fn sphere_center_hit_exact() {
    // A sphere of radius one half, one unit down the view axis.
    let s = Sphere::new(Point3d::new(0, 0, -1000), 500, 0);
    assert_eq!(s.bbox.x.min, -500);
    assert_eq!(s.bbox.x.max, 500);
    assert_eq!(s.bbox.z.min, -1500);
    assert_eq!(s.bbox.z.max, -500);
    let r = ray((0, 0, 0), (0, 0, -1000));
    let hit = s.hit(&r, Interval::new(1, i64::MAX)).expect("must hit");
    assert_eq!(hit.0.t, 500);
    assert_eq!(hit.0.normal, Vec3d { x: 0, y: 0, z: 1000 });
    assert!(hit.0.front_face);
    assert_eq!(hit.0.point, Point3d(Vec3d { x: 0, y: 0, z: -500 }));
    assert_eq!(hit.1, 0);
}

#[test]
fn sphere_miss_and_zero_radius() {
    let s = Sphere::new(Point3d::new(0, 0, -1000), 500, 0);
    let r = ray((0, 3000, 0), (0, 0, -1000));
    assert!(s.hit(&r, Interval::new(1, i64::MAX)).is_none());
    let degenerate = Sphere::new(Point3d::new(0, 0, -1000), 0, 0);
    let center_ray = ray((0, 0, 0), (0, 0, -1000));
    assert!(degenerate.hit(&center_ray, Interval::new(1, i64::MAX)).is_none());
}

#[test]
fn list_scan_returns_closest() {
    let far = Sphere::new(Point3d::new(0, 0, -3000), 500, 1);
    let near = Sphere::new(Point3d::new(0, 0, -1000), 300, 2);
    let mut world = HittableList::new(Hittable::Sphere(far));
    world.add(Hittable::Sphere(near));
    let r = ray((0, 0, 0), (0, 0, -1000));
    let hit = world.hit(&r, Interval::new(1, i64::MAX)).expect("must hit");
    assert_eq!(hit.1, 2);
    assert_eq!(hit.0.t, 700);
}

#[test]
fn moving_sphere_center_follows_time() {
    let s = Sphere::new_dynamic(
        Point3d::new(0, 0, -1000),
        Point3d::new(0, 1000, -1000),
        500,
        7,
    );
    // At time zero the center is at the first endpoint.
    let r0 = Ray::new(Point3d::new(0, 0, 0), Vec3d::new(0, 0, -1000), Some(0));
    let h0 = s.hit(&r0, Interval::new(1, i64::MAX)).expect("must hit");
    assert_eq!(h0.0.t, 500);
    // At the end of the exposure the sphere has moved a unit up.
    let r1 = Ray::new(Point3d::new(0, 1000, 0), Vec3d::new(0, 0, -1000), Some(1000));
    let h1 = s.hit(&r1, Interval::new(1, i64::MAX)).expect("must hit");
    assert_eq!(h1.0.t, 500);
}

#[test]
fn list_box_grows_with_each_insert() {
    let a = Sphere::new(Point3d::new(0, 0, 0), 500, 0);
    let b = Sphere::new(Point3d::new(3000, 0, 0), 500, 1);
    let mut w = HittableList::new(Hittable::Sphere(a));
    assert_eq!(w.bbox.x.min, -500);
    assert_eq!(w.bbox.x.max, 500);
    w.add(Hittable::Sphere(b));
    assert_eq!(w.bbox.x.min, -500);
    assert_eq!(w.bbox.x.max, 3500);
    assert_eq!(w.bbox.y.min, -500);
    assert_eq!(w.bbox.y.max, 500);
}

#[test]
fn box_axis_accessors_and_longest_axis() {
    let b = Aabb::new(
        Interval::new(-4000, 4000),
        Interval::new(-1000, 1000),
        Interval::new(-2000, 2000),
    );
    assert_eq!(b.axis_interval(0), Interval { min: -4000, max: 4000 });
    assert_eq!(b.axis_interval(1), Interval { min: -1000, max: 1000 });
    assert_eq!(b.axis_interval(2), Interval { min: -2000, max: 2000 });
    assert_eq!(b.longest_axis(), 0);
    let tall = Aabb::new(
        Interval::new(0, 10),
        Interval::new(0, 10),
        Interval::new(0, 30),
    );
    assert_eq!(tall.longest_axis(), 2);
}

#[test]
fn point_arithmetic() {
    let p = Point3d::new(5000, 3000, 1000);
    let q = Point3d::new(1000, 1000, 1000);
    let d = p.sub(q);
    assert_eq!(d.0, Vec3d { x: 4000, y: 2000, z: 0 });
    assert_eq!(p.as_vec3d(), Vec3d { x: 5000, y: 3000, z: 1000 });
}
