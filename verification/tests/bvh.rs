use raytrace::hit_record::{BvhNode, Hittable, HittableList, Sphere};
use raytrace::interval::Interval;
use raytrace::ray::Ray;
use raytrace::vec3d::{Point3d, Vec3d};

fn sphere(x: i64, y: i64, z: i64, r: i64, m: usize) -> Hittable {
    Hittable::Sphere(Sphere::new(Point3d::new(x, y, z), r, m))
}

fn sample_world() -> HittableList {
    let mut w = HittableList::new(sphere(0, 0, -1000, 500, 0));
    w.add(sphere(1200, 0, -2000, 400, 1));
    w.add(sphere(-1500, 300, -1500, 350, 2));
    w.add(sphere(0, -100_500, -1000, 100_000, 3));
    w.add(sphere(300, 200, -800, 150, 4));
    w.add(sphere(-400, -100, -2500, 600, 5));
    w.add(sphere(2500, 2500, -3000, 700, 6));
    w
}

fn rays() -> Vec<Ray> {
    let mut v = Vec::new();
    let dirs = [
        (0, 0, -1000),
        (300, 100, -1000),
        (-400, -50, -900),
        (1000, 0, -1500),
        (-800, 200, -1000),
        (50, -500, -1000),
        (900, 900, -1100),
        (0, 1000, 0),
    ];
    for (i, d) in dirs.iter().enumerate() {
        let o = ((i as i64) * 37 - 100, (i as i64) * 11, (i as i64) * 5);
        v.push(Ray::new(Point3d::new(o.0, o.1, o.2), Vec3d::new(d.0, d.1, d.2), None));
    }
    v
}

/// The tree and the flat scan must report the same closest hit.
#[test]
fn bvh_matches_linear_scan() {
    let world = sample_world();
    let root = BvhNode::new(&world);
    let tree = Hittable::BvhNode(root);
    for r in rays() {
        let window = Interval::new(1, i64::MAX);
        let flat = world.hit(&r, window);
        let fast = tree.hit(&r, window);
        match (&flat, &fast) {
            (None, None) => {}
            (Some((a, ma)), Some((b, mb))) => {
                assert_eq!(a.t, b.t);
                assert_eq!(a.point, b.point);
                assert_eq!(a.normal, b.normal);
                assert_eq!(a.front_face, b.front_face);
                assert_eq!(ma, mb);
            }
            _ => panic!("tree and scan disagree"),
        }
    }
}

#[test]
fn bvh_single_sphere() {
    let world = HittableList::new(sphere(0, 0, -1000, 500, 9));
    let root = BvhNode::new(&world);
    let tree = Hittable::BvhNode(root);
    let r = Ray::new(Point3d::new(0, 0, 0), Vec3d::new(0, 0, -1000), None);
    let hit = tree.hit(&r, Interval::new(1, i64::MAX)).expect("must hit");
    assert_eq!(hit.0.t, 500);
    assert_eq!(hit.1, 9);
}

#[test]
fn bvh_box_covers_children() {
    let world = sample_world();
    let root = BvhNode::new(&world);
    let b = root.bounding_box();
    // Every sphere's box must sit inside the root box.
    for o in world.objects.iter() {
        let ob = o.bounding_box();
        assert!(b.x.min <= ob.x.min && ob.x.max <= b.x.max);
        assert!(b.y.min <= ob.y.min && ob.y.max <= b.y.max);
        assert!(b.z.min <= ob.z.min && ob.z.max <= b.z.max);
    }
}
