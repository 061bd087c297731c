//! Surfaces a ray can strike: spheres, flat lists scanned linearly, and
//! the nodes of a bounding-volume tree. Every `hit` is proved equal to a
//! spec mirror written in exact integer arithmetic, and a hit record's
//! fields are kept within the bounds the shading code relies on.
//!
//! A sphere consults its own bounding box before solving the quadratic,
//! so a box miss refutes the sphere; that is what lets a tree node's box
//! prune a whole subtree soundly.
use vstd::prelude::*;
use crate::aabb::{box_finite, box_hit_s, box_nonempty, box_subset, Aabb, BOX_BOUND};
use crate::fixed::{
    abs_i, div_fx, div_fx_s, lemma_mul_fx_bound, mul_fx, mul_fx_s, sqrt_fx, sqrt_fx_s,
};
use crate::interval::{max_i, min_i, Interval};
use crate::ray::{at_s, Ray};
use crate::vec3d::{bounded, dot_s, is_zero, scale_s, sub_s, v3, Point3d, Vec3d};

verus! {

/// Where and how a ray struck a surface; the normal always faces the ray.
#[derive(Debug, PartialEq, Eq, Structural, Clone, Copy)]
pub struct HitRecord {
    pub point: Point3d,
    pub normal: Vec3d,
    pub t: i64,
    pub front_face: bool,
}

/// A sphere whose center moves linearly over the exposure; static spheres
/// carry a zero motion. The material is a handle into the scene's arena.
#[derive(Debug, PartialEq, Eq, Structural, Clone, Copy)]
pub struct Sphere {
    pub center: Ray,
    pub radius: i64,
    pub material: usize,
    pub bbox: Aabb,
}

/// An ordered collection scanned linearly; its box is the union of its
/// children's boxes, grown on every insert.
pub struct HittableList {
    pub objects: Vec<Hittable>,
    pub bbox: Aabb,
}

/// One node of the bounding-volume tree.
pub struct BvhNode {
    pub left: Box<Hittable>,
    pub right: Box<Hittable>,
    pub bbox: Aabb,
}

pub enum Hittable {
    Sphere(Sphere),
    List(HittableList),
    BvhNode(BvhNode),
}

/// Coordinate bounds a ray must satisfy before intersection runs.
pub open spec fn ray_wf(r: Ray) -> bool {
    &&& bounded(r.origin.0, 2_097_152)
    &&& bounded(r.direction, 2_097_152)
    &&& 0 <= r.tm <= 1000
}

/// What every produced hit record satisfies.
pub open spec fn hr_wf(hr: HitRecord) -> bool {
    &&& bounded(hr.point.0, 2_097_152)
    &&& bounded(hr.normal, 2000)
    &&& !is_zero(hr.normal)
    &&& abs_i(hr.t as int) <= 4_000_000_000
}

pub open spec fn sphere_wf(s: Sphere) -> bool {
    &&& bounded(s.center.origin.0, 524_288)
    &&& bounded(s.center.direction, 1_048_576)
    &&& 0 <= s.radius <= 1_048_576
    &&& 0 <= s.center.tm <= 1000
    &&& box_finite(s.bbox, BOX_BOUND as int)
    &&& box_nonempty(s.bbox)
}

/// The box a surface reports without being probed.
pub open spec fn bbox_of(h: Hittable) -> Aabb {
    match h {
        Hittable::Sphere(s) => s.bbox,
        Hittable::List(l) => l.bbox,
        Hittable::BvhNode(n) => n.bbox,
    }
}

/// Well-formedness of a surface: coordinates in bounds, and every
/// aggregate's box containing the boxes of everything under it.
pub open spec fn hittable_wf(h: Hittable) -> bool
    decreases h,
{
    match h {
        Hittable::Sphere(s) => sphere_wf(s),
        Hittable::List(l) => list_wf(l),
        Hittable::BvhNode(n) => node_wf(n),
    }
}

pub open spec fn seq_wf(s: Seq<Hittable>) -> bool
    decreases s,
{
    s.len() == 0 || (hittable_wf(s[0]) && seq_wf(s.drop_first()))
}

pub open spec fn seq_boxes_in(s: Seq<Hittable>, outer: Aabb) -> bool {
    forall|i: int| 0 <= i < s.len() ==> box_subset(bbox_of(#[trigger] s[i]), outer)
}

/// The box of an aggregate: finite and modest, or still the empty
/// sentinel before anything was added.
pub open spec fn wf_box(b: Aabb) -> bool {
    box_finite(b, BOX_BOUND as int) || b == (Aabb {
        x: Interval { min: i64::MAX, max: i64::MIN },
        y: Interval { min: i64::MAX, max: i64::MIN },
        z: Interval { min: i64::MAX, max: i64::MIN },
    })
}

pub open spec fn list_wf(l: HittableList) -> bool
    decreases l,
{
    &&& wf_box(l.bbox)
    &&& seq_wf(l.objects@)
    &&& seq_boxes_in(l.objects@, l.bbox)
}

pub open spec fn node_wf(n: BvhNode) -> bool
    decreases n,
{
    &&& hittable_wf(*n.left)
    &&& hittable_wf(*n.right)
    &&& box_subset(bbox_of(*n.left), n.bbox)
    &&& box_subset(bbox_of(*n.right), n.bbox)
    &&& box_finite(n.bbox, BOX_BOUND as int)
}

/// The sphere intersection mirror: consult the stored box, solve the
/// reduced quadratic, take the nearest admissible root, and refuse the
/// handful of rounding-degenerate outcomes instead of producing
/// nonsense. The box consultation is deliberate and part of the
/// specified behavior: a box miss refutes the sphere without touching
/// the quadratic, which is exactly what lets a tree node's box prune a
/// whole subtree soundly in rounded arithmetic. The cost is that a
/// quadratic root which the rounded slab test cannot confirm is
/// reported as a miss.
pub open spec fn sphere_hit_s(s: Sphere, r: Ray, tmin: int, tmax: int) -> Option<HitRecord> {
    if !box_hit_s(s.bbox, r.origin.0, r.direction, tmin, tmax) {
        None
    } else if s.radius <= 0 {
        None
    } else {
        let cc = at_s(s.center, r.tm as int).0;
        let oc = sub_s(cc, r.origin.0);
        let a = dot_s(r.direction, r.direction);
        let h = dot_s(r.direction, oc);
        let c = dot_s(oc, oc) - mul_fx_s(s.radius as int, s.radius as int);
        let disc = mul_fx_s(h, h) - mul_fx_s(a, c);
        if disc < 0 || a == 0 {
            None
        } else {
            let dsqrt = sqrt_fx_s(disc);
            let root1 = div_fx_s(h - dsqrt, a);
            let root = if tmin < root1 && root1 < tmax {
                root1
            } else {
                div_fx_s(h + dsqrt, a)
            };
            if !(tmin < root && root < tmax) {
                None
            } else if abs_i(root) > 4_000_000_000 {
                None
            } else {
                let p = at_s(r, root);
                if !bounded(p.0, 2_097_152) {
                    None
                } else {
                    let on = v3(
                        div_fx_s(p.0.x - cc.x, s.radius as int),
                        div_fx_s(p.0.y - cc.y, s.radius as int),
                        div_fx_s(p.0.z - cc.z, s.radius as int),
                    );
                    if !bounded(on, 2000) {
                        None
                    } else if is_zero(on) {
                        None
                    } else {
                        let ff = dot_s(r.direction, on) < 0;
                        let n = if ff {
                            on
                        } else {
                            scale_s(on, -1000)
                        };
                        Some(HitRecord { point: p, normal: n, t: root as i64, front_face: ff })
                    }
                }
            }
        }
    }
}

/// A sphere hit paired with the sphere's material handle.
pub open spec fn sphere_hit_full_s(s: Sphere, r: Ray, tmin: int, tmax: int) -> Option<
    (HitRecord, usize),
> {
    match sphere_hit_s(s, r, tmin, tmax) {
        None => None,
        Some(hr) => Some((hr, s.material)),
    }
}

/// The hit mirror for any surface.
pub open spec fn hittable_hit_s(h: Hittable, r: Ray, tmin: int, tmax: int) -> Option<
    (HitRecord, usize),
>
    decreases h,
{
    match h {
        Hittable::Sphere(s) => sphere_hit_full_s(s, r, tmin, tmax),
        Hittable::List(l) => scan_hit_s(l.objects@, r, tmin, tmax),
        Hittable::BvhNode(n) => if !box_hit_s(n.bbox, r.origin.0, r.direction, tmin, tmax) {
            None
        } else {
            match hittable_hit_s(*n.left, r, tmin, tmax) {
                Some((hl, ml)) => match hittable_hit_s(*n.right, r, tmin, hl.t as int) {
                    Some(pr) => Some(pr),
                    None => Some((hl, ml)),
                },
                None => hittable_hit_s(*n.right, r, tmin, tmax),
            }
        },
    }
}

/// The linear scan mirror: probe in order, narrowing the window to the
/// closest hit so far; the last accepted hit is the closest.
pub open spec fn scan_hit_s(s: Seq<Hittable>, r: Ray, tmin: int, tmax: int) -> Option<
    (HitRecord, usize),
>
    decreases s,
{
    if s.len() == 0 {
        None
    } else {
        match hittable_hit_s(s[0], r, tmin, tmax) {
            Some((h0, m0)) => match scan_hit_s(s.drop_first(), r, tmin, h0.t as int) {
                Some(p) => Some(p),
                None => Some((h0, m0)),
            },
            None => scan_hit_s(s.drop_first(), r, tmin, tmax),
        }
    }
}

impl HitRecord {
    /// Orients the stored normal against the incoming ray and records
    /// which side was struck.
    pub fn set_face_normal(&mut self, r: &Ray, outward_normal: Vec3d)
        requires
            bounded(r.direction, 2_097_152),
            bounded(outward_normal, 2000),
        ensures
            final(self).front_face == (dot_s(r.direction, outward_normal) < 0),
            final(self).normal == if dot_s(r.direction, outward_normal) < 0 {
                outward_normal
            } else {
                scale_s(outward_normal, -1000)
            },
            final(self).point == old(self).point,
            final(self).t == old(self).t,
    {
        self.front_face = Vec3d::dot(&r.direction, &outward_normal) < 0;
        self.normal = if self.front_face {
            outward_normal
        } else {
            proof {
                crate::vec3d::lemma_scale_minus_one(outward_normal);
            }
            Vec3d::mul(&outward_normal, -1000)
        };
    }
}

impl Sphere {
    /// A static sphere: both endpoints of the center motion coincide, so
    /// the box is the center plus and minus the radius on each axis.
    pub fn new(center: Point3d, radius: i64, material: usize) -> (r: Sphere)
        requires
            bounded(center.0, 524_288),
            0 <= radius <= 1_048_576,
        ensures
            sphere_wf(r),
            r.center.origin == center,
            r.center.direction == (Vec3d { x: 0i64, y: 0i64, z: 0i64 }),
            r.radius == radius,
            r.material == material,
            r.bbox.x.min == center.0.x - radius,
            r.bbox.x.max == center.0.x + radius,
            r.bbox.y.min == center.0.y - radius,
            r.bbox.y.max == center.0.y + radius,
            r.bbox.z.min == center.0.z - radius,
            r.bbox.z.max == center.0.z + radius,
    {
        Self::new_dynamic(center.clone(), center, radius, material)
    }

    /// A sphere whose center moves from one point to another over the
    /// exposure; the box is the union of the radius-sized boxes around
    /// the two end positions, which covers every center between them.
    #[verifier::rlimit(100)]
    pub fn new_dynamic(center: Point3d, center2: Point3d, radius: i64, material: usize) -> (res:
        Sphere)
        requires
            bounded(center.0, 524_288),
            bounded(center2.0, 524_288),
            0 <= radius <= 1_048_576,
        ensures
            sphere_wf(res),
            res.center.origin == center,
            res.center.direction == sub_s(center2.0, center.0),
            res.radius == radius,
            res.material == material,
            res.bbox.x.min == min_i(center.0.x - radius, center2.0.x - radius),
            res.bbox.x.max == max_i(center.0.x + radius, center2.0.x + radius),
            res.bbox.y.min == min_i(center.0.y - radius, center2.0.y - radius),
            res.bbox.y.max == max_i(center.0.y + radius, center2.0.y + radius),
            res.bbox.z.min == min_i(center.0.z - radius, center2.0.z - radius),
            res.bbox.z.max == max_i(center.0.z + radius, center2.0.z + radius),
    {
        let d = Vec3d::sub(&center2.as_vec3d(), &center.as_vec3d());
        let rvec = Vec3d::new(radius, radius, radius);
        let center_ray = Ray::new(center, d, None);
        proof {
            lemma_at_small(center_ray, 0);
            lemma_at_small(center_ray, 1000);
        }
        let c0 = center_ray.at(0);
        let c1 = center_ray.at(1000);
        proof {
            crate::fixed::lemma_mul_zero(d.x as int);
            crate::fixed::lemma_mul_zero(d.y as int);
            crate::fixed::lemma_mul_zero(d.z as int);
            crate::fixed::lemma_mul_unit(d.x as int);
            crate::fixed::lemma_mul_unit(d.y as int);
            crate::fixed::lemma_mul_unit(d.z as int);
            assert(c0.0 == center.0);
            assert(c1.0 == center2.0);
        }
        let box1 = Aabb::from_points(
            &Point3d::from_vec3d(Vec3d::sub(&c0.0, &rvec)),
            &Point3d::from_vec3d(Vec3d::add(&c0.0, &rvec)),
        );
        let box2 = Aabb::from_points(
            &Point3d::from_vec3d(Vec3d::sub(&c1.0, &rvec)),
            &Point3d::from_vec3d(Vec3d::add(&c1.0, &rvec)),
        );
        let bbox = Aabb::from_boxes(box1, box2);
        Sphere { center: center_ray, radius, material, bbox }
    }

    pub fn bounding_box(&self) -> (r: Aabb)
        ensures
            r == self.bbox,
    {
        self.bbox
    }

    /// The nearest intersection strictly inside the window, if any. The
    /// stored bounding box is consulted first — see `sphere_hit_s` for
    /// why that precheck is load-bearing.
    #[verifier::rlimit(100)]
    pub fn hit(&self, r: &Ray, ray_t: Interval) -> (res: Option<(HitRecord, usize)>)
        requires
            sphere_wf(*self),
            ray_wf(*r),
        ensures
            res == sphere_hit_full_s(*self, *r, ray_t.min as int, ray_t.max as int),
    {
        if !self.bbox.hit(r, ray_t) {
            return None;
        }
        if self.radius <= 0 {
            return None;
        }
        proof {
            lemma_at_small(self.center, r.tm as int);
        }
        let current_center = self.center.at(r.tm);
        let oc = Vec3d::sub(&current_center.0, &r.origin.0);
        let a = r.direction.length_squared();
        let h = Vec3d::dot(&r.direction, &oc);
        proof {
            lemma_dot_bound(r.direction, r.direction, 2_097_152, 2_097_152);
            lemma_dot_bound(r.direction, oc, 2_097_152, 3_670_016);
            lemma_dot_bound(oc, oc, 3_670_016, 3_670_016);
            lemma_mul_fx_bound(self.radius as int, self.radius as int, 1_048_576, 1_048_576);
        }
        let c = oc.length_squared() - mul_fx(self.radius, self.radius);
        proof {
            lemma_mul_fx_bound(h as int, h as int, 23_200_000_000, 23_200_000_000);
            lemma_mul_fx_bound(a as int, c as int, 13_200_000_000, 41_500_000_000);
        }
        let disc = mul_fx(h, h) - mul_fx(a, c);
        if disc < 0 || a == 0 {
            return None;
        }
        proof {
            assert(1_500_000_000_000_000_000int * 1000 <= 40_000_000_000int * 40_000_000_000)
                by (nonlinear_arith);
            crate::vec3d::lemma_sqrt_le(disc as int, 40_000_000_000);
        }
        let dsqrt = sqrt_fx(disc);
        let mut root = div_fx(h - dsqrt, a);
        if !ray_t.surrounds(root) {
            root = div_fx(h + dsqrt, a);
            if !ray_t.surrounds(root) {
                return None;
            }
        }
        if root > 4_000_000_000 || root < -4_000_000_000 {
            return None;
        }
        let p = r.at(root);
        if p.0.x > 2_097_152 || p.0.x < -2_097_152 || p.0.y > 2_097_152 || p.0.y < -2_097_152
            || p.0.z > 2_097_152 || p.0.z < -2_097_152 {
            return None;
        }
        let on = Vec3d {
            x: div_fx(p.0.x - current_center.0.x, self.radius),
            y: div_fx(p.0.y - current_center.0.y, self.radius),
            z: div_fx(p.0.z - current_center.0.z, self.radius),
        };
        if on.x > 2000 || on.x < -2000 || on.y > 2000 || on.y < -2000 || on.z > 2000 || on.z
            < -2000 {
            return None;
        }
        if on.x == 0 && on.y == 0 && on.z == 0 {
            return None;
        }
        let mut hr = HitRecord {
            t: root,
            point: p,
            normal: Vec3d::new(0, 0, 0),
            front_face: false,
        };
        hr.set_face_normal(r, on);
        Some((hr, self.material))
    }
}

/// A center ray stays within three coordinate units of bound for any
/// exposure time.
proof fn lemma_at_small(c: Ray, t: int)
    requires
        bounded(c.origin.0, 524_288),
        bounded(c.direction, 1_048_576),
        0 <= t <= 1000,
    ensures
        bounded(at_s(c, t).0, 1_572_864),
{
    lemma_mul_fx_bound(c.direction.x as int, t, 1_048_576, 1000);
    lemma_mul_fx_bound(c.direction.y as int, t, 1_048_576, 1000);
    lemma_mul_fx_bound(c.direction.z as int, t, 1_048_576, 1000);
}

/// Componentwise products bound a dot product by three of their bounds.
proof fn lemma_dot_bound(a: Vec3d, b: Vec3d, ba: int, bb: int)
    requires
        bounded(a, ba),
        bounded(b, bb),
        0 <= ba,
        0 <= bb,
    ensures
        abs_i(dot_s(a, b)) <= 3 * (ba * bb / 1000),
{
    lemma_mul_fx_bound(a.x as int, b.x as int, ba, bb);
    lemma_mul_fx_bound(a.y as int, b.y as int, ba, bb);
    lemma_mul_fx_bound(a.z as int, b.z as int, ba, bb);
}

impl HittableList {
    /// A list holding one surface; the box starts empty and grows.
    pub fn new(o: Hittable) -> (r: HittableList)
        requires
            hittable_wf(o),
        ensures
            list_wf(r),
            r.objects@.len() == 1,
            r.objects@[0] == o,
            r.bbox == bbox_of(o),
    {
        let mut hl = HittableList { objects: Vec::new(), bbox: Aabb::empty() };
        proof {
            assert(seq_wf(hl.objects@));
        }
        hl.add(o);
        proof {
            assert(min_i(i64::MAX as int, bbox_of(o).x.min as int) == bbox_of(o).x.min as int);
            assert(hl.bbox == bbox_of(o));
        }
        hl
    }

    /// Appends a surface and grows the box to keep covering everything.
    pub fn add(&mut self, o: Hittable)
        requires
            list_wf(*old(self)),
            hittable_wf(o),
        ensures
            list_wf(*final(self)),
            final(self).objects@ == old(self).objects@.push(o),
            final(self).bbox == union_box(old(self).bbox, bbox_of(o)),
    {
        let ob = match &o {
            Hittable::Sphere(s) => s.bbox,
            Hittable::List(l) => l.bbox,
            Hittable::BvhNode(n) => n.bbox,
        };
        self.bbox = Aabb::from_boxes(self.bbox, ob);
        let ghost olds = self.objects@;
        self.objects.push(o);
        proof {
            lemma_seq_wf_push(olds, o);
            assert(self.objects@.drop_last() =~= olds);
        }
    }

    pub fn bounding_box(&self) -> (r: Aabb)
        ensures
            r == self.bbox,
    {
        self.bbox
    }

    /// The closest hit among the children, by linear scan.
    pub fn hit(&self, r: &Ray, ray_t: Interval) -> (res: Option<(HitRecord, usize)>)
        requires
            list_wf(*self),
            ray_wf(*r),
        ensures
            res == scan_hit_s(self.objects@, *r, ray_t.min as int, ray_t.max as int),
        decreases self.objects@,
    {
        let ghost s = self.objects@;
        let mut best: Option<(HitRecord, usize)> = None;
        let mut closest: i64 = ray_t.max;
        let mut i: usize = 0;
        proof {
            assert(s.take(0) =~= Seq::<Hittable>::empty());
        }
        while i < self.objects.len()
            invariant
                list_wf(*self),
                ray_wf(*r),
                s == self.objects@,
                0 <= i <= s.len(),
                best == scan_hit_s(s.take(i as int), *r, ray_t.min as int, ray_t.max as int),
                closest as int == match best {
                    Some((h0, _)) => h0.t as int,
                    None => ray_t.max as int,
                },
            decreases s.len() - i,
        {
            proof {
                lemma_seq_wf_index(s, i as int);
            }
            let o = &self.objects[i];
            let res_i = o.hit(r, Interval { min: ray_t.min, max: closest });
            proof {
                lemma_scan_take_step(s, i as int, *r, ray_t.min as int, ray_t.max as int);
            }
            if let Some((hr, m)) = res_i {
                closest = hr.t;
                best = Some((hr, m));
            }
            i = i + 1;
        }
        proof {
            assert(s.take(s.len() as int) =~= s);
        }
        best
    }
}

impl BvhNode {
    pub fn bounding_box(&self) -> (r: Aabb)
        ensures
            r == self.bbox,
    {
        self.bbox
    }

    /// Probe the nearer child over the full window, then the other child
    /// only closer than what the first produced.
    pub fn hit(&self, r: &Ray, ray_t: Interval) -> (res: Option<(HitRecord, usize)>)
        requires
            node_wf(*self),
            ray_wf(*r),
        ensures
            res == (if !box_hit_s(self.bbox, r.origin.0, r.direction, ray_t.min as int, ray_t.max as int) {
                None
            } else {
                match hittable_hit_s(*self.left, *r, ray_t.min as int, ray_t.max as int) {
                    Some((hl, ml)) => match hittable_hit_s(*self.right, *r, ray_t.min as int, hl.t as int) {
                        Some(pr) => Some(pr),
                        None => Some((hl, ml)),
                    },
                    None => hittable_hit_s(*self.right, *r, ray_t.min as int, ray_t.max as int),
                }
            }),
        decreases *self,
    {
        if !self.bbox.hit(r, ray_t) {
            return None;
        }
        if let Some((hr_l, mat_l)) = self.left.hit(r, ray_t) {
            if let Some((hr_r, mat_r)) = self.right.hit(r, Interval::new(ray_t.min, hr_l.t)) {
                Some((hr_r, mat_r))
            } else {
                Some((hr_l, mat_l))
            }
        } else {
            if let Some((hr_r, mat_r)) = self.right.hit(r, Interval::new(ray_t.min, ray_t.max)) {
                Some((hr_r, mat_r))
            } else {
                None
            }
        }
    }
}

impl Hittable {
    pub fn hit(&self, r: &Ray, ray_t: Interval) -> (res: Option<(HitRecord, usize)>)
        requires
            hittable_wf(*self),
            ray_wf(*r),
        ensures
            res == hittable_hit_s(*self, *r, ray_t.min as int, ray_t.max as int),
        decreases *self,
    {
        match self {
            Hittable::Sphere(sphere) => sphere.hit(r, ray_t),
            Hittable::List(list) => list.hit(r, ray_t),
            Hittable::BvhNode(bvh_node) => bvh_node.hit(r, ray_t),
        }
    }

    pub fn bounding_box(&self) -> (r: Aabb)
        ensures
            r == bbox_of(*self),
    {
        match self {
            Hittable::Sphere(sphere) => sphere.bounding_box(),
            Hittable::List(list) => list.bounding_box(),
            Hittable::BvhNode(bvh_node) => bvh_node.bounding_box(),
        }
    }
}

/// The union box, as `Aabb::from_boxes` computes it.
pub open spec fn union_box(a: Aabb, b: Aabb) -> Aabb {
    Aabb {
        x: Interval {
            min: crate::interval::min_i(a.x.min as int, b.x.min as int) as i64,
            max: crate::interval::max_i(a.x.max as int, b.x.max as int) as i64,
        },
        y: Interval {
            min: crate::interval::min_i(a.y.min as int, b.y.min as int) as i64,
            max: crate::interval::max_i(a.y.max as int, b.y.max as int) as i64,
        },
        z: Interval {
            min: crate::interval::min_i(a.z.min as int, b.z.min as int) as i64,
            max: crate::interval::max_i(a.z.max as int, b.z.max as int) as i64,
        },
    }
}

/// Each element of a well-formed sequence is well formed.
pub proof fn lemma_seq_wf_index(s: Seq<Hittable>, i: int)
    requires
        seq_wf(s),
        0 <= i < s.len(),
    ensures
        hittable_wf(s[i]),
    decreases s,
{
    if i > 0 {
        lemma_seq_wf_index(s.drop_first(), i - 1);
    }
}

/// Appending a well-formed element keeps a sequence well formed.
pub proof fn lemma_seq_wf_push(s: Seq<Hittable>, x: Hittable)
    requires
        seq_wf(s),
        hittable_wf(x),
    ensures
        seq_wf(s.push(x)),
    decreases s,
{
    if s.len() == 0 {
        assert(s.push(x)[0] == x);
        assert(s.push(x).drop_first() =~= Seq::<Hittable>::empty());
        assert(seq_wf(Seq::<Hittable>::empty()));
        assert(seq_wf(s.push(x)));
    } else {
        assert(s.push(x)[0] == s[0]);
        assert(hittable_wf(s[0]));
        assert(s.push(x).drop_first() =~= s.drop_first().push(x));
        lemma_seq_wf_push(s.drop_first(), x);
        assert(seq_wf(s.push(x).drop_first()));
        assert(seq_wf(s.push(x)));
    }
}

/// How a scan over one more element relates to the scan before it.
pub proof fn lemma_scan_push(s: Seq<Hittable>, x: Hittable, r: Ray, tmin: int, tmax: int)
    ensures
        scan_hit_s(s.push(x), r, tmin, tmax) == (match scan_hit_s(s, r, tmin, tmax) {
            Some((h0, m0)) => match hittable_hit_s(x, r, tmin, h0.t as int) {
                Some(p) => Some(p),
                None => Some((h0, m0)),
            },
            None => hittable_hit_s(x, r, tmin, tmax),
        }),
    decreases s,
{
    if s.len() == 0 {
        assert(s.push(x)[0] == x);
        assert(s.push(x).drop_first() =~= Seq::<Hittable>::empty());
        assert(scan_hit_s(s, r, tmin, tmax) is None);
        match hittable_hit_s(x, r, tmin, tmax) {
            Some((h0, m0)) => {
                assert(scan_hit_s(s.push(x).drop_first(), r, tmin, h0.t as int) is None);
                assert(scan_hit_s(s.push(x), r, tmin, tmax) == Some((h0, m0)));
            },
            None => {
                assert(scan_hit_s(s.push(x).drop_first(), r, tmin, tmax) is None);
                assert(scan_hit_s(s.push(x), r, tmin, tmax) is None);
            },
        }
    } else {
        assert(s.push(x)[0] == s[0]);
        assert(s.push(x).drop_first() =~= s.drop_first().push(x));
        match hittable_hit_s(s[0], r, tmin, tmax) {
            Some((h0, m0)) => {
                lemma_scan_push(s.drop_first(), x, r, tmin, h0.t as int);
                assert(scan_hit_s(s.push(x), r, tmin, tmax) == (match scan_hit_s(
                    s.drop_first().push(x),
                    r,
                    tmin,
                    h0.t as int,
                ) {
                    Some(p) => Some(p),
                    None => Some((h0, m0)),
                }));
            },
            None => {
                lemma_scan_push(s.drop_first(), x, r, tmin, tmax);
                assert(scan_hit_s(s.push(x), r, tmin, tmax) == scan_hit_s(
                    s.drop_first().push(x),
                    r,
                    tmin,
                    tmax,
                ));
            },
        }
    }
}

/// One loop step of the linear scan, stated over prefixes.
proof fn lemma_scan_take_step(s: Seq<Hittable>, i: int, r: Ray, tmin: int, tmax: int)
    requires
        0 <= i < s.len(),
    ensures
        scan_hit_s(s.take(i + 1), r, tmin, tmax) == (match scan_hit_s(s.take(i), r, tmin, tmax) {
            Some((h0, m0)) => match hittable_hit_s(s[i], r, tmin, h0.t as int) {
                Some(p) => Some(p),
                None => Some((h0, m0)),
            },
            None => hittable_hit_s(s[i], r, tmin, tmax),
        }),
{
    assert(s.take(i + 1) =~= s.take(i).push(s[i]));
    lemma_scan_push(s.take(i), s[i], r, tmin, tmax);
}


/// Re-probing a sphere strictly closer than its own reported hit finds
/// nothing: the nearer quadratic root is already the one reported.
pub proof fn lemma_sphere_renarrow(s: Sphere, r: Ray, tmin: int, tmax: int)
    ensures
        (match sphere_hit_s(s, r, tmin, tmax) {
            Some(hr) => sphere_hit_s(s, r, tmin, hr.t as int) is None,
            None => true,
        }),
{
    match sphere_hit_s(s, r, tmin, tmax) {
        Some(hr) => {
            let cc = at_s(s.center, r.tm as int).0;
            let oc = sub_s(cc, r.origin.0);
            let a = dot_s(r.direction, r.direction);
            let h = dot_s(r.direction, oc);
            let c = dot_s(oc, oc) - mul_fx_s(s.radius as int, s.radius as int);
            let disc = mul_fx_s(h, h) - mul_fx_s(a, c);
            let dsqrt = sqrt_fx_s(disc);
            let root1 = div_fx_s(h - dsqrt, a);
            let root2 = div_fx_s(h + dsqrt, a);
            crate::vec3d::lemma_dot_self_nonneg(r.direction);
            assert(a > 0);
            assert(disc >= 0);
            assert(dsqrt >= 0) by {
                crate::fixed::lemma_isqrt_props(disc * 1000);
                vstd::arithmetic::mul::lemma_mul_inequality(0, disc, 1000);
            }
            assert(root1 <= root2) by {
                vstd::arithmetic::mul::lemma_mul_inequality(h - dsqrt, h + dsqrt, 1000);
                crate::fixed::lemma_tdiv_mono((h - dsqrt) * 1000, (h + dsqrt) * 1000, a);
            }
            let root = if tmin < root1 && root1 < tmax {
                root1
            } else {
                root2
            };
            assert(hr.t as int == root);
            if box_hit_s(s.bbox, r.origin.0, r.direction, tmin, root) {
                if tmin < root1 && root1 < root {
                    assert(root == root2);
                    assert(!(tmin < root1 && root1 < tmax));
                    assert(root < tmax);
                    assert(false);
                }
                assert(!(tmin < root2 && root2 < root));
                assert(sphere_hit_s(s, r, tmin, root) is None);
            }
        },
        None => {
        },
    }
}

/// Whatever a sphere reports satisfies the record bounds and lies
/// strictly inside the asked window.
pub proof fn lemma_sphere_hit_props(s: Sphere, r: Ray, tmin: int, tmax: int)
    ensures
        (match sphere_hit_s(s, r, tmin, tmax) {
            Some(hr) => hr_wf(hr) && tmin < hr.t < tmax,
            None => true,
        }),
{
    match sphere_hit_s(s, r, tmin, tmax) {
        Some(hr) => {
            let cc = at_s(s.center, r.tm as int).0;
            let oc = sub_s(cc, r.origin.0);
            let a = dot_s(r.direction, r.direction);
            let h = dot_s(r.direction, oc);
            let c = dot_s(oc, oc) - mul_fx_s(s.radius as int, s.radius as int);
            let disc = mul_fx_s(h, h) - mul_fx_s(a, c);
            let dsqrt = sqrt_fx_s(disc);
            let root1 = div_fx_s(h - dsqrt, a);
            let root = if tmin < root1 && root1 < tmax {
                root1
            } else {
                div_fx_s(h + dsqrt, a)
            };
            let p = at_s(r, root);
            let on = v3(
                div_fx_s(p.0.x - cc.x, s.radius as int),
                div_fx_s(p.0.y - cc.y, s.radius as int),
                div_fx_s(p.0.z - cc.z, s.radius as int),
            );
            let ff = dot_s(r.direction, on) < 0;
            if !ff {
                crate::vec3d::lemma_scale_minus_one(on);
            }
            assert(hr_wf(hr));
        },
        None => {
        },
    }
}

/// Whatever any surface reports satisfies the record bounds and lies
/// strictly inside the asked window.
pub proof fn lemma_hit_props(h: Hittable, r: Ray, tmin: int, tmax: int)
    ensures
        (match hittable_hit_s(h, r, tmin, tmax) {
            Some(p) => hr_wf(p.0) && tmin < p.0.t < tmax,
            None => true,
        }),
    decreases h,
{
    match h {
        Hittable::Sphere(s) => {
            lemma_sphere_hit_props(s, r, tmin, tmax);
        },
        Hittable::List(l) => {
            lemma_scan_props(l.objects@, r, tmin, tmax);
        },
        Hittable::BvhNode(n) => {
            if box_hit_s(n.bbox, r.origin.0, r.direction, tmin, tmax) {
                lemma_hit_props(*n.left, r, tmin, tmax);
                match hittable_hit_s(*n.left, r, tmin, tmax) {
                    Some((hl, ml)) => {
                        lemma_hit_props(*n.right, r, tmin, hl.t as int);
                    },
                    None => {
                        lemma_hit_props(*n.right, r, tmin, tmax);
                    },
                }
            }
        },
    }
}

pub proof fn lemma_scan_props(s: Seq<Hittable>, r: Ray, tmin: int, tmax: int)
    ensures
        (match scan_hit_s(s, r, tmin, tmax) {
            Some(p) => hr_wf(p.0) && tmin < p.0.t < tmax,
            None => true,
        }),
    decreases s,
{
    if s.len() > 0 {
        lemma_hit_props(s[0], r, tmin, tmax);
        match hittable_hit_s(s[0], r, tmin, tmax) {
            Some((h0, m0)) => {
                lemma_scan_props(s.drop_first(), r, tmin, h0.t as int);
            },
            None => {
                lemma_scan_props(s.drop_first(), r, tmin, tmax);
            },
        }
    }
}

} // verus!
