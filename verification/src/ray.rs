//! A ray: origin, direction, and the time sample at which a moving
//! sphere's center is read.
use vstd::prelude::*;
use crate::fixed::{abs_i, lemma_mul_fx_bound};
use crate::vec3d::{add_s, bounded, scale_s, Point3d, Vec3d};

verus! {

#[derive(Debug, PartialEq, Eq, Structural, Clone, Copy)]
pub struct Ray {
    pub origin: Point3d,
    pub direction: Vec3d,
    pub tm: i64,
}

/// The point a parameter along a ray names.
pub open spec fn at_s(r: Ray, t: int) -> Point3d {
    Point3d(add_s(r.origin.0, scale_s(r.direction, t)))
}

impl Ray {
    pub fn new(origin: Point3d, direction: Vec3d, time: Option<i64>) -> (r: Ray)
        ensures
            r.origin == origin,
            r.direction == direction,
            r.tm == if let Some(t) = time {
                t as int
            } else {
                0
            },
    {
        Ray { origin, direction, tm: time.unwrap_or(0) }
    }

    pub fn at(&self, t: i64) -> (p: Point3d)
        requires
            bounded(self.origin.0, 0x1000000000000000),
            bounded(self.direction, 34_359_738_368),
            abs_i(t as int) <= 34_359_738_368,
        ensures
            p == at_s(*self, t as int),
    {
        proof {
            lemma_mul_fx_bound(
                self.direction.x as int,
                t as int,
                34_359_738_368,
                34_359_738_368,
            );
            lemma_mul_fx_bound(
                self.direction.y as int,
                t as int,
                34_359_738_368,
                34_359_738_368,
            );
            lemma_mul_fx_bound(
                self.direction.z as int,
                t as int,
                34_359_738_368,
                34_359_738_368,
            );
        }
        let p = Vec3d::add(&self.origin.0, &Vec3d::mul(&self.direction, t));
        Point3d(p)
    }
}

} // verus!
