//! Axis-aligned bounding boxes: three per-axis ranges, their unions, and
//! the slab intersection test. A zero direction component is handled
//! explicitly: such a ray meets the slab exactly when its origin lies
//! between the planes. The monotonicity lemmas here say that growing the
//! box or the parameter window never turns a hit into a miss; they are
//! what makes pruning by a parent box sound.
use vstd::prelude::*;
use crate::fixed::{abs_i, div_fx, div_fx_s, lemma_tdiv_mono, tdiv};
use crate::interval::{max_i, min_i, Interval};
use crate::ray::Ray;
use crate::vec3d::{bounded, Vec3d};

verus! {

#[derive(Debug, PartialEq, Eq, Structural, Clone, Copy)]
pub struct Aabb {
    pub x: Interval,
    pub y: Interval,
    pub z: Interval,
}

/// Endpoint magnitude accepted by the slab test.
pub const BOX_BOUND: i64 = 8_388_608;

pub open spec fn itv_finite(i: Interval, b: int) -> bool {
    abs_i(i.min as int) <= b && abs_i(i.max as int) <= b
}

pub open spec fn box_finite(b: Aabb, bound: int) -> bool {
    itv_finite(b.x, bound) && itv_finite(b.y, bound) && itv_finite(b.z, bound)
}

pub open spec fn box_nonempty(b: Aabb) -> bool {
    b.x.min <= b.x.max && b.y.min <= b.y.max && b.z.min <= b.z.max
}

/// Componentwise containment of one box in another.
pub open spec fn box_subset(inner: Aabb, outer: Aabb) -> bool {
    &&& outer.x.min <= inner.x.min && inner.x.max <= outer.x.max
    &&& outer.y.min <= inner.y.min && inner.y.max <= outer.y.max
    &&& outer.z.min <= inner.z.min && inner.z.max <= outer.z.max
}

/// One axis of the slab test: the narrowed parameter window, or nothing
/// when a parallel ray starts outside the slab.
pub open spec fn slab_axis_s(lo: int, hi: int, o: int, d: int, tmin: int, tmax: int) -> Option<
    (int, int),
> {
    if d == 0 {
        if lo <= o && o <= hi {
            Some((tmin, tmax))
        } else {
            None
        }
    } else {
        let t0 = div_fx_s(lo - o, d);
        let t1 = div_fx_s(hi - o, d);
        let a = min_i(t0, t1);
        let b = max_i(t0, t1);
        Some((max_i(tmin, a), min_i(tmax, b)))
    }
}

/// The whole slab test, shrinking the window axis by axis and failing as
/// soon as it empties.
pub open spec fn box_hit_s(bx: Aabb, o: Vec3d, d: Vec3d, tmin: int, tmax: int) -> bool {
    match slab_axis_s(bx.x.min as int, bx.x.max as int, o.x as int, d.x as int, tmin, tmax) {
        None => false,
        Some(w1) => if w1.1 <= w1.0 {
            false
        } else {
            match slab_axis_s(
                bx.y.min as int,
                bx.y.max as int,
                o.y as int,
                d.y as int,
                w1.0,
                w1.1,
            ) {
                None => false,
                Some(w2) => if w2.1 <= w2.0 {
                    false
                } else {
                    match slab_axis_s(
                        bx.z.min as int,
                        bx.z.max as int,
                        o.z as int,
                        d.z as int,
                        w2.0,
                        w2.1,
                    ) {
                        None => false,
                        Some(w3) => w3.0 < w3.1,
                    }
                },
            }
        },
    }
}

/// The split axis a box asks for: its widest extent, ties resolved in
/// axis order.
pub open spec fn longest_axis_s(b: Aabb) -> int {
    let sx = b.x.max - b.x.min;
    let sy = b.y.max - b.y.min;
    let sz = b.z.max - b.z.min;
    if sx >= sy && sx >= sz {
        0
    } else if sy >= sz {
        1
    } else {
        2
    }
}

impl Aabb {
    pub fn default() -> (r: Aabb)
        ensures
            r.x == (Interval { min: i64::MIN, max: i64::MAX }),
            r.y == (Interval { min: i64::MIN, max: i64::MAX }),
            r.z == (Interval { min: i64::MIN, max: i64::MAX }),
    {
        Aabb { x: Interval::default(), y: Interval::default(), z: Interval::default() }
    }

    /// The identity of a union: every axis range is empty.
    pub fn empty() -> (r: Aabb)
        ensures
            r.x == (Interval { min: i64::MAX, max: i64::MIN }),
            r.y == (Interval { min: i64::MAX, max: i64::MIN }),
            r.z == (Interval { min: i64::MAX, max: i64::MIN }),
    {
        Aabb { x: Interval::empty(), y: Interval::empty(), z: Interval::empty() }
    }

    pub fn new(x: Interval, y: Interval, z: Interval) -> (r: Aabb)
        ensures
            r.x == x,
            r.y == y,
            r.z == z,
    {
        Aabb {
            x: Interval { min: x.min, max: x.max },
            y: Interval { min: y.min, max: y.max },
            z: Interval { min: z.min, max: z.max },
        }
    }

    /// The box spanned by two opposite corners, in either order.
    pub fn from_points(a: &crate::vec3d::Point3d, b: &crate::vec3d::Point3d) -> (r: Aabb)
        ensures
            r.x.min == min_i(a.0.x as int, b.0.x as int),
            r.x.max == max_i(a.0.x as int, b.0.x as int),
            r.y.min == min_i(a.0.y as int, b.0.y as int),
            r.y.max == max_i(a.0.y as int, b.0.y as int),
            r.z.min == min_i(a.0.z as int, b.0.z as int),
            r.z.max == max_i(a.0.z as int, b.0.z as int),
            box_nonempty(r),
    {
        Aabb::new(
            if a.0.x <= b.0.x {
                Interval::new(a.0.x, b.0.x)
            } else {
                Interval::new(b.0.x, a.0.x)
            },
            if a.0.y <= b.0.y {
                Interval::new(a.0.y, b.0.y)
            } else {
                Interval::new(b.0.y, a.0.y)
            },
            if a.0.z <= b.0.z {
                Interval::new(a.0.z, b.0.z)
            } else {
                Interval::new(b.0.z, a.0.z)
            },
        )
    }

    /// The componentwise union of two boxes.
    pub fn from_boxes(b1: Aabb, b2: Aabb) -> (r: Aabb)
        ensures
            r.x == (Interval {
                min: min_i(b1.x.min as int, b2.x.min as int) as i64,
                max: max_i(b1.x.max as int, b2.x.max as int) as i64,
            }),
            r.y == (Interval {
                min: min_i(b1.y.min as int, b2.y.min as int) as i64,
                max: max_i(b1.y.max as int, b2.y.max as int) as i64,
            }),
            r.z == (Interval {
                min: min_i(b1.z.min as int, b2.z.min as int) as i64,
                max: max_i(b1.z.max as int, b2.z.max as int) as i64,
            }),
            box_subset(b1, r),
            box_subset(b2, r),
    {
        Aabb::new(
            Interval::from_intervals(&b1.x, &b2.x),
            Interval::from_intervals(&b1.y, &b2.y),
            Interval::from_intervals(&b1.z, &b2.z),
        )
    }

    pub fn axis_interval(&self, n: i32) -> (r: Interval)
        ensures
            r == if n == 1 {
                self.y
            } else if n == 2 {
                self.z
            } else {
                self.x
            },
    {
        match n {
            1 => self.y,
            2 => self.z,
            _ => self.x,
        }
    }

    pub fn longest_axis(&self) -> (r: i32)
        requires
            box_finite(*self, BOX_BOUND as int),
        ensures
            r == longest_axis_s(*self),
            0 <= r <= 2,
    {
        let sx = self.x.max - self.x.min;
        let sy = self.y.max - self.y.min;
        let sz = self.z.max - self.z.min;
        if sx >= sy && sx >= sz {
            0
        } else if sy >= sz {
            1
        } else {
            2
        }
    }

    /// The slab test over all three axes.
    pub fn hit(&self, r: &Ray, ray_t: Interval) -> (res: bool)
        requires
            box_finite(*self, BOX_BOUND as int),
            bounded(r.origin.0, 2_097_152),
        ensures
            res == box_hit_s(*self, r.origin.0, r.direction, ray_t.min as int, ray_t.max as int),
    {
        let (ok1, m1, x1) = slab_axis(self.x.min, self.x.max, r.origin.0.x, r.direction.x, ray_t.min, ray_t.max);
        if !ok1 || x1 <= m1 {
            return false;
        }
        let (ok2, m2, x2) = slab_axis(self.y.min, self.y.max, r.origin.0.y, r.direction.y, m1, x1);
        if !ok2 || x2 <= m2 {
            return false;
        }
        let (ok3, m3, x3) = slab_axis(self.z.min, self.z.max, r.origin.0.z, r.direction.z, m2, x2);
        if !ok3 || x3 <= m3 {
            return false;
        }
        true
    }
}

/// One exec axis of the slab test, exact per `slab_axis_s`.
fn slab_axis(lo: i64, hi: i64, o: i64, d: i64, tmin: i64, tmax: i64) -> (res: (bool, i64, i64))
    requires
        abs_i(lo as int) <= BOX_BOUND as int,
        abs_i(hi as int) <= BOX_BOUND as int,
        abs_i(o as int) <= 2_097_152,
    ensures
        res.0 == (slab_axis_s(lo as int, hi as int, o as int, d as int, tmin as int, tmax as int)
            is Some),
        res.0 ==> Some((res.1 as int, res.2 as int)) == slab_axis_s(
            lo as int,
            hi as int,
            o as int,
            d as int,
            tmin as int,
            tmax as int,
        ),
{
    if d == 0 {
        if lo <= o && o <= hi {
            (true, tmin, tmax)
        } else {
            (false, 0, 0)
        }
    } else {
        let t0 = div_fx(lo - o, d);
        let t1 = div_fx(hi - o, d);
        let a = if t0 < t1 { t0 } else { t1 };
        let b = if t0 > t1 { t0 } else { t1 };
        let m = if tmin > a { tmin } else { a };
        let x = if tmax < b { tmax } else { b };
        (true, m, x)
    }
}

/// Truncating division flips sign with its denominator.
proof fn lemma_tdiv_neg_denom(a: int, d: int)
    requires
        d != 0,
    ensures
        tdiv(a, -d) == -tdiv(a, d),
{
    assert(abs_i(-d) == abs_i(d));
    if a < 0 {
        if d < 0 {
            assert(tdiv(a, d) == abs_i(a) / abs_i(d));
            assert(tdiv(a, -d) == -(abs_i(a) / abs_i(d)));
        } else {
            assert(tdiv(a, d) == -(abs_i(a) / abs_i(d)));
            assert(tdiv(a, -d) == abs_i(a) / abs_i(d));
        }
    } else {
        if d < 0 {
            assert(tdiv(a, d) == -(abs_i(a) / abs_i(d)));
            assert(tdiv(a, -d) == abs_i(a) / abs_i(d));
        } else {
            assert(tdiv(a, d) == abs_i(a) / abs_i(d));
            assert(tdiv(a, -d) == -(abs_i(a) / abs_i(d)));
        }
    }
}

/// A wider slab and a wider window can only keep a hit alive: the
/// narrowed window of the wider test brackets that of the narrower one.
proof fn lemma_slab_axis_mono(
    lo1: int,
    hi1: int,
    lo2: int,
    hi2: int,
    o: int,
    d: int,
    tmin1: int,
    tmax1: int,
    tmin2: int,
    tmax2: int,
)
    requires
        lo2 <= lo1 <= hi1 <= hi2,
        tmin2 <= tmin1,
        tmax1 <= tmax2,
        slab_axis_s(lo1, hi1, o, d, tmin1, tmax1) is Some,
    ensures
        slab_axis_s(lo2, hi2, o, d, tmin2, tmax2) is Some,
        ({
            let w1 = slab_axis_s(lo1, hi1, o, d, tmin1, tmax1)->Some_0;
            let w2 = slab_axis_s(lo2, hi2, o, d, tmin2, tmax2)->Some_0;
            w2.0 <= w1.0 && w1.1 <= w2.1
        }),
{
    if d == 0 {
    } else if d > 0 {
        lemma_tdiv_mono((lo2 - o) * 1000, (lo1 - o) * 1000, d);
        lemma_tdiv_mono((lo1 - o) * 1000, (hi1 - o) * 1000, d);
        lemma_tdiv_mono((hi1 - o) * 1000, (hi2 - o) * 1000, d);
        lemma_scale_mono(lo2 - o, lo1 - o);
        lemma_scale_mono(lo1 - o, hi1 - o);
        lemma_scale_mono(hi1 - o, hi2 - o);
    } else {
        lemma_tdiv_neg_denom((lo2 - o) * 1000, -d);
        lemma_tdiv_neg_denom((lo1 - o) * 1000, -d);
        lemma_tdiv_neg_denom((hi1 - o) * 1000, -d);
        lemma_tdiv_neg_denom((hi2 - o) * 1000, -d);
        lemma_tdiv_mono((lo2 - o) * 1000, (lo1 - o) * 1000, -d);
        lemma_tdiv_mono((lo1 - o) * 1000, (hi1 - o) * 1000, -d);
        lemma_tdiv_mono((hi1 - o) * 1000, (hi2 - o) * 1000, -d);
        lemma_scale_mono(lo2 - o, lo1 - o);
        lemma_scale_mono(lo1 - o, hi1 - o);
        lemma_scale_mono(hi1 - o, hi2 - o);
    }
}

proof fn lemma_scale_mono(a: int, b: int)
    requires
        a <= b,
    ensures
        a * 1000 <= b * 1000,
{
    vstd::arithmetic::mul::lemma_mul_inequality(a, b, 1000);
}

/// Pruning soundness: a miss of an enclosing box over an enclosing window
/// means a miss of the enclosed box over the enclosed window.
pub proof fn lemma_box_hit_mono(
    inner: Aabb,
    outer: Aabb,
    o: Vec3d,
    d: Vec3d,
    tmin1: int,
    tmax1: int,
    tmin2: int,
    tmax2: int,
)
    requires
        box_subset(inner, outer),
        box_nonempty(inner),
        tmin2 <= tmin1,
        tmax1 <= tmax2,
        box_hit_s(inner, o, d, tmin1, tmax1),
    ensures
        box_hit_s(outer, o, d, tmin2, tmax2),
{
    let w1i = slab_axis_s(
        inner.x.min as int,
        inner.x.max as int,
        o.x as int,
        d.x as int,
        tmin1,
        tmax1,
    )->Some_0;
    lemma_slab_axis_mono(
        inner.x.min as int,
        inner.x.max as int,
        outer.x.min as int,
        outer.x.max as int,
        o.x as int,
        d.x as int,
        tmin1,
        tmax1,
        tmin2,
        tmax2,
    );
    let w1o = slab_axis_s(
        outer.x.min as int,
        outer.x.max as int,
        o.x as int,
        d.x as int,
        tmin2,
        tmax2,
    )->Some_0;
    let w2i = slab_axis_s(
        inner.y.min as int,
        inner.y.max as int,
        o.y as int,
        d.y as int,
        w1i.0,
        w1i.1,
    )->Some_0;
    lemma_slab_axis_mono(
        inner.y.min as int,
        inner.y.max as int,
        outer.y.min as int,
        outer.y.max as int,
        o.y as int,
        d.y as int,
        w1i.0,
        w1i.1,
        w1o.0,
        w1o.1,
    );
    let w2o = slab_axis_s(
        outer.y.min as int,
        outer.y.max as int,
        o.y as int,
        d.y as int,
        w1o.0,
        w1o.1,
    )->Some_0;
    lemma_slab_axis_mono(
        inner.z.min as int,
        inner.z.max as int,
        outer.z.min as int,
        outer.z.max as int,
        o.z as int,
        d.z as int,
        w2i.0,
        w2i.1,
        w2o.0,
        w2o.1,
    );
}

} // verus!
