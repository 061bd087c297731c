//! Three-component fixed-point vectors, the points and colors built on
//! them, and the random direction sampling used by the materials and the
//! camera. Every operation is proved equal to a spec-level mirror written
//! over exact integer arithmetic.
use vstd::prelude::*;
use crate::fixed::{
    abs_i, div_fx, div_fx_s, lemma_mul_fx_bound, mul_fx, mul_fx_s, sqrt_fx,
    sqrt_fx_s, tdiv,
};
use crate::sampler::{next_state_s, state_n, unit_from_s, Sampler};

verus! {

#[derive(Debug, PartialEq, Eq, Structural, Clone, Copy)]
pub struct Vec3d {
    pub x: i64,
    pub y: i64,
    pub z: i64,
}

/// A position; the same three components used positionally.
#[derive(Debug, PartialEq, Eq, Structural, Clone, Copy)]
pub struct Point3d(pub Vec3d);

/// An RGB triplet; components are unclamped fixed-point intensities.
#[derive(Debug, PartialEq, Eq, Structural, Clone, Copy)]
pub struct Color {
    pub r: i64,
    pub g: i64,
    pub b: i64,
}

/// The magnitude every scene coordinate is kept within.
pub const COORD_BOUND: i64 = 2_097_152;

pub open spec fn v3(x: int, y: int, z: int) -> Vec3d {
    Vec3d { x: x as i64, y: y as i64, z: z as i64 }
}

pub open spec fn bounded(v: Vec3d, b: int) -> bool {
    abs_i(v.x as int) <= b && abs_i(v.y as int) <= b && abs_i(v.z as int) <= b
}

pub open spec fn is_zero(v: Vec3d) -> bool {
    v.x == 0 && v.y == 0 && v.z == 0
}

/// The component an axis index selects; indexes above two read the
/// first axis, as `Vec3d::axis` does.
pub open spec fn axis_sel(v: Vec3d, n: int) -> int {
    if n == 1 {
        v.y as int
    } else if n == 2 {
        v.z as int
    } else {
        v.x as int
    }
}

pub open spec fn add_s(a: Vec3d, b: Vec3d) -> Vec3d {
    v3(a.x + b.x, a.y + b.y, a.z + b.z)
}

pub open spec fn sub_s(a: Vec3d, b: Vec3d) -> Vec3d {
    v3(a.x - b.x, a.y - b.y, a.z - b.z)
}

pub open spec fn scale_s(a: Vec3d, t: int) -> Vec3d {
    v3(mul_fx_s(a.x as int, t), mul_fx_s(a.y as int, t), mul_fx_s(a.z as int, t))
}

pub open spec fn dot_s(a: Vec3d, b: Vec3d) -> int {
    mul_fx_s(a.x as int, b.x as int) + mul_fx_s(a.y as int, b.y as int) + mul_fx_s(
        a.z as int,
        b.z as int,
    )
}

pub open spec fn cross_s(a: Vec3d, b: Vec3d) -> Vec3d {
    v3(
        mul_fx_s(a.y as int, b.z as int) - mul_fx_s(a.z as int, b.y as int),
        mul_fx_s(a.z as int, b.x as int) - mul_fx_s(a.x as int, b.z as int),
        mul_fx_s(a.x as int, b.y as int) - mul_fx_s(a.y as int, b.x as int),
    )
}

pub open spec fn len_s(v: Vec3d) -> int {
    sqrt_fx_s(dot_s(v, v))
}

/// Normalization mirror: each component is divided by the length
/// directly, so the result is within one raw unit per component of the
/// true direction for any representable length. A vector too short for
/// its length to register, and the rare rounding case where a component
/// of the quotient escapes twice the unit, give the zero vector instead
/// of a nonsense direction.
pub open spec fn unit_s(v: Vec3d) -> Vec3d {
    let l = len_s(v);
    if l <= 0 {
        v3(0, 0, 0)
    } else {
        let w = v3(
            div_fx_s(v.x as int, l),
            div_fx_s(v.y as int, l),
            div_fx_s(v.z as int, l),
        );
        if bounded(w, 2000) {
            w
        } else {
            v3(0, 0, 0)
        }
    }
}

pub open spec fn reflect_s(v: Vec3d, n: Vec3d) -> Vec3d {
    sub_s(v, scale_s(n, 2 * dot_s(v, n)))
}

pub open spec fn refract_s(uv: Vec3d, n: Vec3d, ratio: int) -> Vec3d {
    let cos_theta = crate::interval::min_i(dot_s(scale_s(uv, -1000), n), 1000);
    let r_out_perp = scale_s(add_s(uv, scale_s(n, cos_theta)), ratio);
    let r_out_parallel = scale_s(n, -sqrt_fx_s(abs_i(1000 - dot_s(r_out_perp, r_out_perp))));
    add_s(r_out_perp, r_out_parallel)
}

/// Mirror of one uniform draw per component over `[lo, hi)`.
pub open spec fn random_range_s(st: u64, lo: int, hi: int) -> Vec3d {
    v3(
        lo + mul_fx_s(hi - lo, unit_from_s(state_n(st, 1))),
        lo + mul_fx_s(hi - lo, unit_from_s(state_n(st, 2))),
        lo + mul_fx_s(hi - lo, unit_from_s(state_n(st, 3))),
    )
}

/// Mirror of rejection sampling for a unit direction: draw a point of
/// the cube, accept when it lies in the unit ball but no closer to the
/// origin than half a unit — so normalization keeps the length within a
/// fraction of a percent of one — and fall back to a fixed axis when
/// every attempt is rejected. The acceptance region is radially
/// symmetric, so directions stay uniform on the sphere surface.
pub open spec fn random_unit_s(st: u64, k: nat) -> (Vec3d, u64)
    decreases k,
{
    if k == 0 {
        (v3(1000, 0, 0), st)
    } else {
        let p = random_range_s(st, -1000, 1000);
        let st1 = state_n(st, 3);
        let lensq = dot_s(p, p);
        let u = unit_s(p);
        if 250 <= lensq <= 1000 && !is_zero(u) {
            (u, st1)
        } else {
            random_unit_s(st1, (k - 1) as nat)
        }
    }
}

/// Attempts granted to the rejection loop before the fixed fallback.
pub const UNIT_TRIES: u64 = 40;

impl Vec3d {
    pub fn new(x: i64, y: i64, z: i64) -> (r: Vec3d)
        ensures
            r == (Vec3d { x, y, z }),
    {
        Vec3d { x, y, z }
    }

    pub fn clone(&self) -> (r: Vec3d)
        ensures
            r == *self,
    {
        Vec3d { x: self.x, y: self.y, z: self.z }
    }

    /// The component selected by an axis index; any index above two reads
    /// the first axis, as the box code expects.
    pub fn axis(&self, n: i32) -> (r: i64)
        ensures
            r == if n == 1 {
                self.y
            } else if n == 2 {
                self.z
            } else {
                self.x
            },
    {
        if n == 1 {
            self.y
        } else if n == 2 {
            self.z
        } else {
            self.x
        }
    }

    pub fn length_squared(&self) -> (r: i64)
        requires
            bounded(*self, 1_073_741_824),
        ensures
            r == dot_s(*self, *self),
            0 <= r,
    {
        Vec3d::dot(self, self)
    }

    pub fn length(&self) -> (r: i64)
        requires
            bounded(*self, 100_000_000),
        ensures
            r == len_s(*self),
            0 <= r,
    {
        proof {
            lemma_mul_fx_bound(self.x as int, self.x as int, 100_000_000, 100_000_000);
            lemma_mul_fx_bound(self.y as int, self.y as int, 100_000_000, 100_000_000);
            lemma_mul_fx_bound(self.z as int, self.z as int, 100_000_000, 100_000_000);
        }
        let lsq = self.length_squared();
        sqrt_fx(lsq)
    }

    /// At this scale the epsilon of the reference formulation lies below
    /// one raw unit, so only the exact zero vector is near zero.
    pub fn near_zero(&self) -> (r: bool)
        ensures
            r == is_zero(*self),
    {
        self.x == 0 && self.y == 0 && self.z == 0
    }

    pub fn unit(v: &Vec3d) -> (r: Vec3d)
        requires
            bounded(*v, 100_000_000),
        ensures
            r == unit_s(*v),
            bounded(r, 2000),
    {
        let l = Vec3d::length(v);
        if l <= 0 {
            Vec3d { x: 0, y: 0, z: 0 }
        } else {
            let w = Vec3d { x: div_fx(v.x, l), y: div_fx(v.y, l), z: div_fx(v.z, l) };
            if w.x <= 2000 && w.x >= -2000 && w.y <= 2000 && w.y >= -2000 && w.z <= 2000 && w.z
                >= -2000 {
                w
            } else {
                Vec3d { x: 0, y: 0, z: 0 }
            }
        }
    }

    pub fn add(v1: &Vec3d, v2: &Vec3d) -> (r: Vec3d)
        requires
            bounded(*v1, 0x2000000000000000),
            bounded(*v2, 0x2000000000000000),
        ensures
            r == add_s(*v1, *v2),
    {
        Vec3d { x: v1.x + v2.x, y: v1.y + v2.y, z: v1.z + v2.z }
    }

    pub fn sub(v1: &Vec3d, v2: &Vec3d) -> (r: Vec3d)
        requires
            bounded(*v1, 0x2000000000000000),
            bounded(*v2, 0x2000000000000000),
        ensures
            r == sub_s(*v1, *v2),
    {
        Vec3d { x: v1.x - v2.x, y: v1.y - v2.y, z: v1.z - v2.z }
    }

    pub fn mul(v: &Vec3d, t: i64) -> (r: Vec3d)
        requires
            bounded(*v, 34_359_738_368),
            abs_i(t as int) <= 34_359_738_368,
        ensures
            r == scale_s(*v, t as int),
    {
        Vec3d { x: mul_fx(v.x, t), y: mul_fx(v.y, t), z: mul_fx(v.z, t) }
    }

    pub fn dot(v: &Vec3d, u: &Vec3d) -> (r: i64)
        requires
            bounded(*v, 1_073_741_824),
            bounded(*u, 1_073_741_824),
        ensures
            r == dot_s(*v, *u),
            abs_i(r as int) <= abs_i(v.x as int) * abs_i(u.x as int) + abs_i(v.y as int) * abs_i(
                u.y as int,
            ) + abs_i(v.z as int) * abs_i(u.z as int),
            dot_s(*v, *v) >= 0,
    {
        proof {
            lemma_mul_fx_bound(v.x as int, u.x as int, 1_073_741_824, 1_073_741_824);
            lemma_mul_fx_bound(v.y as int, u.y as int, 1_073_741_824, 1_073_741_824);
            lemma_mul_fx_bound(v.z as int, u.z as int, 1_073_741_824, 1_073_741_824);
            lemma_mul_fx_bound(
                v.x as int,
                u.x as int,
                abs_i(v.x as int),
                abs_i(u.x as int),
            );
            lemma_mul_fx_bound(
                v.y as int,
                u.y as int,
                abs_i(v.y as int),
                abs_i(u.y as int),
            );
            lemma_mul_fx_bound(
                v.z as int,
                u.z as int,
                abs_i(v.z as int),
                abs_i(u.z as int),
            );
            lemma_dot_self_nonneg(*v);
        }
        mul_fx(v.x, u.x) + mul_fx(v.y, u.y) + mul_fx(v.z, u.z)
    }

    pub fn cross(v: &Vec3d, u: &Vec3d) -> (r: Vec3d)
        requires
            bounded(*v, 1_073_741_824),
            bounded(*u, 1_073_741_824),
        ensures
            r == cross_s(*v, *u),
    {
        proof {
            lemma_mul_fx_bound(v.y as int, u.z as int, 1_073_741_824, 1_073_741_824);
            lemma_mul_fx_bound(v.z as int, u.y as int, 1_073_741_824, 1_073_741_824);
            lemma_mul_fx_bound(v.z as int, u.x as int, 1_073_741_824, 1_073_741_824);
            lemma_mul_fx_bound(v.x as int, u.z as int, 1_073_741_824, 1_073_741_824);
            lemma_mul_fx_bound(v.x as int, u.y as int, 1_073_741_824, 1_073_741_824);
            lemma_mul_fx_bound(v.y as int, u.x as int, 1_073_741_824, 1_073_741_824);
        }
        Vec3d {
            x: mul_fx(v.y, u.z) - mul_fx(v.z, u.y),
            y: mul_fx(v.z, u.x) - mul_fx(v.x, u.z),
            z: mul_fx(v.x, u.y) - mul_fx(v.y, u.x),
        }
    }

    pub fn reflect(v: &Vec3d, n: &Vec3d) -> (r: Vec3d)
        requires
            bounded(*v, COORD_BOUND as int),
            bounded(*n, 2000),
        ensures
            r == reflect_s(*v, *n),
            bounded(r, 60_000_000),
    {
        proof {
            lemma_mul_fx_bound(v.x as int, n.x as int, COORD_BOUND as int, 2000);
            lemma_mul_fx_bound(v.y as int, n.y as int, COORD_BOUND as int, 2000);
            lemma_mul_fx_bound(v.z as int, n.z as int, COORD_BOUND as int, 2000);
        }
        let d2 = 2 * Vec3d::dot(v, n);
        proof {
            lemma_mul_fx_bound(n.x as int, d2 as int, 2000, 26_000_000);
            lemma_mul_fx_bound(n.y as int, d2 as int, 2000, 26_000_000);
            lemma_mul_fx_bound(n.z as int, d2 as int, 2000, 26_000_000);
        }
        Vec3d::sub(v, &Vec3d::mul(n, d2))
    }

    #[verifier::rlimit(60)]
    pub fn refract(uv: Vec3d, n: Vec3d, etai_over_etat: i64) -> (r: Vec3d)
        requires
            bounded(uv, 2000),
            bounded(n, 2000),
            0 < etai_over_etat <= 10_000,
        ensures
            r == refract_s(uv, n, etai_over_etat as int),
            bounded(r, 2_000_000),
    {
        let minus_uv = Vec3d::mul(&uv, -1000);
        proof {
            lemma_scale_minus_one(uv);
            lemma_mul_fx_bound(minus_uv.x as int, n.x as int, 2000, 2000);
            lemma_mul_fx_bound(minus_uv.y as int, n.y as int, 2000, 2000);
            lemma_mul_fx_bound(minus_uv.z as int, n.z as int, 2000, 2000);
        }
        let d = Vec3d::dot(&minus_uv, &n);
        let cos_theta = if d < 1000 { d } else { 1000 };
        proof {
            lemma_mul_fx_bound(n.x as int, cos_theta as int, 2000, 12_000);
            lemma_mul_fx_bound(n.y as int, cos_theta as int, 2000, 12_000);
            lemma_mul_fx_bound(n.z as int, cos_theta as int, 2000, 12_000);
        }
        let shifted = Vec3d::add(&uv, &Vec3d::mul(&n, cos_theta));
        proof {
            lemma_mul_fx_bound(shifted.x as int, etai_over_etat as int, 26_000, 10_000);
            lemma_mul_fx_bound(shifted.y as int, etai_over_etat as int, 26_000, 10_000);
            lemma_mul_fx_bound(shifted.z as int, etai_over_etat as int, 26_000, 10_000);
        }
        let r_out_perp = Vec3d::mul(&shifted, etai_over_etat);
        let perp_lsq = r_out_perp.length_squared();
        proof {
            lemma_mul_fx_bound(r_out_perp.x as int, r_out_perp.x as int, 260_000, 260_000);
            lemma_mul_fx_bound(r_out_perp.y as int, r_out_perp.y as int, 260_000, 260_000);
            lemma_mul_fx_bound(r_out_perp.z as int, r_out_perp.z as int, 260_000, 260_000);
        }
        let gap = 1000 - perp_lsq;
        proof {
            assert(abs_i(gap as int) <= 202_800_000);
            assert(202_800_000 * 1000 <= 460_000 * 460_000) by (nonlinear_arith);
            lemma_sqrt_le(abs_i(gap as int), 460_000);
        }
        let mag = sqrt_fx(if gap < 0 { -gap } else { gap });
        proof {
            lemma_mul_fx_bound(n.x as int, -(mag as int), 2000, 460_000);
            lemma_mul_fx_bound(n.y as int, -(mag as int), 2000, 460_000);
            lemma_mul_fx_bound(n.z as int, -(mag as int), 2000, 460_000);
        }
        let r_out_parallel = Vec3d::mul(&n, -mag);
        Vec3d::add(&r_out_perp, &r_out_parallel)
    }

    /// Three fresh draws in `[0, 1)`, one per component.
    pub fn random(s: &mut Sampler) -> (r: Vec3d)
        ensures
            r == random_range_s(old(s).state, 0, 1000),
            final(s).state == state_n(old(s).state, 3),
            bounded(r, 1000),
    {
        Vec3d::random_range(s, 0, 1000)
    }

    /// Three fresh draws in `[i, j)`, one per component.
    #[verifier::rlimit(60)]
    pub fn random_range(s: &mut Sampler, i: i64, j: i64) -> (r: Vec3d)
        requires
            -2_097_152 <= i < j <= 2_097_152,
        ensures
            r == random_range_s(old(s).state, i as int, j as int),
            final(s).state == state_n(old(s).state, 3),
            i <= r.x < j,
            i <= r.y < j,
            i <= r.z < j,
            bounded(r, 2_097_152),
    {
        let ghost s0 = old(s).state;
        let span = j - i;
        let d1 = s.next_unit();
        let d2 = s.next_unit();
        let d3 = s.next_unit();
        proof {
            assert(state_n(s0, 0) == s0);
            assert(state_n(s0, 1) == next_state_s(state_n(s0, 0)));
            assert(state_n(s0, 2) == next_state_s(state_n(s0, 1)));
            assert(state_n(s0, 3) == next_state_s(state_n(s0, 2)));
            assert(d1 == unit_from_s(state_n(s0, 1)));
            assert(d2 == unit_from_s(state_n(s0, 2)));
            assert(d3 == unit_from_s(state_n(s0, 3)));
            lemma_range_step(i as int, j as int, d1 as int);
            lemma_range_step(i as int, j as int, d2 as int);
            lemma_range_step(i as int, j as int, d3 as int);
        }
        let rx = i + mul_fx(span, d1);
        let ry = i + mul_fx(span, d2);
        let rz = i + mul_fx(span, d3);
        proof {
            assert(rx as int == i + mul_fx_s(j - i, unit_from_s(state_n(s0, 1))));
            assert(ry as int == i + mul_fx_s(j - i, unit_from_s(state_n(s0, 2))));
            assert(rz as int == i + mul_fx_s(j - i, unit_from_s(state_n(s0, 3))));
        }
        Vec3d { x: rx, y: ry, z: rz }
    }

    /// A direction of unit length, uniform by rejection from the cube.
    pub fn random_unit(s: &mut Sampler) -> (r: Vec3d)
        ensures
            r == random_unit_s(old(s).state, UNIT_TRIES as nat).0,
            final(s).state == random_unit_s(old(s).state, UNIT_TRIES as nat).1,
            bounded(r, 2000),
            !is_zero(r),
    {
        Vec3d::random_unit_go(s, UNIT_TRIES)
    }

    fn random_unit_go(s: &mut Sampler, k: u64) -> (r: Vec3d)
        ensures
            r == random_unit_s(old(s).state, k as nat).0,
            final(s).state == random_unit_s(old(s).state, k as nat).1,
            bounded(r, 2000),
            !is_zero(r),
        decreases k,
    {
        if k == 0 {
            Vec3d { x: 1000, y: 0, z: 0 }
        } else {
            let p = Vec3d::random_range(s, -1000, 1000);
            let lensq = p.length_squared();
            let u = Vec3d::unit(&p);
            if 250 <= lensq && lensq <= 1000 && !u.near_zero() {
                u
            } else {
                Vec3d::random_unit_go(s, k - 1)
            }
        }
    }

    /// A unit direction on the side of the surface the normal names.
    pub fn random_on_hemisphere(s: &mut Sampler, normal: &Vec3d) -> (r: Vec3d)
        requires
            bounded(*normal, 1_073_741_824),
        ensures
            ({
                let p = random_unit_s(old(s).state, UNIT_TRIES as nat).0;
                r == if dot_s(p, *normal) > 0 {
                    p
                } else {
                    scale_s(p, -1000)
                }
            }),
            final(s).state == random_unit_s(old(s).state, UNIT_TRIES as nat).1,
            bounded(r, 2000),
    {
        let p = Vec3d::random_unit(s);
        if Vec3d::dot(&p, normal) > 0 {
            p
        } else {
            proof {
                lemma_scale_minus_one(p);
            }
            Vec3d::mul(&p, -1000)
        }
    }
}

/// Scaling by minus one thousand negates each component exactly.
pub proof fn lemma_scale_minus_one(v: Vec3d)
    requires
        bounded(v, 0x10000000000000),
    ensures
        scale_s(v, -1000) == v3(-(v.x as int), -(v.y as int), -(v.z as int)),
        bounded(scale_s(v, -1000), abs_i(v.x as int) + abs_i(v.y as int) + abs_i(v.z as int)),
{
    lemma_neg_thousand(v.x as int);
    lemma_neg_thousand(v.y as int);
    lemma_neg_thousand(v.z as int);
}

proof fn lemma_neg_thousand(a: int)
    ensures
        mul_fx_s(a, -1000) == -a,
{
    crate::fixed::lemma_abs_mul(a, -1000);
    assert(abs_i(a * -1000) == abs_i(a) * 1000);
    assert(abs_i(a) * 1000 / 1000 == abs_i(a)) by (nonlinear_arith);
    if a == 0 {
        assert(a * -1000 == 0) by (nonlinear_arith)
            requires
                a == 0,
        ;
    } else if a > 0 {
        assert(a * -1000 < 0) by (nonlinear_arith)
            requires
                a > 0,
        ;
    } else {
        assert(a * -1000 > 0) by (nonlinear_arith)
            requires
                a < 0,
        ;
    }
}

proof fn lemma_range_step(lo: int, hi: int, d: int)
    requires
        lo < hi,
        hi - lo <= 8_388_608,
        0 <= d < 1000,
    ensures
        0 <= mul_fx_s(hi - lo, d) < hi - lo,
        lo <= lo + mul_fx_s(hi - lo, d) < hi,
{
    let span = hi - lo;
    crate::fixed::lemma_abs_mul(span, d);
    assert(mul_fx_s(span, d) == span * d / 1000);
    assert(span * d >= 0) by (nonlinear_arith)
        requires
            span > 0 && d >= 0,
    ;
    assert(span * d <= span * 999) by (nonlinear_arith)
        requires
            span > 0 && d <= 999,
    ;
    assert(span * d / 1000 >= 0);
    vstd::arithmetic::div_mod::lemma_div_is_ordered(span * d, span * 999, 1000);
    assert(span * 999 / 1000 < span) by (nonlinear_arith)
        requires
            span > 0,
    ;
}

/// A vector's dot product with itself cannot be negative.
pub proof fn lemma_dot_self_nonneg(v: Vec3d)
    ensures
        dot_s(v, v) >= 0,
{
    lemma_sq_nonneg(v.x as int);
    lemma_sq_nonneg(v.y as int);
    lemma_sq_nonneg(v.z as int);
}

proof fn lemma_sq_nonneg(a: int)
    ensures
        mul_fx_s(a, a) >= 0,
{
    assert(a * a >= 0) by (nonlinear_arith);
    assert(tdiv(a * a, 1000) == a * a / 1000);
    vstd::arithmetic::div_mod::lemma_div_pos_is_pos(a * a, 1000);
}

/// The square root of a bounded scalar is bounded by the root of the bound.
pub proof fn lemma_sqrt_le(x: int, r: int)
    requires
        0 <= x,
        0 <= r,
        x * 1000 <= r * r,
    ensures
        sqrt_fx_s(x) <= r,
{
    crate::fixed::lemma_isqrt_props(x * 1000);
    let s = crate::fixed::isqrt_s(x * 1000);
    if s > r {
        vstd::arithmetic::mul::lemma_mul_inequality(r + 1, s, r + 1);
        vstd::arithmetic::mul::lemma_mul_inequality(r + 1, s, s);
        assert((r + 1) * (r + 1) <= s * s);
        assert(r * r < (r + 1) * (r + 1)) by (nonlinear_arith)
            requires
                r >= 0,
        ;
    }
}

impl Point3d {
    pub fn new(x: i64, y: i64, z: i64) -> (r: Point3d)
        ensures
            r.0 == (Vec3d { x, y, z }),
    {
        Point3d(Vec3d { x, y, z })
    }

    pub fn from_vec3d(v: Vec3d) -> (r: Point3d)
        ensures
            r.0 == v,
    {
        Point3d(v)
    }

    pub fn _origin() -> (r: Point3d)
        ensures
            r.0 == (Vec3d { x: 0i64, y: 0i64, z: 0i64 }),
    {
        Point3d::new(0, 0, 0)
    }

    pub fn clone(&self) -> (r: Point3d)
        ensures
            r == *self,
    {
        Point3d(self.0.clone())
    }

    pub fn as_vec3d(&self) -> (r: Vec3d)
        ensures
            r == self.0,
    {
        self.0.clone()
    }

    pub fn sub(&self, p: Point3d) -> (r: Point3d)
        requires
            bounded(self.0, 0x2000000000000000),
            bounded(p.0, 0x2000000000000000),
        ensures
            r.0 == sub_s(self.0, p.0),
    {
        Point3d(Vec3d::sub(&self.0, &p.0))
    }
}


/// Mirror of rejection sampling for a point of the unit disk: two draws
/// per attempt, accepted strictly inside the rim, with the center as the
/// fallback.
pub open spec fn random_in_disk_s(st: u64, k: nat) -> (Vec3d, u64)
    decreases k,
{
    if k == 0 {
        (v3(0, 0, 0), st)
    } else {
        let px = -1000 + mul_fx_s(2000, unit_from_s(state_n(st, 1)));
        let py = -1000 + mul_fx_s(2000, unit_from_s(state_n(st, 2)));
        let p = v3(px, py, 0);
        let st1 = state_n(st, 2);
        if dot_s(p, p) < 1000 {
            (p, st1)
        } else {
            random_in_disk_s(st1, (k - 1) as nat)
        }
    }
}

impl Vec3d {
    /// A point of the unit disk in the first two axes, by rejection.
    pub fn random_in_unit_disk(s: &mut Sampler) -> (r: Vec3d)
        ensures
            r == random_in_disk_s(old(s).state, UNIT_TRIES as nat).0,
            final(s).state == random_in_disk_s(old(s).state, UNIT_TRIES as nat).1,
            bounded(r, 1000),
            r.z == 0,
    {
        Vec3d::random_in_disk_go(s, UNIT_TRIES)
    }

    fn random_in_disk_go(s: &mut Sampler, k: u64) -> (r: Vec3d)
        ensures
            r == random_in_disk_s(old(s).state, k as nat).0,
            final(s).state == random_in_disk_s(old(s).state, k as nat).1,
            bounded(r, 1000),
            r.z == 0,
        decreases k,
    {
        if k == 0 {
            Vec3d { x: 0, y: 0, z: 0 }
        } else {
            let ghost s0 = old(s).state;
            let d1 = s.next_unit();
            let d2 = s.next_unit();
            proof {
                assert(state_n(s0, 0) == s0);
                assert(state_n(s0, 1) == next_state_s(state_n(s0, 0)));
                assert(state_n(s0, 2) == next_state_s(state_n(s0, 1)));
                lemma_range_step(-1000, 1000, d1 as int);
                lemma_range_step(-1000, 1000, d2 as int);
            }
            let px = -1000 + mul_fx(2000, d1);
            let py = -1000 + mul_fx(2000, d2);
            let p = Vec3d { x: px, y: py, z: 0 };
            let lensq = p.length_squared();
            if lensq < 1000 {
                p
            } else {
                Vec3d::random_in_disk_go(s, k - 1)
            }
        }
    }
}

} // verus!
