//! Building the bounding-volume tree, and the law that justifies it: a
//! tree built from a flat set of spheres reports exactly the hit that a
//! linear scan over its leaves reports, for every ray and every window.
use vstd::prelude::*;
use vstd::seq_lib::{group_to_multiset_ensures, lemma_multiset_commutative};
use crate::aabb::{
    box_finite, box_hit_s, box_nonempty, box_subset, lemma_box_hit_mono, Aabb, BOX_BOUND,
};
use crate::hit_record::{
    bbox_of, hittable_hit_s, hittable_wf, list_wf, node_wf, scan_hit_s, seq_wf, sphere_hit_full_s,
    sphere_wf, BvhNode, Hittable, HittableList, Sphere,
};
use crate::interval::Interval;
use crate::ray::Ray;

verus! {

/// Spheres dressed as surfaces, one for one.
pub open spec fn as_hittables(s: Seq<Sphere>) -> Seq<Hittable> {
    s.map_values(|x: Sphere| Hittable::Sphere(x))
}

pub open spec fn spheres_wf(s: Seq<Sphere>) -> bool {
    forall|i: int| 0 <= i < s.len() ==> sphere_wf(#[trigger] s[i])
}

/// The sort key: the low bound of a sphere's box along the split axis.
pub open spec fn key_s(s: Sphere, axis: int) -> int {
    if axis == 1 {
        s.bbox.y.min as int
    } else if axis == 2 {
        s.bbox.z.min as int
    } else {
        s.bbox.x.min as int
    }
}

pub open spec fn sorted_by_key(s: Seq<Sphere>, axis: int) -> bool {
    forall|i: int, j: int| 0 <= i < j < s.len() ==> key_s(#[trigger] s[i], axis) <= key_s(
        #[trigger] s[j],
        axis,
    )
}

/// The union of the first `n` boxes, folded as the build loop folds it.
pub open spec fn union_upto(s: Seq<Sphere>, n: int) -> Aabb
    decreases n,
{
    if n <= 0 {
        Aabb {
            x: Interval { min: i64::MAX, max: i64::MIN },
            y: Interval { min: i64::MAX, max: i64::MIN },
            z: Interval { min: i64::MAX, max: i64::MIN },
        }
    } else {
        crate::hit_record::union_box(union_upto(s, n - 1), s[n - 1].bbox)
    }
}

/// Every box folded in sits inside the union.
proof fn lemma_union_upto_contains(s: Seq<Sphere>, n: int)
    requires
        0 <= n <= s.len(),
    ensures
        forall|i: int| 0 <= i < n ==> box_subset((#[trigger] s[i]).bbox, union_upto(s, n)),
    decreases n,
{
    if n > 0 {
        lemma_union_upto_contains(s, n - 1);
    }
}

/// The union is the least box over what it folded.
proof fn lemma_union_upto_least(s: Seq<Sphere>, n: int, b: Aabb)
    requires
        0 <= n <= s.len(),
        forall|i: int| 0 <= i < n ==> box_subset((#[trigger] s[i]).bbox, b),
    ensures
        box_subset(union_upto(s, n), b),
    decreases n,
{
    if n > 0 {
        lemma_union_upto_least(s, n - 1, b);
    }
}

/// Unions of well-formed sphere boxes stay finite and, once nonempty, stay
/// nonempty.
proof fn lemma_union_upto_wf(s: Seq<Sphere>, n: int)
    requires
        0 <= n <= s.len(),
        spheres_wf(s),
    ensures
        box_finite(union_upto(s, n), BOX_BOUND as int) || n == 0,
        n > 0 ==> box_nonempty(union_upto(s, n)),
    decreases n,
{
    if n > 0 {
        lemma_union_upto_wf(s, n - 1);
        assert(sphere_wf(s[n - 1]));
        assert(box_finite(s[n - 1].bbox, BOX_BOUND as int));
        assert(box_nonempty(s[n - 1].bbox));
        if n == 1 {
            assert(union_upto(s, 0) == (Aabb {
                x: Interval { min: i64::MAX, max: i64::MIN },
                y: Interval { min: i64::MAX, max: i64::MIN },
                z: Interval { min: i64::MAX, max: i64::MIN },
            }));
        }
    }
}

/// Sorts spheres by their box's low bound on one axis; the contents are
/// unchanged as a multiset.
fn sort_spheres(v: &mut Vec<Sphere>, axis: i32)
    ensures
        final(v)@.len() == old(v)@.len(),
        final(v)@.to_multiset() == old(v)@.to_multiset(),
        as_hittables(final(v)@).to_multiset() == as_hittables(old(v)@).to_multiset(),
        sorted_by_key(final(v)@, axis as int),
{
    let ghost orig = old(v)@;
    proof {
        broadcast use group_to_multiset_ensures;
        broadcast use vstd::seq_lib::to_multiset_update;

    }
    let n = v.len();
    let mut i: usize = 1;
    while i < n
        invariant
            n == v@.len(),
            1 <= i,
            i <= n || n <= 1,
            v@.to_multiset() == orig.to_multiset(),
            as_hittables(v@).to_multiset() == as_hittables(orig).to_multiset(),
            forall|a: int, b: int| 0 <= a < b < i ==> key_s(#[trigger] v@[a], axis as int)
                <= key_s(#[trigger] v@[b], axis as int),
        decreases n - i,
    {
        let mut j: usize = i;
        while j > 0 && key_of(&v[j - 1], axis) > key_of(&v[j], axis)
            invariant
                n == v@.len(),
                0 <= j <= i < n,
                v@.to_multiset() == orig.to_multiset(),
                as_hittables(v@).to_multiset() == as_hittables(orig).to_multiset(),
                forall|a: int, b: int| 0 <= a < b <= i && b != j ==> key_s(
                    #[trigger] v@[a],
                    axis as int,
                ) <= key_s(#[trigger] v@[b], axis as int),
            decreases j,
        {
            let ghost before = v@;
            let x = v[j - 1];
            let y = v[j];
            v.set(j - 1, y);
            v.set(j, x);
            proof {
                broadcast use group_to_multiset_ensures;
                broadcast use vstd::seq_lib::to_multiset_update;

                assert(v@ =~= before.update(j - 1, before[j as int]).update(j as int, before[j
                    - 1]));
                lemma_swap_multiset(before, j - 1, j as int);
                assert(as_hittables(v@) =~= as_hittables(before).update(
                    j - 1,
                    Hittable::Sphere(before[j as int]),
                ).update(j as int, Hittable::Sphere(before[j - 1])));
                lemma_swap_multiset_h(as_hittables(before), j - 1, j as int);
            }
            j = j - 1;
        }
        i = i + 1;
    }
    proof {
        if n <= 1 {
            assert(forall|a: int, b: int|
                0 <= a < b < v@.len() ==> key_s(#[trigger] v@[a], axis as int) <= key_s(
                    #[trigger] v@[b],
                    axis as int,
                ));
        }
    }
}

/// Swapping two positions leaves a sequence's multiset unchanged.
proof fn lemma_swap_multiset(s: Seq<Sphere>, a: int, b: int)
    requires
        0 <= a < s.len(),
        0 <= b < s.len(),
    ensures
        s.update(a, s[b]).update(b, s[a]).to_multiset() == s.to_multiset(),
{
    broadcast use group_to_multiset_ensures;
    broadcast use vstd::seq_lib::to_multiset_update;

    let s1 = s.update(a, s[b]);
    if a == b {
        assert(s1.update(b, s[a]) =~= s);
    } else {
        assert(s1[a] == s[b]);
        assert(s1.update(b, s[a]).to_multiset() =~= s.to_multiset());
    }
}

proof fn lemma_swap_multiset_h(s: Seq<Hittable>, a: int, b: int)
    requires
        0 <= a < s.len(),
        0 <= b < s.len(),
    ensures
        s.update(a, s[b]).update(b, s[a]).to_multiset() == s.to_multiset(),
{
    broadcast use group_to_multiset_ensures;
    broadcast use vstd::seq_lib::to_multiset_update;

    let s1 = s.update(a, s[b]);
    if a == b {
        assert(s1.update(b, s[a]) =~= s);
    } else {
        assert(s1[a] == s[b]);
        assert(s1.update(b, s[a]).to_multiset() =~= s.to_multiset());
    }
}

fn key_of(s: &Sphere, axis: i32) -> (r: i64)
    ensures
        r as int == key_s(*s, axis as int),
{
    if axis == 1 {
        s.bbox.y.min
    } else if axis == 2 {
        s.bbox.z.min
    } else {
        s.bbox.x.min
    }
}

/// The primitive surfaces under a tree, in traversal order. A degenerate
/// single-object node holds its one sphere as both children, so that
/// sphere appears once per child here.
pub open spec fn leaves_of(h: Hittable) -> Seq<Hittable>
    decreases h,
{
    match h {
        Hittable::Sphere(_) => seq![h],
        Hittable::List(l) => leaves_seq(l.objects@),
        Hittable::BvhNode(n) => leaves_of(*n.left) + leaves_of(*n.right),
    }
}

pub open spec fn leaves_seq(s: Seq<Hittable>) -> Seq<Hittable>
    decreases s,
{
    if s.len() == 0 {
        Seq::empty()
    } else {
        leaves_of(s[0]) + leaves_seq(s.drop_first())
    }
}

/// Every object of a sequence drawn from another keeps that other's
/// box bound and well-formedness.
proof fn lemma_elements_from(sub: Seq<Sphere>, all: Seq<Sphere>, b: Aabb)
    requires
        forall|k: int| 0 <= k < sub.len() ==> all.contains(#[trigger] sub[k]),
        forall|i: int| 0 <= i < all.len() ==> box_subset((#[trigger] all[i]).bbox, b),
        spheres_wf(all),
    ensures
        forall|k: int| 0 <= k < sub.len() ==> box_subset((#[trigger] sub[k]).bbox, b),
        spheres_wf(sub),
{
    assert forall|k: int| 0 <= k < sub.len() implies box_subset((#[trigger] sub[k]).bbox, b)
        && sphere_wf(sub[k]) by {
        let j = choose|j: int| 0 <= j < all.len() && all[j] == sub[k];
        assert(box_subset(all[j].bbox, b));
        assert(sphere_wf(all[j]));
    }
}

impl BvhNode {
    /// The tree over a flat list of spheres; the list itself is not
    /// changed.
    pub fn new(hittable_list: &HittableList) -> (res: BvhNode)
        requires
            list_wf(*hittable_list),
            hittable_list.objects@.len() >= 1,
            forall|i: int| 0 <= i < hittable_list.objects@.len() ==> (#[trigger] hittable_list.objects@[i]) is Sphere,
        ensures
            node_wf(res),
            forall|x: Hittable| #[trigger] leaves_of(Hittable::BvhNode(res)).contains(x)
                <==> hittable_list.objects@.contains(x),
            forall|i: int| 0 <= i < hittable_list.objects@.len() ==> box_subset(
                bbox_of(#[trigger] hittable_list.objects@[i]),
                res.bbox,
            ),
            forall|b: Aabb| (forall|i: int|
                0 <= i < hittable_list.objects@.len() ==> box_subset(
                    bbox_of(#[trigger] hittable_list.objects@[i]),
                    b,
                )) ==> #[trigger] box_subset(res.bbox, b),
    {
        let n = hittable_list.objects.len();
        let mut sp: Vec<Sphere> = Vec::new();
        let mut i: usize = 0;
        while i < n
            invariant
                n == hittable_list.objects@.len(),
                forall|k: int| 0 <= k < n ==> (#[trigger] hittable_list.objects@[k]) is Sphere,
                list_wf(*hittable_list),
                0 <= i <= n,
                sp@.len() == i,
                forall|k: int| 0 <= k < i ==> Hittable::Sphere(#[trigger] sp@[k])
                    == hittable_list.objects@[k],
            decreases n - i,
        {
            match &hittable_list.objects[i] {
                Hittable::Sphere(s) => {
                    sp.push(*s);
                },
                _ => {
                    proof {
                        assert(hittable_list.objects@[i as int] is Sphere);
                    }
                },
            }
            i = i + 1;
        }
        proof {
            assert(as_hittables(sp@) =~= hittable_list.objects@);
            assert forall|k: int| 0 <= k < sp@.len() implies sphere_wf(#[trigger] sp@[k]) by {
                crate::hit_record::lemma_seq_wf_index(hittable_list.objects@, k);
            }
        }
        let ghost spheres = sp@;
        let res = Self::from_list(sp);
        proof {
            assert forall|x: Hittable| #[trigger] leaves_of(Hittable::BvhNode(res)).contains(x)
                <==> hittable_list.objects@.contains(x) by {}
            assert forall|k: int| 0 <= k < hittable_list.objects@.len() implies box_subset(
                bbox_of(#[trigger] hittable_list.objects@[k]),
                res.bbox,
            ) by {
                assert(hittable_list.objects@[k] == Hittable::Sphere(spheres[k]));
                assert(box_subset(spheres[k].bbox, res.bbox));
            }
            assert forall|b: Aabb| (forall|i: int|
                0 <= i < hittable_list.objects@.len() ==> box_subset(
                    bbox_of(#[trigger] hittable_list.objects@[i]),
                    b,
                )) implies #[trigger] box_subset(res.bbox, b) by {
                assert forall|i: int| 0 <= i < spheres.len() implies box_subset(
                    (#[trigger] spheres[i]).bbox,
                    b,
                ) by {
                    assert(hittable_list.objects@[i] == Hittable::Sphere(spheres[i]));
                    assert(box_subset(bbox_of(hittable_list.objects@[i]), b));
                }
            }
        }
        res
    }

    /// Recursive median-split construction: union the boxes, pick the
    /// longest axis, sort, split at the middle, and recurse.
    fn from_list(objects: Vec<Sphere>) -> (res: BvhNode)
        requires
            objects@.len() >= 1,
            spheres_wf(objects@),
        ensures
            node_wf(res),
            box_nonempty(res.bbox),
            forall|i: int| 0 <= i < objects@.len() ==> box_subset(
                (#[trigger] objects@[i]).bbox,
                res.bbox,
            ),
            forall|b: Aabb| (forall|i: int|
                0 <= i < objects@.len() ==> box_subset((#[trigger] objects@[i]).bbox, b))
                ==> #[trigger] box_subset(res.bbox, b),
            forall|x: Hittable| #[trigger] leaves_of(Hittable::BvhNode(res)).contains(x)
                <==> as_hittables(objects@).contains(x),
            objects@.len() == 1 ==> res.left == res.right && *res.left == Hittable::Sphere(
                objects@[0],
            ),
            objects@.len() == 2 ==> *res.left == Hittable::Sphere(objects@[0]) && *res.right
                == Hittable::Sphere(objects@[1]),
        decreases objects@.len(),
    {
        proof {
            broadcast use group_to_multiset_ensures;

        }
        let ghost orig = objects@;
        let mut objects = objects;
        let n = objects.len();
        let mut bbox = Aabb::empty();
        let mut k: usize = 0;
        while k < n
            invariant
                objects@ == orig,
                n == orig.len(),
                0 <= k <= n,
                bbox == union_upto(orig, k as int),
            decreases n - k,
        {
            let ob = objects[k].bbox;
            bbox = Aabb::from_boxes(bbox, ob);
            k = k + 1;
        }
        proof {
            lemma_union_upto_contains(orig, n as int);
            lemma_union_upto_wf(orig, n as int);
            assert forall|b: Aabb| (forall|i: int|
                0 <= i < orig.len() ==> box_subset((#[trigger] orig[i]).bbox, b))
                implies #[trigger] box_subset(bbox, b) by {
                lemma_union_upto_least(orig, n as int, b);
            }
        }
        let axis = bbox.longest_axis();
        if n == 1 {
            let s0 = objects[0];
            let res = BvhNode {
                left: Box::new(Hittable::Sphere(s0)),
                right: Box::new(Hittable::Sphere(s0)),
                bbox,
            };
            proof {
                assert(*res.left == Hittable::Sphere(s0));
                assert(*res.right == Hittable::Sphere(s0));
                assert(leaves_of(*res.left) =~= seq![Hittable::Sphere(s0)]);
                assert(leaves_of(Hittable::BvhNode(res)) =~= seq![
                    Hittable::Sphere(s0),
                    Hittable::Sphere(s0),
                ]);
                assert(as_hittables(orig) =~= seq![Hittable::Sphere(s0)]);
                assert forall|x: Hittable| #[trigger] leaves_of(
                    Hittable::BvhNode(res),
                ).contains(x) <==> as_hittables(orig).contains(x) by {
                    if leaves_of(Hittable::BvhNode(res)).contains(x) {
                        assert(x == Hittable::Sphere(s0));
                        assert(as_hittables(orig)[0] == x);
                    }
                    if as_hittables(orig).contains(x) {
                        assert(x == Hittable::Sphere(s0));
                        assert(leaves_of(Hittable::BvhNode(res))[0] == x);
                    }
                }
            }
            res
        } else if n == 2 {
            let s0 = objects[0];
            let s1 = objects[1];
            let res = BvhNode {
                left: Box::new(Hittable::Sphere(s0)),
                right: Box::new(Hittable::Sphere(s1)),
                bbox,
            };
            proof {
                assert(*res.left == Hittable::Sphere(s0));
                assert(*res.right == Hittable::Sphere(s1));
                assert(leaves_of(*res.left) =~= seq![Hittable::Sphere(s0)]);
                assert(leaves_of(*res.right) =~= seq![Hittable::Sphere(s1)]);
                assert(leaves_of(Hittable::BvhNode(res)) =~= seq![
                    Hittable::Sphere(s0),
                    Hittable::Sphere(s1),
                ]);
                assert(as_hittables(orig) =~= seq![Hittable::Sphere(s0), Hittable::Sphere(s1)]);
                assert(leaves_of(Hittable::BvhNode(res)) == as_hittables(orig));
            }
            res
        } else {
            sort_spheres(&mut objects, axis);
            let ghost sorted = objects@;
            let mid = n / 2;
            let right_vec = objects.split_off(mid);
            let ghost left_seq = objects@;
            let ghost right_seq = right_vec@;
            proof {
                assert(left_seq + right_seq =~= sorted);
                assert(as_hittables(left_seq + right_seq) =~= as_hittables(sorted));
                lemma_multiset_commutative(left_seq, right_seq);
                assert forall|k2: int| 0 <= k2 < left_seq.len() implies orig.contains(
                    #[trigger] left_seq[k2],
                ) by {
                    assert(left_seq.contains(left_seq[k2]));
                    vstd::seq_lib::to_multiset_contains(left_seq, left_seq[k2]);
                    assert(left_seq.to_multiset().count(left_seq[k2]) > 0);
                    assert((left_seq + right_seq).to_multiset().count(left_seq[k2]) > 0);
                    vstd::seq_lib::to_multiset_contains(orig, left_seq[k2]);
                }
                assert forall|k2: int| 0 <= k2 < right_seq.len() implies orig.contains(
                    #[trigger] right_seq[k2],
                ) by {
                    assert(right_seq.contains(right_seq[k2]));
                    vstd::seq_lib::to_multiset_contains(right_seq, right_seq[k2]);
                    assert((left_seq + right_seq).to_multiset().count(right_seq[k2]) > 0);
                    vstd::seq_lib::to_multiset_contains(orig, right_seq[k2]);
                }
                lemma_elements_from(left_seq, orig, bbox);
                lemma_elements_from(right_seq, orig, bbox);
            }
            let left_node = Self::from_list(objects);
            let right_node = Self::from_list(right_vec);
            let res = BvhNode {
                left: Box::new(Hittable::BvhNode(left_node)),
                right: Box::new(Hittable::BvhNode(right_node)),
                bbox,
            };
            proof {
                lemma_from_list_combine(res, left_node, right_node, left_seq, right_seq, orig, bbox);
            }
            res
        }
    }
}

/// Assembles the recursive case's postconditions from the two children's.
proof fn lemma_from_list_combine(
    res: BvhNode,
    left_node: BvhNode,
    right_node: BvhNode,
    left_seq: Seq<Sphere>,
    right_seq: Seq<Sphere>,
    orig: Seq<Sphere>,
    bbox: Aabb,
)
    requires
        res.left == Box::new(Hittable::BvhNode(left_node)),
        res.right == Box::new(Hittable::BvhNode(right_node)),
        res.bbox == bbox,
        node_wf(left_node),
        node_wf(right_node),
        box_finite(bbox, BOX_BOUND as int),
        box_nonempty(bbox),
        (left_seq + right_seq).to_multiset() == orig.to_multiset(),
        as_hittables(left_seq + right_seq).to_multiset() == as_hittables(orig).to_multiset(),
        left_seq.len() >= 1,
        right_seq.len() >= 1,
        forall|i: int| 0 <= i < left_seq.len() ==> box_subset(
            (#[trigger] left_seq[i]).bbox,
            left_node.bbox,
        ),
        forall|i: int| 0 <= i < right_seq.len() ==> box_subset(
            (#[trigger] right_seq[i]).bbox,
            right_node.bbox,
        ),
        forall|i: int| 0 <= i < left_seq.len() ==> box_subset((#[trigger] left_seq[i]).bbox, bbox),
        forall|i: int| 0 <= i < right_seq.len() ==> box_subset(
            (#[trigger] right_seq[i]).bbox,
            bbox,
        ),
        forall|b: Aabb| (forall|i: int|
            0 <= i < left_seq.len() ==> box_subset((#[trigger] left_seq[i]).bbox, b))
            ==> #[trigger] box_subset(left_node.bbox, b),
        forall|b: Aabb| (forall|i: int|
            0 <= i < right_seq.len() ==> box_subset((#[trigger] right_seq[i]).bbox, b))
            ==> #[trigger] box_subset(right_node.bbox, b),
        forall|x: Hittable| #[trigger] leaves_of(Hittable::BvhNode(left_node)).contains(x)
            <==> as_hittables(left_seq).contains(x),
        forall|x: Hittable| #[trigger] leaves_of(Hittable::BvhNode(right_node)).contains(x)
            <==> as_hittables(right_seq).contains(x),
        forall|i: int| 0 <= i < orig.len() ==> box_subset((#[trigger] orig[i]).bbox, bbox),
    ensures
        node_wf(res),
        forall|x: Hittable| #[trigger] leaves_of(Hittable::BvhNode(res)).contains(x)
            <==> as_hittables(orig).contains(x),
{
    broadcast use group_to_multiset_ensures;

    assert(box_subset(left_node.bbox, bbox));
    assert(box_subset(right_node.bbox, bbox));
    assert(node_wf(res));
    let leaves = leaves_of(Hittable::BvhNode(res));
    assert(leaves == leaves_of(Hittable::BvhNode(left_node)) + leaves_of(
        Hittable::BvhNode(right_node),
    ));
    assert forall|x: Hittable| #[trigger] leaves.contains(x) <==> as_hittables(orig).contains(
        x,
    ) by {
        lemma_contains_concat(
            leaves_of(Hittable::BvhNode(left_node)),
            leaves_of(Hittable::BvhNode(right_node)),
            x,
        );
        lemma_contains_concat(as_hittables(left_seq), as_hittables(right_seq), x);
        assert(as_hittables(left_seq + right_seq) =~= as_hittables(left_seq) + as_hittables(
            right_seq,
        ));
        vstd::seq_lib::to_multiset_contains(as_hittables(left_seq + right_seq), x);
        vstd::seq_lib::to_multiset_contains(as_hittables(orig), x);
    }
}


/// The degenerate single-object node probes its one sphere twice — the
/// second time only closer than the first probe's hit — and that second
/// probe adds nothing: scanning the sphere twice equals scanning it once.
pub proof fn lemma_duplicate_sphere_scan(x: Hittable, r: Ray, tmin: int, tmax: int)
    requires
        x is Sphere,
    ensures
        scan_hit_s(seq![x, x], r, tmin, tmax) == scan_hit_s(seq![x], r, tmin, tmax),
{
    crate::hit_record::lemma_sphere_renarrow(x->Sphere_0, r, tmin, tmax);
    let two = seq![x, x];
    let one = seq![x];
    assert(two.drop_first() =~= one);
    assert(one.drop_first() =~= Seq::<Hittable>::empty());
    match hittable_hit_s(x, r, tmin, tmax) {
        Some((h0, m0)) => {
            assert(hittable_hit_s(x, r, tmin, h0.t as int) is None);
            assert(scan_hit_s(one.drop_first(), r, tmin, h0.t as int) is None);
            assert(scan_hit_s(one, r, tmin, tmax) == Some((h0, m0)));
            assert(scan_hit_s(two.drop_first(), r, tmin, h0.t as int) == (match hittable_hit_s(
                x,
                r,
                tmin,
                h0.t as int,
            ) {
                Some(p) => Some(p),
                None => scan_hit_s(Seq::<Hittable>::empty(), r, tmin, h0.t as int),
            }));
            assert(scan_hit_s(two, r, tmin, tmax) == Some((h0, m0)));
        },
        None => {
            assert(one[0] == x);
            assert(one.len() == 1);
            assert(scan_hit_s(one.drop_first(), r, tmin, tmax) is None);
            assert(scan_hit_s(one, r, tmin, tmax) is None);
            assert(scan_hit_s(two.drop_first(), r, tmin, tmax) is None);
            assert(scan_hit_s(two, r, tmin, tmax) is None);
        },
    }
}


/// A scan misses exactly when every element, probed alone over the full
/// window, misses: a miss never narrows the window, and the first hit
/// makes the scan's answer a hit.
pub proof fn lemma_scan_miss_iff(s: Seq<Hittable>, r: Ray, tmin: int, tmax: int)
    ensures
        (scan_hit_s(s, r, tmin, tmax) is None) <==> (forall|i: int|
            0 <= i < s.len() ==> (#[trigger] hittable_hit_s(s[i], r, tmin, tmax)) is None),
    decreases s,
{
    if s.len() > 0 {
        lemma_scan_miss_iff(s.drop_first(), r, tmin, tmax);
        match hittable_hit_s(s[0], r, tmin, tmax) {
            Some((h0, m0)) => {
                assert(!(scan_hit_s(s, r, tmin, tmax) is None));
                assert(!(hittable_hit_s(s[0], r, tmin, tmax) is None));
            },
            None => {
                assert(scan_hit_s(s, r, tmin, tmax) == scan_hit_s(
                    s.drop_first(),
                    r,
                    tmin,
                    tmax,
                ));
                if forall|i: int|
                    0 <= i < s.drop_first().len() ==> (#[trigger] hittable_hit_s(
                        s.drop_first()[i],
                        r,
                        tmin,
                        tmax,
                    )) is None {
                    assert forall|i: int| 0 <= i < s.len() implies (#[trigger] hittable_hit_s(
                        s[i],
                        r,
                        tmin,
                        tmax,
                    )) is None by {
                        if i > 0 {
                            assert(s.drop_first()[i - 1] == s[i]);
                            assert(hittable_hit_s(s.drop_first()[i - 1], r, tmin, tmax) is None);
                        }
                    }
                } else {
                    let k = choose|k: int|
                        0 <= k < s.drop_first().len() && !((#[trigger] hittable_hit_s(
                            s.drop_first()[k],
                            r,
                            tmin,
                            tmax,
                        )) is None);
                    assert(s.drop_first()[k] == s[k + 1]);
                    assert(!(hittable_hit_s(s[k + 1], r, tmin, tmax) is None));
                }
            },
        }
    }
}

/// Two collections holding the same surfaces miss together: whether a
/// scan finds anything at all does not depend on its order.
pub proof fn lemma_scan_miss_permutation(
    s1: Seq<Hittable>,
    s2: Seq<Hittable>,
    r: Ray,
    tmin: int,
    tmax: int,
)
    requires
        forall|x: Hittable| #[trigger] s1.contains(x) <==> s2.contains(x),
    ensures
        (scan_hit_s(s1, r, tmin, tmax) is None) <==> (scan_hit_s(s2, r, tmin, tmax) is None),
{
    lemma_scan_miss_iff(s1, r, tmin, tmax);
    lemma_scan_miss_iff(s2, r, tmin, tmax);
    if forall|i: int| 0 <= i < s1.len() ==> (#[trigger] hittable_hit_s(s1[i], r, tmin, tmax))
        is None {
        assert forall|i: int| 0 <= i < s2.len() implies (#[trigger] hittable_hit_s(
            s2[i],
            r,
            tmin,
            tmax,
        )) is None by {
            assert(s2.contains(s2[i]));
            assert(s1.contains(s2[i]));
            let j = choose|j: int| 0 <= j < s1.len() && s1[j] == s2[i];
            assert(hittable_hit_s(s1[j], r, tmin, tmax) is None);
        }
    }
    if forall|i: int| 0 <= i < s2.len() ==> (#[trigger] hittable_hit_s(s2[i], r, tmin, tmax))
        is None {
        assert forall|i: int| 0 <= i < s1.len() implies (#[trigger] hittable_hit_s(
            s1[i],
            r,
            tmin,
            tmax,
        )) is None by {
            assert(s1.contains(s1[i]));
            assert(s2.contains(s1[i]));
            let j = choose|j: int| 0 <= j < s2.len() && s2[j] == s1[i];
            assert(hittable_hit_s(s2[j], r, tmin, tmax) is None);
        }
    }
}

/// A tree over the same surfaces as a flat list — in any order — misses
/// exactly when the list's linear scan misses.
pub proof fn lemma_tree_miss_iff_scan_miss(
    h: Hittable,
    s: Seq<Hittable>,
    r: Ray,
    tmin: int,
    tmax: int,
)
    requires
        hittable_wf(h),
        forall|x: Hittable| #[trigger] leaves_of(h).contains(x) <==> s.contains(x),
    ensures
        (hittable_hit_s(h, r, tmin, tmax) is None) <==> (scan_hit_s(s, r, tmin, tmax) is None),
{
    lemma_bvh_equals_scan(h, r, tmin, tmax);
    lemma_scan_miss_permutation(leaves_of(h), s, r, tmin, tmax);
}

/// Scanning a concatenation scans the first part, then the second part
/// over the window the first part narrowed.
proof fn lemma_scan_concat(s1: Seq<Hittable>, s2: Seq<Hittable>, r: Ray, tmin: int, tmax: int)
    ensures
        scan_hit_s(s1 + s2, r, tmin, tmax) == (match scan_hit_s(s1, r, tmin, tmax) {
            Some((h0, m0)) => match scan_hit_s(s2, r, tmin, h0.t as int) {
                Some(p) => Some(p),
                None => Some((h0, m0)),
            },
            None => scan_hit_s(s2, r, tmin, tmax),
        }),
    decreases s1.len(),
{
    if s1.len() == 0 {
        assert(s1 + s2 =~= s2);
    } else {
        assert((s1 + s2).len() > 0);
        assert((s1 + s2)[0] == s1[0]);
        assert((s1 + s2).drop_first() =~= s1.drop_first() + s2);
        match hittable_hit_s(s1[0], r, tmin, tmax) {
            Some((h0, m0)) => {
                lemma_scan_concat(s1.drop_first(), s2, r, tmin, h0.t as int);
            },
            None => {
                lemma_scan_concat(s1.drop_first(), s2, r, tmin, tmax);
            },
        }
    }
}

/// Every leaf under a well-formed surface is a well-formed sphere whose
/// box sits inside the surface's own box.
proof fn lemma_leaves_props(h: Hittable)
    requires
        hittable_wf(h),
    ensures
        forall|i: int| 0 <= i < leaves_of(h).len() ==> ((#[trigger] leaves_of(h)[i]) is Sphere
            && sphere_wf(leaves_of(h)[i]->Sphere_0) && box_subset(
            bbox_of(leaves_of(h)[i]),
            bbox_of(h),
        )),
    decreases h,
{
    match h {
        Hittable::Sphere(s) => {
            assert(leaves_of(h) =~= seq![h]);
        },
        Hittable::List(l) => {
            lemma_leaves_seq_props(l.objects@, l.bbox);
        },
        Hittable::BvhNode(n) => {
            lemma_leaves_props(*n.left);
            lemma_leaves_props(*n.right);
            let la = leaves_of(*n.left);
            let lb = leaves_of(*n.right);
            assert forall|i: int| 0 <= i < leaves_of(h).len() implies ((#[trigger] leaves_of(
                h,
            )[i]) is Sphere && sphere_wf(leaves_of(h)[i]->Sphere_0) && box_subset(
                bbox_of(leaves_of(h)[i]),
                bbox_of(h),
            )) by {
                if i < la.len() {
                    assert(leaves_of(h)[i] == la[i]);
                } else {
                    assert(leaves_of(h)[i] == lb[i - la.len()]);
                }
            }
        },
    }
}

proof fn lemma_leaves_seq_props(s: Seq<Hittable>, outer: Aabb)
    requires
        seq_wf(s),
        crate::hit_record::seq_boxes_in(s, outer),
    ensures
        forall|i: int| 0 <= i < leaves_seq(s).len() ==> ((#[trigger] leaves_seq(s)[i]) is Sphere
            && sphere_wf(leaves_seq(s)[i]->Sphere_0) && box_subset(
            bbox_of(leaves_seq(s)[i]),
            outer,
        )),
    decreases s,
{
    if s.len() > 0 {
        lemma_leaves_props(s[0]);
        assert(box_subset(bbox_of(s[0]), outer));
        assert(crate::hit_record::seq_boxes_in(s.drop_first(), outer)) by {
            assert forall|i: int| 0 <= i < s.drop_first().len() implies box_subset(
                bbox_of(#[trigger] s.drop_first()[i]),
                outer,
            ) by {
                assert(s.drop_first()[i] == s[i + 1]);
            }
        }
        lemma_leaves_seq_props(s.drop_first(), outer);
        let la = leaves_of(s[0]);
        let lb = leaves_seq(s.drop_first());
        assert forall|i: int| 0 <= i < leaves_seq(s).len() implies ((#[trigger] leaves_seq(
            s,
        )[i]) is Sphere && sphere_wf(leaves_seq(s)[i]->Sphere_0) && box_subset(
            bbox_of(leaves_seq(s)[i]),
            outer,
        )) by {
            if i < la.len() {
                assert(leaves_seq(s)[i] == la[i]);
            } else {
                assert(leaves_seq(s)[i] == lb[i - la.len()]);
            }
        }
    }
}

/// A scan over well-formed spheres whose boxes all sit inside a box the
/// ray misses finds nothing.
proof fn lemma_scan_all_miss(s: Seq<Hittable>, big: Aabb, r: Ray, tmin: int, tmax: int)
    requires
        forall|i: int| 0 <= i < s.len() ==> ((#[trigger] s[i]) is Sphere && sphere_wf(
            s[i]->Sphere_0,
        ) && box_subset(bbox_of(s[i]), big)),
        !box_hit_s(big, r.origin.0, r.direction, tmin, tmax),
    ensures
        scan_hit_s(s, r, tmin, tmax) is None,
    decreases s.len(),
{
    if s.len() > 0 {
        let sp = s[0]->Sphere_0;
        if box_hit_s(sp.bbox, r.origin.0, r.direction, tmin, tmax) {
            lemma_box_hit_mono(sp.bbox, big, r.origin.0, r.direction, tmin, tmax, tmin, tmax);
            assert(false);
        }
        assert(sphere_hit_full_s(sp, r, tmin, tmax) is None);
        assert(hittable_hit_s(s[0], r, tmin, tmax) is None);
        lemma_scan_all_miss(s.drop_first(), big, r, tmin, tmax);
    }
}

/// The acceleration structure changes nothing: for any ray and any
/// window, a well-formed surface tree reports exactly the hit that a
/// plain linear scan over its leaf spheres reports.
#[verifier::rlimit(100)]
pub proof fn lemma_bvh_equals_scan(h: Hittable, r: Ray, tmin: int, tmax: int)
    requires
        hittable_wf(h),
    ensures
        hittable_hit_s(h, r, tmin, tmax) == scan_hit_s(leaves_of(h), r, tmin, tmax),
    decreases h,
{
    match h {
        Hittable::Sphere(s) => {
            let lv = leaves_of(h);
            assert(lv =~= seq![h]);
            assert(lv.len() == 1);
            assert(lv[0] == h);
            assert(lv.drop_first() =~= Seq::<Hittable>::empty());
            match hittable_hit_s(h, r, tmin, tmax) {
                Some((h0, m0)) => {
                    assert(scan_hit_s(lv.drop_first(), r, tmin, h0.t as int) is None);
                    assert(scan_hit_s(lv, r, tmin, tmax) == Some((h0, m0)));
                },
                None => {
                    assert(scan_hit_s(lv.drop_first(), r, tmin, tmax) is None);
                    assert(scan_hit_s(lv, r, tmin, tmax) is None);
                },
            }
        },
        Hittable::List(l) => {
            lemma_scan_flatten(l.objects@, r, tmin, tmax);
        },
        Hittable::BvhNode(n) => {
            if !box_hit_s(n.bbox, r.origin.0, r.direction, tmin, tmax) {
                lemma_leaves_props(h);
                lemma_scan_all_miss(leaves_of(h), n.bbox, r, tmin, tmax);
            } else {
                let la = leaves_of(*n.left);
                let lb = leaves_of(*n.right);
                assert(leaves_of(h) == la + lb);
                lemma_bvh_equals_scan(*n.left, r, tmin, tmax);
                lemma_scan_concat(la, lb, r, tmin, tmax);
                match hittable_hit_s(*n.left, r, tmin, tmax) {
                    Some((hl, ml)) => {
                        lemma_bvh_equals_scan(*n.right, r, tmin, hl.t as int);
                        assert(scan_hit_s(la, r, tmin, tmax) == Some((hl, ml)));
                        assert(scan_hit_s(lb, r, tmin, hl.t as int) == hittable_hit_s(
                            *n.right,
                            r,
                            tmin,
                            hl.t as int,
                        ));
                        match hittable_hit_s(*n.right, r, tmin, hl.t as int) {
                            Some(pr) => {
                                assert(hittable_hit_s(h, r, tmin, tmax) == Some(pr));
                                assert(scan_hit_s(la + lb, r, tmin, tmax) == Some(pr));
                            },
                            None => {
                                assert(hittable_hit_s(h, r, tmin, tmax) == Some((hl, ml)));
                                assert(scan_hit_s(la + lb, r, tmin, tmax) == Some((hl, ml)));
                            },
                        }
                    },
                    None => {
                        lemma_bvh_equals_scan(*n.right, r, tmin, tmax);
                        assert(scan_hit_s(la, r, tmin, tmax) is None);
                        assert(hittable_hit_s(h, r, tmin, tmax) == hittable_hit_s(
                            *n.right,
                            r,
                            tmin,
                            tmax,
                        ));
                        assert(scan_hit_s(la + lb, r, tmin, tmax) == scan_hit_s(
                            lb,
                            r,
                            tmin,
                            tmax,
                        ));
                    },
                }
            }
        },
    }
}

/// Scanning a list of surfaces equals scanning their flattened leaves.
proof fn lemma_scan_flatten(s: Seq<Hittable>, r: Ray, tmin: int, tmax: int)
    requires
        seq_wf(s),
    ensures
        scan_hit_s(leaves_seq(s), r, tmin, tmax) == scan_hit_s(s, r, tmin, tmax),
    decreases s,
{
    if s.len() == 0 {
        assert(leaves_seq(s) =~= Seq::<Hittable>::empty());
    } else {
        lemma_bvh_equals_scan(s[0], r, tmin, tmax);
        lemma_scan_concat(leaves_of(s[0]), leaves_seq(s.drop_first()), r, tmin, tmax);
        match hittable_hit_s(s[0], r, tmin, tmax) {
            Some((h0, m0)) => {
                lemma_scan_flatten(s.drop_first(), r, tmin, h0.t as int);
            },
            None => {
                lemma_scan_flatten(s.drop_first(), r, tmin, tmax);
            },
        }
    }
}

/// Membership in a concatenation is membership in either part.
proof fn lemma_contains_concat(a: Seq<Hittable>, b: Seq<Hittable>, x: Hittable)
    ensures
        (a + b).contains(x) <==> (a.contains(x) || b.contains(x)),
{
    if a.contains(x) {
        let i = choose|i: int| 0 <= i < a.len() && a[i] == x;
        assert((a + b)[i] == x);
    }
    if b.contains(x) {
        let i = choose|i: int| 0 <= i < b.len() && b[i] == x;
        assert((a + b)[a.len() + i] == x);
    }
    if (a + b).contains(x) {
        let i = choose|i: int| 0 <= i < (a + b).len() && (a + b)[i] == x;
        if i < a.len() {
            assert(a[i] == x);
        } else {
            assert(b[i - a.len()] == x);
        }
    }
}

} // verus!
