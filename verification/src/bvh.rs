use vstd::prelude::*;

use crate::aabb::{spec_surround, surrounding_box, Aabb};
use crate::frac::Frac;
use crate::hittable::{chain2, chain2_exec, lemma_bbox_range, lemma_hit_props, HitRecord, Hittable};
use crate::hittable_list::{list_hit, HittableList};
use crate::ray::Ray;
use crate::rng::random_int;
use crate::vec3::Vec3;

verus! {

/// A node of the bounding-volume hierarchy: a leaf holding one
/// primitive, or an inner node whose cached box is exactly the
/// smallest box around its two children's boxes.
pub enum BvhNode {
    Leaf(Hittable),
    Node { left: Box<BvhNode>, right: Box<BvhNode>, bbox: Aabb },
}

/// A primitive's position key on the chosen axis: the low corner of
/// its bounding box.
pub open spec fn axis_key(h: Hittable, axis: int) -> int {
    h.spec_bbox().min.spec_axis(axis)
}

impl BvhNode {
    /// The tree invariant: leaves hold well-formed primitives, and
    /// every cached box is the exact union of its children's boxes.
    pub open spec fn wf(self) -> bool
        decreases self,
    {
        match self {
            BvhNode::Leaf(h) => h.wf(),
            BvhNode::Node { left, right, bbox } => {
                &&& left.wf()
                &&& right.wf()
                &&& bbox == spec_surround(left.spec_bbox(), right.spec_bbox())
                &&& bbox.wf()
            },
        }
    }

    pub open spec fn spec_bbox(self) -> Aabb
        decreases self,
    {
        match self {
            BvhNode::Leaf(h) => h.spec_bbox(),
            BvhNode::Node { left, right, bbox } => bbox,
        }
    }

    /// The primitives at the leaves, left to right.
    pub open spec fn leaves(self) -> Seq<Hittable>
        decreases self,
    {
        match self {
            BvhNode::Leaf(h) => seq![h],
            BvhNode::Node { left, right, bbox } => left.leaves() + right.leaves(),
        }
    }

    /// What a traversal computes: nothing if the ray misses the
    /// node's box; otherwise the nearer of the two children's hits.
    pub open spec fn spec_hit(self, r: Ray, t_min: Frac, t_max: Frac) -> Option<HitRecord>
        decreases self,
    {
        match self {
            BvhNode::Leaf(h) => h.spec_hit(r, t_min, t_max),
            BvhNode::Node { left, right, bbox } => {
                if !bbox.hit_sem(r, t_min, t_max) {
                    Option::None
                } else {
                    chain2(left.spec_hit(r, t_min, t_max), right.spec_hit(r, t_min, t_max))
                }
            },
        }
    }

    pub fn bounding_box(&self, time0: i64, time1: i64) -> (res: Aabb)
        requires
            self.wf(),
        ensures
            res == self.spec_bbox(),
            res.wf(),
    {
        match self {
            BvhNode::Leaf(h) => h.bounding_box(time0, time1),
            BvhNode::Node { left, right, bbox } => *bbox,
        }
    }

    /// Traverses the tree: the node box first (cheap rejection), then
    /// both children, keeping the nearer hit.
    pub fn hit(&self, r: &Ray, t_min: Frac, t_max: Frac) -> (res: Option<HitRecord>)
        requires
            self.wf(),
            r.orig.in_range(0x3000_0000),
            r.dir.in_range(0x1000_0000),
            t_min.wf(),
            t_max.wf(),
        ensures
            res == self.spec_hit(*r, t_min, t_max),
        decreases *self,
    {
        match self {
            BvhNode::Leaf(h) => h.hit(r, t_min, t_max),
            BvhNode::Node { left, right, bbox } => {
                if !bbox.hit(r, t_min, t_max) {
                    return None;
                }
                let hl = left.hit(r, t_min, t_max);
                let hr = right.hit(r, t_min, t_max);
                proof {
                    lemma_bvh_hit_props(**left, *r, t_min, t_max);
                    lemma_bvh_hit_props(**right, *r, t_min, t_max);
                }
                chain2_exec(hl, hr)
            },
        }
    }

    /// Builds the tree over `objects[start..end]` without touching
    /// the caller's collection: the range is copied, ordered by box
    /// minimum along a randomly drawn axis, and split at the middle
    /// recursively.
    pub fn build(
        objects: &Vec<Hittable>,
        start: usize,
        end: usize,
        time0: i64,
        time1: i64,
    ) -> (res: BvhNode)
        requires
            start < end <= objects.len(),
            forall|i: int| 0 <= i < objects.len() ==> objects[i].wf(),
        ensures
            res.wf(),
            res.leaves().to_multiset() == objects@.subrange(
                start as int,
                end as int,
            ).to_multiset(),
    {
        let ghost full = objects@;
        let mut local: Vec<Hittable> = Vec::new();
        let mut i: usize = start;
        while i < end
            invariant
                start <= i <= end <= objects.len(),
                full == objects@,
                forall|k: int| 0 <= k < objects.len() ==> objects[k].wf(),
                local@ =~= full.subrange(start as int, i as int),
            decreases end - i,
        {
            local.push(objects[i].duplicate());
            proof {
                assert(local@ =~= full.subrange(start as int, i + 1));
            }
            i = i + 1;
        }
        proof {
            assert forall|k: int| 0 <= k < local.len() implies local[k].wf() by {
                assert(local@[k] == full.subrange(start as int, end as int)[k]);
            }
        }
        let n = local.len();
        let ghost loc_pre = local@;
        let res = BvhNode::build_range(&mut local, 0, n, time0, time1);
        proof {
            assert(loc_pre.subrange(0, loc_pre.len() as int) =~= loc_pre);
            assert(loc_pre =~= full.subrange(start as int, end as int));
        }
        res
    }

    /// The recursive worker: consumes `objects[start..end]`, moving
    /// the elements into the leaves.
    fn build_range(
        objects: &mut Vec<Hittable>,
        start: usize,
        end: usize,
        time0: i64,
        time1: i64,
    ) -> (res: BvhNode)
        requires
            start < end <= old(objects).len(),
            forall|i: int| 0 <= i < old(objects).len() ==> old(objects)[i].wf(),
        ensures
            final(objects)@ == old(objects)@.subrange(0, start as int) + old(objects)@.subrange(
                end as int,
                old(objects)@.len() as int,
            ),
            forall|i: int| 0 <= i < final(objects).len() ==> final(objects)[i].wf(),
            res.wf(),
            res.leaves().to_multiset() == old(objects)@.subrange(
                start as int,
                end as int,
            ).to_multiset(),
        decreases end - start,
    {
        broadcast use vstd::seq_lib::group_to_multiset_ensures;
        broadcast use vstd::seq_lib::lemma_multiset_commutative;

        let ghost pre = objects@;
        let axis = random_int(0, 2) as usize;
        let span = end - start;
        if span == 1 {
            let h = objects.remove(start);
            proof {
                assert(objects@ =~= pre.subrange(0, start as int) + pre.subrange(
                    end as int,
                    pre.len() as int,
                ));
                assert(seq![h] =~= pre.subrange(start as int, end as int));
            }
            BvhNode::Leaf(h)
        } else if span == 2 {
            let first_less = box_lt(&objects[start], &objects[start + 1], axis);
            let (left, right) = if first_less {
                let right = objects.remove(start + 1);
                let left = objects.remove(start);
                (left, right)
            } else {
                let left = objects.remove(start + 1);
                let right = objects.remove(start);
                (left, right)
            };
            proof {
                assert(objects@ =~= pre.subrange(0, start as int) + pre.subrange(
                    end as int,
                    pre.len() as int,
                ));
                assert(seq![left] + seq![right] =~= seq![left, right]);
                broadcast use vstd::multiset::group_multiset_axioms;

                assert(seq![left, right] =~= Seq::<Hittable>::empty().push(left).push(right));
                assert(seq![right, left] =~= Seq::<Hittable>::empty().push(right).push(left));
                if first_less {
                    assert(seq![left, right] =~= pre.subrange(start as int, end as int));
                } else {
                    assert(seq![right, left] =~= pre.subrange(start as int, end as int));
                    assert(seq![left, right].to_multiset() =~= seq![right, left].to_multiset());
                }
            }
            let lb = left.bounding_box(time0, time1);
            let rb = right.bounding_box(time0, time1);
            let bbox = surrounding_box(&lb, &rb);
            let node = BvhNode::Node {
                left: Box::new(BvhNode::Leaf(left)),
                right: Box::new(BvhNode::Leaf(right)),
                bbox,
            };
            proof {
                assert(BvhNode::Leaf(left).wf());
                assert(BvhNode::Leaf(right).wf());
                assert(BvhNode::Leaf(left).leaves() =~= seq![left]);
                assert(BvhNode::Leaf(right).leaves() =~= seq![right]);
                assert(node.wf());
                assert(node.leaves() =~= seq![left, right]);
            }
            node
        } else {
            sort_range(objects, start, end, axis);
            let ghost sorted = objects@;
            let mid = start + span / 2;
            let right = BvhNode::build_range(objects, mid, end, time0, time1);
            let ghost after_right = objects@;
            let left = BvhNode::build_range(objects, start, mid, time0, time1);
            proof {
                assert(after_right.subrange(0, start as int) =~= sorted.subrange(0, start as int));
                assert(after_right.subrange(start as int, mid as int) =~= sorted.subrange(
                    start as int,
                    mid as int,
                ));
                assert(after_right.subrange(mid as int, after_right.len() as int) =~= sorted
                    .subrange(end as int, sorted.len() as int));
                assert(objects@ =~= pre.subrange(0, start as int) + pre.subrange(
                    end as int,
                    pre.len() as int,
                ));
                // The two halves together are the sorted range, a
                // permutation of the range as it stood before.
                assert(sorted.subrange(start as int, mid as int) + sorted.subrange(
                    mid as int,
                    end as int,
                ) =~= sorted.subrange(start as int, end as int));
            }
            let lb = left.bounding_box(time0, time1);
            let rb = right.bounding_box(time0, time1);
            let bbox = surrounding_box(&lb, &rb);
            let node = BvhNode::Node { left: Box::new(left), right: Box::new(right), bbox };
            proof {
                assert(node.wf());
                assert(node.leaves() == left.leaves() + right.leaves());
                assert(node.leaves().to_multiset() == left.leaves().to_multiset().add(
                    right.leaves().to_multiset(),
                ));
                assert(left.leaves().to_multiset() == sorted.subrange(
                    start as int,
                    mid as int,
                ).to_multiset());
                assert(right.leaves().to_multiset() == sorted.subrange(
                    mid as int,
                    end as int,
                ).to_multiset());
                assert(node.leaves().to_multiset() == sorted.subrange(
                    start as int,
                    end as int,
                ).to_multiset());
            }
            node
        }
    }

    /// Builds the tree over a whole list, leaving the list intact.
    pub fn new(list: &HittableList, time0: i64, time1: i64) -> (res: BvhNode)
        requires
            list.wf(),
            list.objects.len() >= 1,
        ensures
            res.wf(),
            res.leaves().to_multiset() == list.objects@.to_multiset(),
    {
        let n = list.objects.len();
        let res = BvhNode::build(&list.objects, 0, n, time0, time1);
        proof {
            assert(list.objects@.subrange(0, list.objects@.len() as int) =~= list.objects@);
        }
        res
    }
}

/// Whether the first primitive's box minimum lies strictly lower on
/// the axis.
fn box_lt(a: &Hittable, b: &Hittable, axis: usize) -> (r: bool)
    requires
        a.wf(),
        b.wf(),
        axis < 3,
    ensures
        r == (axis_key(*a, axis as int) < axis_key(*b, axis as int)),
{
    let ab = a.bounding_box(0, 0);
    let bb = b.bounding_box(0, 0);
    ab.min().axis(axis) < bb.min().axis(axis)
}

/// A traversal's record is well-formed and lies in the query window.
pub proof fn lemma_bvh_hit_props(n: BvhNode, r: Ray, t_min: Frac, t_max: Frac)
    requires
        n.wf(),
        r.orig.in_range(0x3000_0000),
        r.dir.in_range(0x1000_0000),
        t_min.wf(),
        t_max.wf(),
    ensures
        n.spec_hit(r, t_min, t_max) matches Option::Some(rec) ==> rec.wf() && t_min.spec_le(rec.t)
            && rec.t.spec_le(t_max),
    decreases n,
{
    match n {
        BvhNode::Leaf(h) => {
            lemma_hit_props(h, r, t_min, t_max, 0x1000_0000);
        },
        BvhNode::Node { left, right, bbox } => {
            lemma_bvh_hit_props(*left, r, t_min, t_max);
            lemma_bvh_hit_props(*right, r, t_min, t_max);
        },
    }
}

/// Orders `objects[start..end]` by box minimum on the axis with an
/// insertion sort; everything outside the range stays put, and the
/// range keeps exactly its elements.
fn sort_range(objects: &mut Vec<Hittable>, start: usize, end: usize, axis: usize)
    requires
        axis < 3,
        start <= end,
        end <= old(objects).len(),
        forall|i: int| 0 <= i < old(objects).len() ==> old(objects)[i].wf(),
    ensures
        final(objects).len() == old(objects).len(),
        forall|i: int| 0 <= i < final(objects).len() ==> final(objects)[i].wf(),
        final(objects)@.subrange(0, start as int) == old(objects)@.subrange(0, start as int),
        final(objects)@.subrange(end as int, final(objects)@.len() as int) == old(
            objects,
        )@.subrange(end as int, old(objects)@.len() as int),
        final(objects)@.subrange(start as int, end as int).to_multiset() == old(
            objects,
        )@.subrange(start as int, end as int).to_multiset(),
        forall|i: int, j: int|
            start <= i <= j < end ==> axis_key(final(objects)@[i], axis as int) <= axis_key(
                final(objects)@[j],
                axis as int,
            ),
{
    broadcast use vstd::seq_lib::group_to_multiset_ensures;
    broadcast use vstd::seq_lib::lemma_multiset_commutative;

    let ghost orig = objects@;
    if end - start <= 1 {
        return ;
    }
    let mut i: usize = start + 1;
    while i < end
        invariant
            axis < 3,
            start < end <= objects.len(),
            objects.len() == orig.len(),
            start + 1 <= i <= end,
            forall|m: int| 0 <= m < objects.len() ==> objects[m].wf(),
            objects@.subrange(0, start as int) == orig.subrange(0, start as int),
            objects@.subrange(end as int, objects@.len() as int) == orig.subrange(
                end as int,
                orig.len() as int,
            ),
            objects@.to_multiset() == orig.to_multiset(),
            forall|a: int, b: int|
                start <= a <= b < i ==> axis_key(objects@[a], axis as int) <= axis_key(
                    objects@[b],
                    axis as int,
                ),
        decreases end - i,
    {
        let ghost pre = objects@;
        let x = objects.remove(i);
        let xk = key_of(&x, axis);
        let mut j: usize = i;
        while j > start && key_of(&objects[j - 1], axis) > xk
            invariant
                axis < 3,
                start <= j <= i,
                i < objects@.len() + 1,
                objects@ == pre.remove(i as int),
                x == pre[i as int],
                xk == axis_key(x, axis as int),
                forall|m: int| 0 <= m < objects.len() ==> objects[m].wf(),
                forall|m: int|
                    j <= m < i ==> axis_key(#[trigger] objects@[m], axis as int) > xk,
            decreases j,
        {
            j = j - 1;
        }
        objects.insert(j, x);
        proof {
            lemma_sort_step(pre, objects@, orig, x, start as int, end as int, i as int, j as int, axis as int);
        }
        i = i + 1;
    }
    proof {
        lemma_range_multiset(objects@, orig, start as int, end as int);
    }
}

/// Exec read of the axis key.
fn key_of(h: &Hittable, axis: usize) -> (k: i64)
    requires
        h.wf(),
        axis < 3,
    ensures
        k == axis_key(*h, axis as int),
{
    let b = h.bounding_box(0, 0);
    b.min().axis(axis)
}

/// One insertion step keeps the sort loop's invariants.
proof fn lemma_sort_step(
    pre: Seq<Hittable>,
    cur: Seq<Hittable>,
    orig: Seq<Hittable>,
    x: Hittable,
    start: int,
    end: int,
    i: int,
    j: int,
    axis: int,
)
    requires
        0 <= start < end <= pre.len(),
        pre.len() == orig.len(),
        start + 1 <= i < end,
        start <= j <= i,
        x == pre[i],
        cur == pre.remove(i).insert(j, x),
        pre.subrange(0, start) == orig.subrange(0, start),
        pre.subrange(end, pre.len() as int) == orig.subrange(end, orig.len() as int),
        pre.to_multiset() == orig.to_multiset(),
        forall|a: int, b: int|
            start <= a <= b < i ==> axis_key(pre[a], axis) <= axis_key(pre[b], axis),
        forall|m: int| j <= m < i ==> axis_key(#[trigger] pre.remove(i)[m], axis) > axis_key(
            x,
            axis,
        ),
        j > start ==> axis_key(pre.remove(i)[j - 1], axis) <= axis_key(x, axis),
        forall|m: int| 0 <= m < pre.len() ==> pre[m].wf(),
    ensures
        cur.len() == orig.len(),
        forall|m: int| 0 <= m < cur.len() ==> cur[m].wf(),
        cur.subrange(0, start) == orig.subrange(0, start),
        cur.subrange(end, cur.len() as int) == orig.subrange(end, orig.len() as int),
        cur.to_multiset() == orig.to_multiset(),
        forall|a: int, b: int|
            start <= a <= b < i + 1 ==> axis_key(cur[a], axis) <= axis_key(cur[b], axis),
{
    broadcast use vstd::seq_lib::group_to_multiset_ensures;
    broadcast use vstd::multiset::group_multiset_axioms;

    let v = pre.remove(i);
    pre.remove_ensures(i);
    v.insert_ensures(j, x);
    assert(pre.contains(pre[i])) by {
        assert(0 <= i < pre.len() && pre[i] == pre[i]);
    }
    assert(pre.to_multiset().count(pre[i]) > 0);
    assert(v.to_multiset() == pre.to_multiset().remove(pre[i]));
    assert(cur.to_multiset() == v.to_multiset().insert(x));
    assert(cur.to_multiset() =~= orig.to_multiset());
    assert(cur.subrange(0, start) =~= orig.subrange(0, start));
    assert(cur.subrange(end, cur.len() as int) =~= orig.subrange(end, orig.len() as int));
    assert forall|m: int| 0 <= m < cur.len() implies cur[m].wf() by {
        if m < j {
        } else if m == j {
        } else {
        }
    }
    assert forall|a: int, b: int|
        start <= a <= b < i + 1 implies axis_key(cur[a], axis) <= axis_key(cur[b], axis) by {
        if a < j {
            assert(cur[a] == v[a] && v[a] == pre[a]);
        }
        if b < j {
            assert(cur[b] == v[b] && v[b] == pre[b]);
        }
        if j < a {
            assert(cur[a] == v[a - 1] && v[a - 1] == pre[a - 1]);
        }
        if j < b {
            assert(cur[b] == v[b - 1] && v[b - 1] == pre[b - 1]);
        }
        if j > start {
            assert(v[j - 1] == pre[j - 1]);
        }
    }
}

/// Every leaf of a well-formed tree is well-formed.
pub proof fn lemma_leaves_wf(n: BvhNode)
    requires
        n.wf(),
    ensures
        n.leaves().len() >= 1,
        forall|i: int| 0 <= i < n.leaves().len() ==> (#[trigger] n.leaves()[i]).wf(),
    decreases n,
{
    match n {
        BvhNode::Leaf(h) => {},
        BvhNode::Node { left, right, bbox } => {
            lemma_leaves_wf(*left);
            lemma_leaves_wf(*right);
            assert forall|i: int| 0 <= i < n.leaves().len() implies (#[trigger] n.leaves()[i]).wf() by {
                if i < left.leaves().len() {
                    assert(n.leaves()[i] == left.leaves()[i]);
                } else {
                    assert(n.leaves()[i] == right.leaves()[i - left.leaves().len()]);
                }
            }
        },
    }
}

/// The cached box of every node encloses the box of every leaf below
/// it: the tree's boxes really do bound their subtrees.
pub proof fn lemma_node_encloses_leaves(n: BvhNode)
    requires
        n.wf(),
    ensures
        forall|i: int|
            0 <= i < n.leaves().len() ==> n.spec_bbox().encloses(
                (#[trigger] n.leaves()[i]).spec_bbox(),
            ),
    decreases n,
{
    match n {
        BvhNode::Leaf(h) => {},
        BvhNode::Node { left, right, bbox } => {
            lemma_node_encloses_leaves(*left);
            lemma_node_encloses_leaves(*right);
            crate::aabb::lemma_surround_encloses(left.spec_bbox(), right.spec_bbox());
            assert forall|i: int|
                0 <= i < n.leaves().len() implies n.spec_bbox().encloses(
                (#[trigger] n.leaves()[i]).spec_bbox(),
            ) by {
                if i < left.leaves().len() {
                    assert(n.leaves()[i] == left.leaves()[i]);
                    crate::aabb::lemma_encloses_trans(
                        n.spec_bbox(),
                        left.spec_bbox(),
                        left.leaves()[i].spec_bbox(),
                    );
                } else {
                    assert(n.leaves()[i] == right.leaves()[i - left.leaves().len()]);
                    crate::aabb::lemma_encloses_trans(
                        n.spec_bbox(),
                        right.spec_bbox(),
                        right.leaves()[i - left.leaves().len()].spec_bbox(),
                    );
                }
            }
        },
    }
}

/// `chain2` is associative, so chaining respects how an aggregate is
/// split in two.
proof fn lemma_chain2_assoc(x: Option<HitRecord>, y: Option<HitRecord>, z: Option<HitRecord>)
    requires
        x matches Option::Some(a) ==> a.t.wf(),
        y matches Option::Some(a) ==> a.t.wf(),
        z matches Option::Some(a) ==> a.t.wf(),
    ensures
        chain2(chain2(x, y), z) == chain2(x, chain2(y, z)),
{
    if x is Some && y is Some && z is Some {
        let a = x.unwrap().t;
        let b = y.unwrap().t;
        let c = z.unwrap().t;
        crate::frac::lemma_le_total(a, b);
        crate::frac::lemma_le_total(b, c);
        crate::frac::lemma_le_total(a, c);
        if b.spec_le(a) && c.spec_le(b) {
            crate::frac::lemma_le_trans(c, b, a);
        }
        if !b.spec_le(a) && !c.spec_le(b) {
            crate::frac::lemma_le_trans(a, b, c);
            if c.spec_le(a) {
                crate::frac::lemma_le_trans(c, a, b);
            }
        }
    }
}

/// Records reported over a sequence are well-formed.
proof fn lemma_list_hit_wf(s: Seq<Hittable>, r: Ray, t_min: Frac, t_max: Frac)
    requires
        forall|i: int| 0 <= i < s.len() ==> (#[trigger] s[i]).wf(),
        r.orig.in_range(0x3000_0000),
        r.dir.in_range(0x1000_0000),
        t_min.wf(),
        t_max.wf(),
    ensures
        list_hit(s, r, t_min, t_max) matches Option::Some(h) ==> h.t.wf(),
    decreases s.len(),
{
    if s.len() > 0 {
        assert forall|i: int| 0 <= i < s.drop_last().len() implies (#[trigger] s.drop_last()[i]).wf() by {
            assert(s.drop_last()[i] == s[i]);
        }
        lemma_list_hit_wf(s.drop_last(), r, t_min, t_max);
        lemma_hit_props(s.last(), r, t_min, t_max, 0x1000_0000);
    }
}

/// Chaining distributes over concatenation.
proof fn lemma_list_hit_append(s1: Seq<Hittable>, s2: Seq<Hittable>, r: Ray, t_min: Frac, t_max: Frac)
    requires
        forall|i: int| 0 <= i < s1.len() ==> (#[trigger] s1[i]).wf(),
        forall|i: int| 0 <= i < s2.len() ==> (#[trigger] s2[i]).wf(),
        r.orig.in_range(0x3000_0000),
        r.dir.in_range(0x1000_0000),
        t_min.wf(),
        t_max.wf(),
    ensures
        list_hit(s1 + s2, r, t_min, t_max) == chain2(
            list_hit(s1, r, t_min, t_max),
            list_hit(s2, r, t_min, t_max),
        ),
    decreases s2.len(),
{
    if s2.len() == 0 {
        assert(s1 + s2 =~= s1);
        assert(list_hit(s2, r, t_min, t_max) is None);
    } else {
        let s2p = s2.drop_last();
        assert forall|i: int| 0 <= i < s2p.len() implies (#[trigger] s2p[i]).wf() by {
            assert(s2p[i] == s2[i]);
        }
        lemma_list_hit_append(s1, s2p, r, t_min, t_max);
        assert((s1 + s2).drop_last() =~= s1 + s2p);
        assert((s1 + s2).last() == s2.last());
        lemma_list_hit_wf(s1, r, t_min, t_max);
        lemma_list_hit_wf(s2p, r, t_min, t_max);
        lemma_hit_props(s2.last(), r, t_min, t_max, 0x1000_0000);
        lemma_chain2_assoc(
            list_hit(s1, r, t_min, t_max),
            list_hit(s2p, r, t_min, t_max),
            s2.last().spec_hit(r, t_min, t_max),
        );
    }
}

/// The central traversal theorem: with the tree invariant, querying
/// the hierarchy gives exactly the nearest-hit answer of the flat
/// list of its leaves — the box rejections never drop a hit.
pub proof fn lemma_bvh_matches_list(n: BvhNode, r: Ray, t_min: Frac, t_max: Frac)
    requires
        n.wf(),
        r.orig.in_range(0x3000_0000),
        r.dir.in_range(0x1000_0000),
        t_min.wf(),
        t_max.wf(),
    ensures
        n.spec_hit(r, t_min, t_max) == list_hit(n.leaves(), r, t_min, t_max),
    decreases n,
{
    lemma_leaves_wf(n);
    match n {
        BvhNode::Leaf(h) => {
            assert(seq![h].drop_last() =~= Seq::<Hittable>::empty());
            assert(seq![h].last() == h);
            assert(list_hit(Seq::<Hittable>::empty(), r, t_min, t_max) is None);
            assert(list_hit(seq![h], r, t_min, t_max) == chain2(
                list_hit(Seq::<Hittable>::empty(), r, t_min, t_max),
                h.spec_hit(r, t_min, t_max),
            ));
        },
        BvhNode::Node { left, right, bbox } => {
            lemma_leaves_wf(*left);
            lemma_leaves_wf(*right);
            if bbox.hit_sem(r, t_min, t_max) {
                lemma_bvh_matches_list(*left, r, t_min, t_max);
                lemma_bvh_matches_list(*right, r, t_min, t_max);
                lemma_list_hit_append(left.leaves(), right.leaves(), r, t_min, t_max);
            } else {
                lemma_subtree_all_miss(n, r, t_min, t_max);
                if list_hit(n.leaves(), r, t_min, t_max) is Some {
                    crate::hittable_list::lemma_list_hit_member(n.leaves(), r, t_min, t_max);
                }
            }
        },
    }
}

/// When a node's box misses the window, every leaf below it misses
/// too.
proof fn lemma_subtree_all_miss(n: BvhNode, r: Ray, t_min: Frac, t_max: Frac)
    requires
        n.wf(),
        r.orig.in_range(0x3000_0000),
        r.dir.in_range(0x1000_0000),
        t_min.wf(),
        t_max.wf(),
        !n.spec_bbox().hit_sem(r, t_min, t_max),
    ensures
        forall|i: int|
            0 <= i < n.leaves().len() ==> (#[trigger] n.leaves()[i]).spec_hit(r, t_min, t_max)
                is None,
{
    lemma_leaves_wf(n);
    lemma_node_encloses_leaves(n);
    assert forall|i: int|
        0 <= i < n.leaves().len() implies (#[trigger] n.leaves()[i]).spec_hit(r, t_min, t_max)
        is None by {
        let h = n.leaves()[i];
        if !h.spec_bbox().hit_sem(r, t_min, t_max) {
            crate::hittable::lemma_miss_box_no_hit(h, r, t_min, t_max);
        } else {
            crate::aabb::lemma_hit_sem_monotone(n.spec_bbox(), h.spec_bbox(), r, t_min, t_max);
            assert(false);
        }
    }
}

/// Equal outside a range and equal overall force the range itself to
/// hold the same elements.
proof fn lemma_range_multiset(cur: Seq<Hittable>, orig: Seq<Hittable>, start: int, end: int)
    requires
        cur.len() == orig.len(),
        0 <= start <= end <= cur.len(),
        cur.subrange(0, start) == orig.subrange(0, start),
        cur.subrange(end, cur.len() as int) == orig.subrange(end, orig.len() as int),
        cur.to_multiset() == orig.to_multiset(),
    ensures
        cur.subrange(start, end).to_multiset() == orig.subrange(start, end).to_multiset(),
{
    broadcast use vstd::multiset::group_multiset_axioms;

    vstd::seq_lib::lemma_multiset_commutative(cur.subrange(0, start), cur.subrange(start, end));
    vstd::seq_lib::lemma_multiset_commutative(
        cur.subrange(0, start) + cur.subrange(start, end),
        cur.subrange(end, cur.len() as int),
    );
    vstd::seq_lib::lemma_multiset_commutative(orig.subrange(0, start), orig.subrange(start, end));
    vstd::seq_lib::lemma_multiset_commutative(
        orig.subrange(0, start) + orig.subrange(start, end),
        orig.subrange(end, orig.len() as int),
    );
    assert(cur.subrange(0, start) + cur.subrange(start, end) + cur.subrange(
        end,
        cur.len() as int,
    ) =~= cur);
    assert(orig.subrange(0, start) + orig.subrange(start, end) + orig.subrange(
        end,
        orig.len() as int,
    ) =~= orig);
    assert(cur.subrange(start, end).to_multiset() =~= orig.subrange(start, end).to_multiset()) by {
        let p = cur.subrange(0, start).to_multiset();
        let s = cur.subrange(end, cur.len() as int).to_multiset();
        let m1 = cur.subrange(start, end).to_multiset();
        let m2 = orig.subrange(start, end).to_multiset();
        assert(p.add(m1).add(s) =~= p.add(m2).add(s));
        assert forall|e: Hittable| m1.count(e) == m2.count(e) by {
            assert(p.add(m1).add(s).count(e) == p.count(e) + m1.count(e) + s.count(e));
            assert(p.add(m2).add(s).count(e) == p.count(e) + m2.count(e) + s.count(e));
        }
    }
}

} // verus!
