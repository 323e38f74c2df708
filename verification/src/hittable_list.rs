use vstd::prelude::*;

use crate::aabb::{spec_surround, surrounding_box, Aabb};
use crate::frac::{lemma_le_total, lemma_le_trans, Frac};
use crate::hittable::{chain2, chain2_exec, lemma_bbox_range, lemma_hit_props, HitRecord, Hittable};
use crate::ray::Ray;

verus! {

/// The nearest hit over a sequence of primitives: each member is
/// queried over the full window and a nearer parametric distance
/// wins, later members taking ties.
pub open spec fn list_hit(s: Seq<Hittable>, r: Ray, t_min: Frac, t_max: Frac) -> Option<HitRecord>
    decreases s.len(),
{
    if s.len() == 0 {
        Option::None
    } else {
        chain2(list_hit(s.drop_last(), r, t_min, t_max), s.last().spec_hit(r, t_min, t_max))
    }
}

/// The box around all members (meaningful only for a nonempty list).
pub open spec fn list_bbox(s: Seq<Hittable>) -> Aabb
    decreases s.len(),
{
    if s.len() <= 1 {
        if s.len() == 0 {
            Aabb {
                min: crate::vec3::Vec3 { x: 0, y: 0, z: 0 },
                max: crate::vec3::Vec3 { x: 0, y: 0, z: 0 },
            }
        } else {
            s.last().spec_bbox()
        }
    } else {
        spec_surround(list_bbox(s.drop_last()), s.last().spec_bbox())
    }
}

/// An unordered aggregate of primitives queried as one unit.
pub struct HittableList {
    pub objects: Vec<Hittable>,
}

impl HittableList {
    pub open spec fn wf(self) -> bool {
        forall|i: int| 0 <= i < self.objects.len() ==> self.objects[i].wf()
    }

    pub fn new() -> (r: HittableList)
        ensures
            r.wf(),
            r.objects.len() == 0,
    {
        HittableList { objects: Vec::new() }
    }

    pub fn add(&mut self, object: Hittable) -> (res: ())
        requires
            old(self).wf(),
            object.wf(),
        ensures
            final(self).wf(),
            final(self).objects@ == old(self).objects@.push(object),
    {
        self.objects.push(object);
        proof {
            assert forall|i: int| 0 <= i < self.objects.len() implies self.objects[i].wf() by {
                if i < old(self).objects.len() {
                    assert(self.objects[i] == old(self).objects[i]);
                }
            }
        }
    }

    /// Queries every member and keeps the nearest hit.
    pub fn hit(&self, r: &Ray, t_min: Frac, t_max: Frac) -> (res: Option<HitRecord>)
        requires
            self.wf(),
            r.orig.in_range(0x3000_0000),
            r.dir.in_range(0x1000_0000),
            t_min.wf(),
            t_max.wf(),
        ensures
            res == list_hit(self.objects@, *r, t_min, t_max),
    {
        let ghost s = self.objects@;
        let mut best: Option<HitRecord> = None;
        let mut i: usize = 0;
        proof {
            assert(s.take(0) =~= Seq::<Hittable>::empty());
        }
        while i < self.objects.len()
            invariant
                self.wf(),
                r.orig.in_range(0x3000_0000),
                r.dir.in_range(0x1000_0000),
                t_min.wf(),
                t_max.wf(),
                s == self.objects@,
                i <= s.len(),
                best == list_hit(s.take(i as int), *r, t_min, t_max),
                best matches Option::Some(b) ==> b.t.wf(),
            decreases s.len() - i,
        {
            let nxt = self.objects[i].hit(r, t_min, t_max);
            proof {
                lemma_hit_props(s[i as int], *r, t_min, t_max, 0x1000_0000);
                assert(s.take(i + 1).drop_last() =~= s.take(i as int));
                assert(s.take(i + 1).last() == s[i as int]);
            }
            best = chain2_exec(best, nxt);
            i = i + 1;
        }
        proof {
            assert(s.take(s.len() as int) =~= s);
        }
        best
    }

    /// The box around every member; `None` for an empty list.
    pub fn bounding_box(&self, time0: i64, time1: i64) -> (res: Option<Aabb>)
        requires
            self.wf(),
        ensures
            res matches Option::Some(b) ==> self.objects.len() > 0 && b == list_bbox(
                self.objects@,
            ) && b.wf(),
            res is None ==> self.objects.len() == 0,
    {
        let ghost s = self.objects@;
        if self.objects.len() == 0 {
            return None;
        }
        let mut out = self.objects[0].bounding_box(time0, time1);
        proof {
            assert(s.take(1).drop_last() =~= Seq::<Hittable>::empty());
            assert(s.take(1).last() == s[0]);
        }
        let mut i: usize = 1;
        while i < self.objects.len()
            invariant
                self.wf(),
                s == self.objects@,
                1 <= i <= s.len(),
                out == list_bbox(s.take(i as int)),
                out.wf(),
            decreases s.len() - i,
        {
            let b = self.objects[i].bounding_box(time0, time1);
            proof {
                assert(s.take(i + 1).drop_last() =~= s.take(i as int));
                assert(s.take(i + 1).last() == s[i as int]);
            }
            out = surrounding_box(&out, &b);
            i = i + 1;
        }
        proof {
            assert(s.take(s.len() as int) =~= s);
        }
        Some(out)
    }
}

/// Where the aggregate reports no hit, no member hits at all.
pub proof fn lemma_list_hit_none(s: Seq<Hittable>, r: Ray, t_min: Frac, t_max: Frac, j: int)
    requires
        0 <= j < s.len(),
        list_hit(s, r, t_min, t_max) is None,
    ensures
        s[j].spec_hit(r, t_min, t_max) is None,
    decreases s.len(),
{
    if s.len() > 0 {
        assert(list_hit(s.drop_last(), r, t_min, t_max) is None);
        if j < s.len() - 1 {
            lemma_list_hit_none(s.drop_last(), r, t_min, t_max, j);
            assert(s.drop_last()[j] == s[j]);
        }
    }
}

/// What the aggregate reports is the hit of one of its members.
pub proof fn lemma_list_hit_member(s: Seq<Hittable>, r: Ray, t_min: Frac, t_max: Frac)
    requires
        list_hit(s, r, t_min, t_max) is Some,
    ensures
        exists|j: int|
            0 <= j < s.len() && s[j].spec_hit(r, t_min, t_max) == list_hit(s, r, t_min, t_max),
    decreases s.len(),
{
    let res = list_hit(s, r, t_min, t_max);
    let prev = list_hit(s.drop_last(), r, t_min, t_max);
    let lst = s.last().spec_hit(r, t_min, t_max);
    if lst is Some && res == lst {
        assert(s[s.len() - 1].spec_hit(r, t_min, t_max) == res);
    } else {
        assert(res == prev);
        lemma_list_hit_member(s.drop_last(), r, t_min, t_max);
        let j = choose|j: int|
            0 <= j < s.drop_last().len() && s.drop_last()[j].spec_hit(r, t_min, t_max) == prev;
        assert(s[j] == s.drop_last()[j]);
    }
}

/// The nearest-hit property: whatever any member reports, the
/// aggregate reports a hit at most that far away.
pub proof fn lemma_list_hit_nearest(s: Seq<Hittable>, r: Ray, t_min: Frac, t_max: Frac, j: int)
    requires
        0 <= j < s.len(),
        s[j].spec_hit(r, t_min, t_max) is Some,
        forall|i: int|
            0 <= i < s.len() ==> (#[trigger] s[i].spec_hit(r, t_min, t_max) matches Option::Some(h)
                ==> h.t.wf()),
    ensures
        list_hit(s, r, t_min, t_max) is Some,
        list_hit(s, r, t_min, t_max).unwrap().t.spec_le(
            s[j].spec_hit(r, t_min, t_max).unwrap().t,
        ),
    decreases s.len(),
{
    let res = list_hit(s, r, t_min, t_max);
    let prev = list_hit(s.drop_last(), r, t_min, t_max);
    let lst = s.last().spec_hit(r, t_min, t_max);
    assert(s.len() > 0);
    if prev is Some {
        lemma_list_hit_member(s.drop_last(), r, t_min, t_max);
        let m = choose|m: int|
            0 <= m < s.drop_last().len() && s.drop_last()[m].spec_hit(r, t_min, t_max) == prev;
        assert(s[m] == s.drop_last()[m]);
        assert(prev matches Option::Some(p) ==> p.t.wf());
    }
    if j == s.len() - 1 {
        let g = lst.unwrap();
        if prev is Some {
            let p = prev.unwrap();
            lemma_le_total(g.t, p.t);
        }
    } else {
        assert(s.drop_last()[j] == s[j]);
        assert(forall|i: int|
            0 <= i < s.drop_last().len() ==> (#[trigger] s.drop_last()[i].spec_hit(
                r,
                t_min,
                t_max,
            ) matches Option::Some(h) ==> h.t.wf())) by {
            assert forall|i: int| 0 <= i < s.drop_last().len() implies (#[trigger] s.drop_last()[i].spec_hit(
                r,
                t_min,
                t_max,
            ) matches Option::Some(h) ==> h.t.wf()) by {
                assert(s.drop_last()[i] == s[i]);
                assert(s[i].spec_hit(r, t_min, t_max) matches Option::Some(h) ==> h.t.wf());
            }
        }
        lemma_list_hit_nearest(s.drop_last(), r, t_min, t_max, j);
        let p = prev.unwrap();
        let g = s[j].spec_hit(r, t_min, t_max).unwrap();
        if lst is Some {
            let n = lst.unwrap();
            if n.t.spec_le(p.t) {
                lemma_le_trans(n.t, p.t, g.t);
            }
        }
    }
}

} // verus!
