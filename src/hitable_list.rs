use vstd::prelude::*;
use crate::aabb::AABB;
use crate::bvh::{encloses_exactly, indices_in};

verus! {

/// An unordered group of items, searched one after another.
#[derive(Debug, Clone)]
pub struct HitableList {
    pub hitables: Vec<usize>,
}

/// `f` answers as `ht2` does: `ht2(k, c)` is item `k`'s nearest hit closer than `c`.
pub open spec fn computes_windowed_hit<R, FI: Fn(usize, u32) -> Option<(u32, R)>>(
    f: FI,
    ht2: spec_fn(usize, u32) -> Option<(u32, R)>,
) -> bool {
    forall|k: usize, c: u32, x: Option<(u32, R)>| #[trigger] f.ensures((k, c), x) ==> x == ht2(k, c)
}

/// The record kept and the upper end of the window after the items `ks` have been
/// asked in order, each one only for a hit closer than the nearest found so far.
pub open spec fn scan_state<R>(ks: Seq<usize>, ht2: spec_fn(usize, u32) -> Option<(u32, R)>, t_max: u32) -> (Option<(u32, R)>, u32)
    decreases ks.len(),
{
    if ks.len() == 0 {
        (None, t_max)
    } else {
        let prev = scan_state(ks.drop_last(), ht2, t_max);
        match ht2(ks.last(), prev.1) {
            Some(h) => (Some(h), h.0),
            None => prev,
        }
    }
}

/// What a scan of `ks` returns.
pub open spec fn spec_scan<R>(ks: Seq<usize>, ht2: spec_fn(usize, u32) -> Option<(u32, R)>, t_max: u32) -> Option<(u32, R)> {
    scan_state(ks, ht2, t_max).0
}

impl HitableList {
    pub fn new(hitables: Vec<usize>) -> (r: HitableList)
        ensures
            r.hitables@ == hitables@,
    {
        HitableList { hitables }
    }

    /// Nearest hit among the items. Each item is asked, in order, for a hit nearer
    /// than `closest`, which starts at `t_max` and shrinks to every hit found.
    pub fn hit<R, FI>(&self, t_max: u32, item_hit: &FI) -> (r: Option<(u32, R)>)
        where
            FI: Fn(usize, u32) -> Option<(u32, R)>,
        requires
            forall|k: usize, c: u32| #[trigger] item_hit.requires((k, c)),
        ensures
            forall|ht2: spec_fn(usize, u32) -> Option<(u32, R)>|
                computes_windowed_hit(*item_hit, ht2) ==> r == #[trigger] spec_scan(self.hitables@, ht2, t_max),
    {
        let mut closest = t_max;
        let mut rec: Option<(u32, R)> = None;
        let mut i: usize = 0;
        while i < self.hitables.len()
            invariant
                0 <= i <= self.hitables.len(),
                forall|k: usize, c: u32| #[trigger] item_hit.requires((k, c)),
                forall|ht2: spec_fn(usize, u32) -> Option<(u32, R)>|
                    computes_windowed_hit(*item_hit, ht2)
                        ==> (rec, closest) == #[trigger] scan_state(self.hitables@.take(i as int), ht2, t_max),
            decreases self.hitables.len() - i,
        {
            let k = self.hitables[i];
            let found = item_hit(k, closest);
            let ghost old_rec = rec;
            let ghost old_closest = closest;
            match found {
                Some(h) => {
                    closest = h.0;
                    rec = Some(h);
                },
                None => {},
            }
            proof {
                assert forall|ht2: spec_fn(usize, u32) -> Option<(u32, R)>|
                    computes_windowed_hit(*item_hit, ht2)
                        implies (rec, closest) == #[trigger] scan_state(self.hitables@.take(i + 1), ht2, t_max) by {
                    let s = self.hitables@.take(i + 1);
                    assert(s.drop_last() =~= self.hitables@.take(i as int));
                    assert(s.last() == k);
                    assert(item_hit.ensures((k, old_closest), found));
                    assert((old_rec, old_closest) == scan_state(self.hitables@.take(i as int), ht2, t_max));
                }
            }
            i = i + 1;
        }
        proof {
            assert(self.hitables@.take(i as int) =~= self.hitables@);
        }
        rec
    }

    /// The smallest box around all items; none for an empty list.
    pub fn bounding_box(&self, boxes: &Vec<AABB>) -> (r: Option<AABB>)
        requires
            indices_in(self.hitables@, boxes@),
        ensures
            r is None <==> self.hitables@.len() == 0,
            r matches Some(b) ==> encloses_exactly(b, self.hitables@, boxes@),
    {
        if self.hitables.len() == 0 {
            return None;
        }
        let b = crate::bvh::enclosing_box(&self.hitables, 0, self.hitables.len(), boxes);
        proof {
            assert(self.hitables@.subrange(0, self.hitables@.len() as int) =~= self.hitables@);
        }
        Some(b)
    }
}

} // verus!
