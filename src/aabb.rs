use vstd::prelude::*;

verus! {

/// The larger of two keys.
pub open spec fn key_max(a: u32, b: u32) -> u32 {
    if a > b { a } else { b }
}

/// The smaller of two keys.
pub open spec fn key_min(a: u32, b: u32) -> u32 {
    if a < b { a } else { b }
}

/// The key of the negated value: negation reverses the order of keys.
pub open spec fn key_neg(a: u32) -> u32 {
    (u32::MAX - a) as u32
}

/// An axis-aligned box, its corners held as order keys, one per axis.
#[derive(Clone, Copy, Debug)]
pub struct AABB {
    pub min: [u32; 3],
    pub max: [u32; 3],
}

/// The parameter at which the ray enters the slab of axis `i`.
pub open spec fn slab_entry(t0: [u32; 3], t1: [u32; 3], dir_sign: [bool; 3], i: int) -> u32 {
    if dir_sign[i] { t1[i] } else { t0[i] }
}

/// The parameter at which the ray leaves the slab of axis `i`.
pub open spec fn slab_exit(t0: [u32; 3], t1: [u32; 3], dir_sign: [bool; 3], i: int) -> u32 {
    if dir_sign[i] { t0[i] } else { t1[i] }
}

/// Lower end of the window after the first `k` slabs have cut it.
pub open spec fn window_lo(t_min: u32, t0: [u32; 3], t1: [u32; 3], dir_sign: [bool; 3], k: int) -> u32
    decreases k,
{
    if k <= 0 {
        t_min
    } else {
        key_max(window_lo(t_min, t0, t1, dir_sign, k - 1), slab_entry(t0, t1, dir_sign, k - 1))
    }
}

/// Upper end of the window after the first `k` slabs have cut it.
pub open spec fn window_hi(t_max: u32, t0: [u32; 3], t1: [u32; 3], dir_sign: [bool; 3], k: int) -> u32
    decreases k,
{
    if k <= 0 {
        t_max
    } else {
        key_min(window_hi(t_max, t0, t1, dir_sign, k - 1), slab_exit(t0, t1, dir_sign, k - 1))
    }
}

/// The ray meets the box inside the window: the window cut by all three slabs is not empty.
pub open spec fn slabs_overlap(t_min: u32, t_max: u32, t0: [u32; 3], t1: [u32; 3], dir_sign: [bool; 3]) -> bool {
    window_lo(t_min, t0, t1, dir_sign, 3) < window_hi(t_max, t0, t1, dir_sign, 3)
}

proof fn lemma_window_monotone(t_min: u32, t_max: u32, t0: [u32; 3], t1: [u32; 3], dir_sign: [bool; 3], j: int, k: int)
    requires
        0 <= j <= k,
    ensures
        window_lo(t_min, t0, t1, dir_sign, j) <= window_lo(t_min, t0, t1, dir_sign, k),
        window_hi(t_max, t0, t1, dir_sign, k) <= window_hi(t_max, t0, t1, dir_sign, j),
    decreases k,
{
    if j < k {
        lemma_window_monotone(t_min, t_max, t0, t1, dir_sign, j, k - 1);
    }
}

impl AABB {
    pub fn new(min: [u32; 3], max: [u32; 3]) -> (r: AABB)
        ensures
            r.min == min,
            r.max == max,
    {
        AABB { min, max }
    }

    pub fn min(&self) -> (r: [u32; 3])
        ensures
            r == self.min,
    {
        self.min
    }

    pub fn max(&self) -> (r: [u32; 3])
        ensures
            r == self.max,
    {
        self.max
    }

    /// Every corner coordinate is no larger than its opposite.
    pub open spec fn well_formed(&self) -> bool {
        forall|i: int| 0 <= i < 3 ==> self.min[i] <= self.max[i]
    }

    /// The box that both boxes span: per axis the smaller minimum and the larger maximum.
    pub open spec fn spec_surrounding(a: AABB, b: AABB) -> AABB {
        AABB {
            min: [key_min(a.min[0], b.min[0]), key_min(a.min[1], b.min[1]), key_min(a.min[2], b.min[2])],
            max: [key_max(a.max[0], b.max[0]), key_max(a.max[1], b.max[1]), key_max(a.max[2], b.max[2])],
        }
    }

    pub fn surrounding_box(box0: AABB, box1: AABB) -> (r: AABB)
        ensures
            r == AABB::spec_surrounding(box0, box1),
            forall|i: int| 0 <= i < 3 ==> r.min[i] == key_min(box0.min[i], box1.min[i]),
            forall|i: int| 0 <= i < 3 ==> r.max[i] == key_max(box0.max[i], box1.max[i]),
    {
        let mut lo: [u32; 3] = [0, 0, 0];
        let mut hi: [u32; 3] = [0, 0, 0];
        let mut i: usize = 0;
        while i < 3
            invariant
                0 <= i <= 3,
                forall|j: int| 0 <= j < i ==> lo[j] == key_min(box0.min[j], box1.min[j]),
                forall|j: int| 0 <= j < i ==> hi[j] == key_max(box0.max[j], box1.max[j]),
            decreases 3 - i,
        {
            lo.set(i, if box0.min[i] < box1.min[i] { box0.min[i] } else { box1.min[i] });
            hi.set(i, if box0.max[i] > box1.max[i] { box0.max[i] } else { box1.max[i] });
            i = i + 1;
        }
        let r = AABB { min: lo, max: hi };
        assert(r.min =~= AABB::spec_surrounding(box0, box1).min);
        assert(r.max =~= AABB::spec_surrounding(box0, box1).max);
        r
    }

    /// The axis whose span is longest. Spans are given as keys, x, y, z.
    /// Ties go to the earlier axis: x wins when no other span is longer; otherwise
    /// y wins only when strictly longer than z; z is the fallback.
    pub open spec fn spec_longest_axis(spans: [u32; 3]) -> usize {
        if spans[0] >= spans[1] && spans[0] >= spans[2] {
            0
        } else if spans[1] > spans[2] {
            1
        } else {
            2
        }
    }

    pub fn longest_axis(spans: [u32; 3]) -> (r: usize)
        ensures
            r == AABB::spec_longest_axis(spans),
            r < 3,
            forall|i: int| 0 <= i < 3 ==> spans[i] <= spans[r as int],
    {
        if spans[0] >= spans[1] && spans[0] >= spans[2] {
            0
        } else if spans[1] > spans[2] {
            1
        } else {
            2
        }
    }

    /// Slab test. `t0[i]` and `t1[i]` are the parameters at which the ray crosses the
    /// lower and upper plane of axis `i`; `dir_sign[i]` says the ray runs towards
    /// negative values on that axis, so that it enters through the upper plane.
    /// The window `(t_min, t_max)` is narrowed axis by axis, and the test fails as
    /// soon as it becomes empty.
    pub fn hit_slabs(t_min: u32, t_max: u32, t0: [u32; 3], t1: [u32; 3], dir_sign: [bool; 3]) -> (r: bool)
        ensures
            r == slabs_overlap(t_min, t_max, t0, t1, dir_sign),
    {
        let mut lo = t_min;
        let mut hi = t_max;
        let mut i: usize = 0;
        while i < 3
            invariant
                0 <= i <= 3,
                lo == window_lo(t_min, t0, t1, dir_sign, i as int),
                hi == window_hi(t_max, t0, t1, dir_sign, i as int),
                lo < hi || i == 0,
            decreases 3 - i,
        {
            let (enter, leave) = if dir_sign[i] { (t1[i], t0[i]) } else { (t0[i], t1[i]) };
            lo = if enter > lo { enter } else { lo };
            hi = if leave < hi { leave } else { hi };
            if hi <= lo {
                proof {
                    lemma_window_monotone(t_min, t_max, t0, t1, dir_sign, (i + 1) as int, 3);
                }
                return false;
            }
            i = i + 1;
        }
        true
    }
}

/// Reversing a ray leaves the slab test's verdict unchanged. With the direction
/// reversed every crossing parameter is negated, the sign of each direction
/// component flips, and the window `(t_min, t_max)` becomes `(-t_max, -t_min)`:
/// the box is then met at the same points, and the test agrees.
pub proof fn lemma_slab_reversal(t_min: u32, t_max: u32, t0: [u32; 3], t1: [u32; 3], dir_sign: [bool; 3])
    ensures
        slabs_overlap(t_min, t_max, t0, t1, dir_sign) == slabs_overlap(
            key_neg(t_max),
            key_neg(t_min),
            [key_neg(t0[0]), key_neg(t0[1]), key_neg(t0[2])],
            [key_neg(t1[0]), key_neg(t1[1]), key_neg(t1[2])],
            [!dir_sign[0], !dir_sign[1], !dir_sign[2]],
        ),
{
    let n0 = [key_neg(t0[0]), key_neg(t0[1]), key_neg(t0[2])];
    let n1 = [key_neg(t1[0]), key_neg(t1[1]), key_neg(t1[2])];
    let ns = [!dir_sign[0], !dir_sign[1], !dir_sign[2]];
    assert forall|k: int| 0 <= k <= 3 implies
        window_lo(key_neg(t_max), n0, n1, ns, k) == key_neg(window_hi(t_max, t0, t1, dir_sign, k))
        && window_hi(key_neg(t_min), n0, n1, ns, k) == key_neg(window_lo(t_min, t0, t1, dir_sign, k)) by {
        lemma_reversed_windows(t_min, t_max, t0, t1, dir_sign, k);
    }
}

proof fn lemma_reversed_windows(t_min: u32, t_max: u32, t0: [u32; 3], t1: [u32; 3], dir_sign: [bool; 3], k: int)
    requires
        0 <= k <= 3,
    ensures
        window_lo(
            key_neg(t_max),
            [key_neg(t0[0]), key_neg(t0[1]), key_neg(t0[2])],
            [key_neg(t1[0]), key_neg(t1[1]), key_neg(t1[2])],
            [!dir_sign[0], !dir_sign[1], !dir_sign[2]],
            k,
        ) == key_neg(window_hi(t_max, t0, t1, dir_sign, k)),
        window_hi(
            key_neg(t_min),
            [key_neg(t0[0]), key_neg(t0[1]), key_neg(t0[2])],
            [key_neg(t1[0]), key_neg(t1[1]), key_neg(t1[2])],
            [!dir_sign[0], !dir_sign[1], !dir_sign[2]],
            k,
        ) == key_neg(window_lo(t_min, t0, t1, dir_sign, k)),
    decreases k,
{
    if k > 0 {
        lemma_reversed_windows(t_min, t_max, t0, t1, dir_sign, k - 1);
    }
}

} // verus!
