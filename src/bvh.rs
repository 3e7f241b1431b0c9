use vstd::prelude::*;
use crate::aabb::AABB;
use crate::hitable_list::{scan_state, spec_scan};

verus! {

broadcast use vstd::seq_lib::group_to_multiset_ensures;

/// `outer` contains `inner` on every axis.
pub open spec fn contains_box(outer: AABB, inner: AABB) -> bool {
    forall|a: int| 0 <= a < 3 ==> outer.min[a] <= inner.min[a] && inner.max[a] <= outer.max[a]
}

/// `b` is the smallest box around the boxes of the items in `idx`: it contains each
/// of them, and each of its faces is a face of one of them.
pub open spec fn encloses_exactly(b: AABB, idx: Seq<usize>, boxes: Seq<AABB>) -> bool {
    &&& forall|k: usize| #[trigger] idx.contains(k) ==> (k as int) < boxes.len() && contains_box(b, boxes[k as int])
    &&& forall|a: int| 0 <= a < 3 ==> #[trigger] min_attained(b, idx, boxes, a)
    &&& forall|a: int| 0 <= a < 3 ==> #[trigger] max_attained(b, idx, boxes, a)
}

/// The lower face of `b` on axis `a` is the lower face of one of the items' boxes.
pub open spec fn min_attained(b: AABB, idx: Seq<usize>, boxes: Seq<AABB>, a: int) -> bool {
    exists|k: usize| #[trigger] idx.contains(k) && b.min[a] == boxes[k as int].min[a]
}

/// The upper face of `b` on axis `a` is the upper face of one of the items' boxes.
pub open spec fn max_attained(b: AABB, idx: Seq<usize>, boxes: Seq<AABB>, a: int) -> bool {
    exists|k: usize| #[trigger] idx.contains(k) && b.max[a] == boxes[k as int].max[a]
}

/// Every index of `idx` names a box of `boxes`.
pub open spec fn indices_in(idx: Seq<usize>, boxes: Seq<AABB>) -> bool {
    forall|i: int| 0 <= i < idx.len() ==> (#[trigger] idx[i] as int) < boxes.len()
}

proof fn lemma_encloses_single(k: usize, boxes: Seq<AABB>)
    requires
        (k as int) < boxes.len(),
    ensures
        encloses_exactly(boxes[k as int], seq![k], boxes),
{
    assert(seq![k][0] == k);
    assert(seq![k].contains(k));
    assert forall|x: usize| #[trigger] seq![k].contains(x) implies x == k by {}
    assert forall|a: int| 0 <= a < 3 implies #[trigger] min_attained(boxes[k as int], seq![k], boxes, a) by {
        assert(seq![k].contains(k));
    }
    assert forall|a: int| 0 <= a < 3 implies #[trigger] max_attained(boxes[k as int], seq![k], boxes, a) by {
        assert(seq![k].contains(k));
    }
}

proof fn lemma_encloses_push(b: AABB, s: Seq<usize>, k: usize, boxes: Seq<AABB>)
    requires
        encloses_exactly(b, s, boxes),
        (k as int) < boxes.len(),
    ensures
        encloses_exactly(AABB::spec_surrounding(b, boxes[k as int]), s.push(k), boxes),
{
    let c = boxes[k as int];
    let r = AABB::spec_surrounding(b, c);
    let t = s.push(k);
    assert(t[s.len() as int] == k);
    assert forall|x: usize| #[trigger] t.contains(x) implies (x as int) < boxes.len() && contains_box(r, boxes[x as int]) by {
        if x != k {
            let i = choose|i: int| 0 <= i < t.len() && t[i] == x;
            assert(s[i] == x);
            assert(s.contains(x));
        }
    }
    assert forall|a: int| 0 <= a < 3 implies #[trigger] min_attained(r, t, boxes, a) by {
        assert(min_attained(b, s, boxes, a));
        if c.min[a] < b.min[a] {
            assert(t.contains(k));
        } else {
            let x = choose|x: usize| #[trigger] s.contains(x) && b.min[a] == boxes[x as int].min[a];
            let i = choose|i: int| 0 <= i < s.len() && s[i] == x;
            assert(t[i] == x);
            assert(t.contains(x));
        }
    }
    assert forall|a: int| 0 <= a < 3 implies #[trigger] max_attained(r, t, boxes, a) by {
        assert(max_attained(b, s, boxes, a));
        if c.max[a] > b.max[a] {
            assert(t.contains(k));
        } else {
            let x = choose|x: usize| #[trigger] s.contains(x) && b.max[a] == boxes[x as int].max[a];
            let i = choose|i: int| 0 <= i < s.len() && s[i] == x;
            assert(t[i] == x);
            assert(t.contains(x));
        }
    }
}

proof fn lemma_encloses_same_items(b: AABB, s1: Seq<usize>, s2: Seq<usize>, boxes: Seq<AABB>)
    requires
        encloses_exactly(b, s1, boxes),
        s1.to_multiset() =~= s2.to_multiset(),
    ensures
        encloses_exactly(b, s2, boxes),
{
    assert forall|x: usize| s1.contains(x) <==> #[trigger] s2.contains(x) by {
        assert(s1.to_multiset().count(x) == s2.to_multiset().count(x));
    }
    assert forall|a: int| 0 <= a < 3 implies #[trigger] min_attained(b, s2, boxes, a) by {
        assert(min_attained(b, s1, boxes, a));
        let k = choose|k: usize| #[trigger] s1.contains(k) && b.min[a] == boxes[k as int].min[a];
        assert(s1.contains(k) <==> s2.contains(k));
    }
    assert forall|a: int| 0 <= a < 3 implies #[trigger] max_attained(b, s2, boxes, a) by {
        assert(max_attained(b, s1, boxes, a));
        let k = choose|k: usize| #[trigger] s1.contains(k) && b.max[a] == boxes[k as int].max[a];
        assert(s1.contains(k) <==> s2.contains(k));
    }
}

/// The box around the items `l[lo..hi]`, merged from left to right.
pub(crate) fn enclosing_box(l: &Vec<usize>, lo: usize, hi: usize, boxes: &Vec<AABB>) -> (r: AABB)
    requires
        lo < hi <= l.len(),
        indices_in(l@, boxes@),
    ensures
        encloses_exactly(r, l@.subrange(lo as int, hi as int), boxes@),
{
    let mut b = boxes[l[lo]];
    proof {
        lemma_encloses_single(l@[lo as int], boxes@);
        assert(l@.subrange(lo as int, lo + 1) =~= seq![l@[lo as int]]);
    }
    let mut j: usize = lo + 1;
    while j < hi
        invariant
            lo < j <= hi <= l.len(),
            indices_in(l@, boxes@),
            encloses_exactly(b, l@.subrange(lo as int, j as int), boxes@),
        decreases hi - j,
    {
        proof {
            lemma_encloses_push(b, l@.subrange(lo as int, j as int), l@[j as int], boxes@);
            assert(l@.subrange(lo as int, j as int).push(l@[j as int]) =~= l@.subrange(lo as int, j + 1));
        }
        b = AABB::surrounding_box(b, boxes[l[j]]);
        j = j + 1;
    }
    b
}

/// The coordinate by which items are ordered before a split along `axis`:
/// the x minimum for the x axis, and the z minimum for both the y and the z axis.
/// A split along y thus orders by z as well; this decides only the shape of the
/// tree, never what a traversal of it finds.
pub open spec fn sort_coord(axis: usize) -> usize {
    if axis == 0 { 0 } else { 2 }
}

/// The order key of item `k` for a split along coordinate `c`.
pub open spec fn item_key(boxes: Seq<AABB>, k: usize, c: usize) -> u32 {
    boxes[k as int].min[c as int]
}

pub open spec fn sorted_by_min(s: Seq<usize>, boxes: Seq<AABB>, c: usize) -> bool {
    forall|i: int, j: int| 0 <= i < j < s.len() ==> item_key(boxes, #[trigger] s[i], c) <= item_key(boxes, #[trigger] s[j], c)
}

/// Holds of the items whose key on coordinate `c` is `v`.
pub open spec fn key_is(boxes: Seq<AABB>, c: usize, v: u32) -> spec_fn(usize) -> bool {
    |k: usize| item_key(boxes, k, c) == v
}

proof fn lemma_filter_none(s: Seq<usize>, pred: spec_fn(usize) -> bool)
    requires
        forall|i: int| 0 <= i < s.len() ==> !pred(#[trigger] s[i]),
    ensures
        s.filter(pred) =~= Seq::<usize>::empty(),
    decreases s.len(),
{
    reveal(Seq::filter);
    if s.len() > 0 {
        lemma_filter_none(s.drop_last(), pred);
        assert(!pred(s[s.len() - 1]));
    }
}

proof fn lemma_filter_push(s: Seq<usize>, x: usize, pred: spec_fn(usize) -> bool)
    ensures
        s.push(x).filter(pred) == (if pred(x) { s.filter(pred).push(x) } else { s.filter(pred) }),
{
    reveal(Seq::filter);
    assert(s.push(x).drop_last() =~= s);
}

/// Merges two ordered runs; on equal keys the item of `a` comes first.
fn merge_sorted(a: &Vec<usize>, b: &Vec<usize>, boxes: &Vec<AABB>, c: usize) -> (r: Vec<usize>)
    requires
        c < 3,
        indices_in(a@, boxes@),
        indices_in(b@, boxes@),
        sorted_by_min(a@, boxes@, c),
        sorted_by_min(b@, boxes@, c),
    ensures
        r@.len() == a@.len() + b@.len(),
        r@.to_multiset() =~= a@.to_multiset().add(b@.to_multiset()),
        sorted_by_min(r@, boxes@, c),
        indices_in(r@, boxes@),
        forall|v: u32| #[trigger] r@.filter(key_is(boxes@, c, v)) == a@.filter(key_is(boxes@, c, v)) + b@.filter(key_is(boxes@, c, v)),
{
    let mut out: Vec<usize> = Vec::new();
    let mut i: usize = 0;
    let mut j: usize = 0;
    proof {
        reveal(Seq::filter);
        assert(a@.take(0) =~= Seq::<usize>::empty());
        assert(b@.take(0) =~= Seq::<usize>::empty());
    }
    while i < a.len() || j < b.len()
        invariant
            c < 3,
            i <= a.len(),
            j <= b.len(),
            out@.len() == i + j,
            indices_in(a@, boxes@),
            indices_in(b@, boxes@),
            indices_in(out@, boxes@),
            sorted_by_min(a@, boxes@, c),
            sorted_by_min(b@, boxes@, c),
            sorted_by_min(out@, boxes@, c),
            out@.to_multiset() =~= a@.take(i as int).to_multiset().add(b@.take(j as int).to_multiset()),
            out@.len() > 0 && i < a.len() ==> item_key(boxes@, out@.last(), c) <= item_key(boxes@, a@[i as int], c),
            out@.len() > 0 && j < b.len() ==> item_key(boxes@, out@.last(), c) <= item_key(boxes@, b@[j as int], c),
            i < a.len() ==> forall|q: int| 0 <= q < j ==> item_key(boxes@, #[trigger] b@[q], c) < item_key(boxes@, a@[i as int], c),
            forall|v: u32| #[trigger] out@.filter(key_is(boxes@, c, v))
                == a@.take(i as int).filter(key_is(boxes@, c, v)) + b@.take(j as int).filter(key_is(boxes@, c, v)),
        decreases a.len() + b.len() - i - j,
    {
        let ghost before = out@;
        let take_a = j >= b.len() || (i < a.len() && boxes[a[i]].min[c] <= boxes[b[j]].min[c]);
        if take_a {
            let x = a[i];
            out.push(x);
            proof {
                assert(a@.take(i + 1) =~= a@.take(i as int).push(x));
                assert forall|v: u32| #[trigger] out@.filter(key_is(boxes@, c, v))
                    == a@.take(i + 1).filter(key_is(boxes@, c, v)) + b@.take(j as int).filter(key_is(boxes@, c, v)) by {
                    let pred = key_is(boxes@, c, v);
                    lemma_filter_push(before, x, pred);
                    lemma_filter_push(a@.take(i as int), x, pred);
                    if item_key(boxes@, x, c) == v {
                        assert forall|q: int| 0 <= q < b@.take(j as int).len() implies !pred(#[trigger] b@.take(j as int)[q]) by {
                            assert(b@.take(j as int)[q] == b@[q]);
                        }
                        lemma_filter_none(b@.take(j as int), pred);
                        assert(a@.take(i as int).filter(pred) + b@.take(j as int).filter(pred) =~= a@.take(i as int).filter(pred));
                        assert(a@.take(i as int).filter(pred).push(x) + b@.take(j as int).filter(pred) =~= a@.take(i as int).filter(pred).push(x));
                    }
                }
                assert forall|p: int, q: int| 0 <= p < q < out@.len() implies item_key(boxes@, #[trigger] out@[p], c) <= item_key(boxes@, #[trigger] out@[q], c) by {
                    if q < before.len() {
                        assert(out@[p] == before[p] && out@[q] == before[q]);
                    } else {
                        assert(out@[p] == before[p]);
                        assert(item_key(boxes@, before[p], c) <= item_key(boxes@, before.last(), c));
                    }
                }
                assert forall|q: int| 0 <= q < out@.len() implies (#[trigger] out@[q] as int) < boxes@.len() by {
                    if q < before.len() { assert(out@[q] == before[q]); }
                }
                if i + 1 < a.len() {
                    assert(item_key(boxes@, a@[i as int], c) <= item_key(boxes@, a@[i + 1], c));
                }
            }
            i = i + 1;
        } else {
            let x = b[j];
            out.push(x);
            proof {
                assert(b@.take(j + 1) =~= b@.take(j as int).push(x));
                assert forall|v: u32| #[trigger] out@.filter(key_is(boxes@, c, v))
                    == a@.take(i as int).filter(key_is(boxes@, c, v)) + b@.take(j + 1).filter(key_is(boxes@, c, v)) by {
                    let pred = key_is(boxes@, c, v);
                    lemma_filter_push(before, x, pred);
                    lemma_filter_push(b@.take(j as int), x, pred);
                    assert(a@.take(i as int).filter(pred) + b@.take(j as int).filter(pred).push(x)
                        =~= (a@.take(i as int).filter(pred) + b@.take(j as int).filter(pred)).push(x));
                }
                assert forall|p: int, q: int| 0 <= p < q < out@.len() implies item_key(boxes@, #[trigger] out@[p], c) <= item_key(boxes@, #[trigger] out@[q], c) by {
                    if q < before.len() {
                        assert(out@[p] == before[p] && out@[q] == before[q]);
                    } else {
                        assert(out@[p] == before[p]);
                        assert(item_key(boxes@, before[p], c) <= item_key(boxes@, before.last(), c));
                    }
                }
                assert forall|q: int| 0 <= q < out@.len() implies (#[trigger] out@[q] as int) < boxes@.len() by {
                    if q < before.len() { assert(out@[q] == before[q]); }
                }
                if j + 1 < b.len() {
                    assert(item_key(boxes@, b@[j as int], c) <= item_key(boxes@, b@[j + 1], c));
                }
            }
            j = j + 1;
        }
    }
    proof {
        assert(a@.take(i as int) =~= a@);
        assert(b@.take(j as int) =~= b@);
    }
    out
}

/// Orders the items by the minimum of their boxes on coordinate `c`; items with
/// equal minimums keep their order: for every key, the items that carry it come
/// out in the order they came in.
pub fn sort_by_min(l: Vec<usize>, boxes: &Vec<AABB>, c: usize) -> (r: Vec<usize>)
    requires
        c < 3,
        indices_in(l@, boxes@),
    ensures
        r@.len() == l@.len(),
        r@.to_multiset() =~= l@.to_multiset(),
        sorted_by_min(r@, boxes@, c),
        indices_in(r@, boxes@),
        forall|v: u32| #[trigger] r@.filter(key_is(boxes@, c, v)) == l@.filter(key_is(boxes@, c, v)),
    decreases l.len(),
{
    if l.len() <= 1 {
        return l;
    }
    let ghost whole = l@;
    let mid = l.len() / 2;
    let mut left = l;
    let right = left.split_off(mid);
    proof {
        assert(whole =~= left@ + right@);
        assert forall|q: int| 0 <= q < left@.len() implies (#[trigger] left@[q] as int) < boxes@.len() by {
            assert(left@[q] == whole[q]);
        }
        assert forall|q: int| 0 <= q < right@.len() implies (#[trigger] right@[q] as int) < boxes@.len() by {
            assert(right@[q] == whole[mid + q]);
        }
    }
    let ghost left_s = left@;
    let ghost right_s = right@;
    let sl = sort_by_min(left, boxes, c);
    let sr = sort_by_min(right, boxes, c);
    let r = merge_sorted(&sl, &sr, boxes, c);
    proof {
        vstd::seq_lib::lemma_multiset_commutative(left_s, right_s);
        assert forall|v: u32| #[trigger] r@.filter(key_is(boxes@, c, v)) == whole.filter(key_is(boxes@, c, v)) by {
            Seq::filter_distributes_over_add(left_s, right_s, key_is(boxes@, c, v));
        }
    }
    r
}

proof fn lemma_encloses_prepend(b: AABB, s: Seq<usize>, k: usize, boxes: Seq<AABB>)
    requires
        encloses_exactly(b, s, boxes),
        (k as int) < boxes.len(),
    ensures
        encloses_exactly(AABB::spec_surrounding(b, boxes[k as int]), seq![k] + s, boxes),
{
    lemma_encloses_push(b, s, k, boxes);
    vstd::seq_lib::lemma_multiset_commutative(seq![k], s);
    assert(s.push(k) =~= s + seq![k]);
    vstd::seq_lib::lemma_multiset_commutative(s, seq![k]);
    lemma_encloses_same_items(AABB::spec_surrounding(b, boxes[k as int]), s.push(k), seq![k] + s, boxes);
}

/// `c` is what `cost` gave for splitting the ordered items `l` after position `i`:
/// called with `i`, the box around `l[0..=i]`, `n - 1 - i` and the box around the rest.
pub open spec fn split_cost_is<FC: Fn(usize, AABB, usize, AABB) -> u32>(
    cost: FC,
    l: Seq<usize>,
    boxes: Seq<AABB>,
    i: int,
    c: u32,
) -> bool {
    exists|lb: AABB, rb: AABB|
        encloses_exactly(lb, l.subrange(0, i + 1), boxes)
        && encloses_exactly(rb, l.subrange(i + 1, l.len() as int), boxes)
        && #[trigger] cost.ensures((i as usize, lb, (l.len() - 1 - i) as usize, rb), c)
}

/// `i` is the first position of a least entry of `costs`.
pub open spec fn first_min(costs: Seq<u32>, i: int) -> bool {
    &&& 0 <= i < costs.len()
    &&& forall|j: int| 0 <= j < costs.len() ==> costs[i] <= #[trigger] costs[j]
    &&& forall|j: int| 0 <= j < i ==> costs[i] < #[trigger] costs[j]
}

/// How a node's items were ordered before they were cut: `sp` is what `spans`
/// gave for the node's box, and `sorted` holds the node's items ordered along the
/// longest of those spans.
pub open spec fn ordered_for_split<FS: Fn(AABB) -> [u32; 3]>(
    spans: FS,
    boxes: Seq<AABB>,
    aa_box: AABB,
    items: Seq<usize>,
    sp: [u32; 3],
    sorted: Seq<usize>,
) -> bool {
    &&& spans.ensures((aa_box,), sp)
    &&& sorted.to_multiset() =~= items.to_multiset()
    &&& sorted_by_min(sorted, boxes, sort_coord(AABB::spec_longest_axis(sp)))
}

/// The surface area heuristic's cut of a node: the items, ordered along the
/// longest span, are priced at every cut by `cost`, and the left child holds the
/// items before the first cheapest cut.
pub open spec fn sah_cut<FS: Fn(AABB) -> [u32; 3], FC: Fn(usize, AABB, usize, AABB) -> u32>(
    spans: FS,
    cost: FC,
    boxes: Seq<AABB>,
    aa_box: AABB,
    left_items: Seq<usize>,
    right_items: Seq<usize>,
    sp: [u32; 3],
    sorted: Seq<usize>,
    costs: Seq<u32>,
) -> bool {
    &&& ordered_for_split(spans, boxes, aa_box, left_items + right_items, sp, sorted)
    &&& costs.len() == sorted.len() - 1
    &&& forall|i: int| 0 <= i < costs.len() ==> #[trigger] split_cost_is(cost, sorted, boxes, i, costs[i])
    &&& first_min(costs, left_items.len() - 1)
    &&& left_items.to_multiset() =~= sorted.take(left_items.len() as int).to_multiset()
}

/// The midpoint cut of a node: the left child holds the first half, rounded down,
/// of the items ordered along the longest span.
pub open spec fn mid_cut<FS: Fn(AABB) -> [u32; 3]>(
    spans: FS,
    boxes: Seq<AABB>,
    aa_box: AABB,
    left_items: Seq<usize>,
    right_items: Seq<usize>,
    sp: [u32; 3],
    sorted: Seq<usize>,
) -> bool {
    &&& ordered_for_split(spans, boxes, aa_box, left_items + right_items, sp, sorted)
    &&& left_items.len() == sorted.len() / 2
    &&& left_items.to_multiset() =~= sorted.take(left_items.len() as int).to_multiset()
}

/// A node of the bounding volume hierarchy. Items are named by their index in the
/// scene's list of primitives; `Empty` stands for a missing child.
#[derive(Debug)]
pub enum BvhNode {
    Empty,
    Item(usize),
    Inner { left: Box<BvhNode>, right: Box<BvhNode>, aa_box: AABB },
}

impl BvhNode {
    /// The items of the subtree, left to right.
    pub open spec fn items(self) -> Seq<usize>
        decreases self,
    {
        match self {
            BvhNode::Empty => Seq::empty(),
            BvhNode::Item(k) => seq![k],
            BvhNode::Inner { left, right, aa_box: _ } => left.items() + right.items(),
        }
    }

    /// Every item names a box, and every inner node holds the smallest box around
    /// the boxes of its items.
    pub open spec fn well_formed(self, boxes: Seq<AABB>) -> bool
        decreases self,
    {
        match self {
            BvhNode::Empty => true,
            BvhNode::Item(k) => (k as int) < boxes.len(),
            BvhNode::Inner { left, right, aa_box } => {
                &&& left.well_formed(boxes)
                &&& right.well_formed(boxes)
                &&& encloses_exactly(aa_box, left.items() + right.items(), boxes)
            },
        }
    }

    /// The index of the cheapest split: the first among equally cheap ones.
    pub fn sah_split(costs: &Vec<u32>) -> (r: usize)
        requires
            costs.len() >= 1,
        ensures
            r < costs.len(),
            forall|j: int| 0 <= j < costs.len() ==> costs[r as int] <= costs[j],
            forall|j: int| 0 <= j < r ==> costs[r as int] < costs[j],
    {
        let mut best: usize = 0;
        let mut i: usize = 1;
        while i < costs.len()
            invariant
                0 <= best < i <= costs.len(),
                forall|j: int| 0 <= j < i ==> costs[best as int] <= costs[j],
                forall|j: int| 0 <= j < best ==> costs[best as int] < costs[j],
            decreases costs.len() - i,
        {
            if costs[i] < costs[best] {
                best = i;
            }
            i = i + 1;
        }
        best
    }

    /// The cost of each split of the ordered items `l`: entry `i` is what `cost`
    /// gives for the first `i + 1` items and the rest, as
    /// `cost(i, box of l[0..=i], n - 1 - i, box of l[i+1..n])`.
    pub fn split_costs<FC>(l: &Vec<usize>, boxes: &Vec<AABB>, cost: &FC) -> (r: Vec<u32>)
        where
            FC: Fn(usize, AABB, usize, AABB) -> u32,
        requires
            l.len() >= 2,
            indices_in(l@, boxes@),
            forall|i: usize, a: AABB, j: usize, c: AABB| #[trigger] cost.requires((i, a, j, c)),
        ensures
            r.len() == l.len() - 1,
            forall|i: int| 0 <= i < r.len() ==> #[trigger] split_cost_is(*cost, l@, boxes@, i, r[i]),
    {
        let n = l.len();
        let mut left_boxes: Vec<AABB> = Vec::new();
        let mut lb = boxes[l[0]];
        proof {
            lemma_encloses_single(l@[0], boxes@);
            assert(l@.subrange(0, 1) =~= seq![l@[0]]);
        }
        left_boxes.push(lb);
        let mut i: usize = 1;
        while i < n - 1
            invariant
                n == l.len(),
                1 <= i <= n - 1,
                indices_in(l@, boxes@),
                left_boxes.len() == i,
                lb == left_boxes[i - 1],
                forall|j: int| 0 <= j < i ==> encloses_exactly(#[trigger] left_boxes[j], l@.subrange(0, j + 1), boxes@),
            decreases n - i,
        {
            proof {
                lemma_encloses_push(lb, l@.subrange(0, i as int), l@[i as int], boxes@);
                assert(l@.subrange(0, i as int).push(l@[i as int]) =~= l@.subrange(0, i + 1));
            }
            lb = AABB::surrounding_box(lb, boxes[l[i]]);
            left_boxes.push(lb);
            i = i + 1;
        }
        // right_rev[m] holds the box around the last m + 1 items.
        let mut right_rev: Vec<AABB> = Vec::new();
        let mut rb = boxes[l[n - 1]];
        proof {
            lemma_encloses_single(l@[n - 1], boxes@);
            assert(l@.subrange(n - 1, n as int) =~= seq![l@[n - 1]]);
        }
        right_rev.push(rb);
        let mut m: usize = 1;
        while m < n - 1
            invariant
                n == l.len(),
                1 <= m <= n - 1,
                indices_in(l@, boxes@),
                right_rev.len() == m,
                rb == right_rev[m - 1],
                forall|j: int| 0 <= j < m ==> encloses_exactly(#[trigger] right_rev[j], l@.subrange(n - 1 - j, n as int), boxes@),
            decreases n - m,
        {
            proof {
                let k = l@[n - 1 - m];
                lemma_encloses_prepend(rb, l@.subrange(n - m, n as int), k, boxes@);
                assert(seq![k] + l@.subrange(n - m, n as int) =~= l@.subrange(n - 1 - m, n as int));
            }
            rb = AABB::surrounding_box(rb, boxes[l[n - 1 - m]]);
            right_rev.push(rb);
            m = m + 1;
        }
        let mut costs: Vec<u32> = Vec::new();
        let mut i: usize = 0;
        while i < n - 1
            invariant
                n == l.len(),
                0 <= i <= n - 1,
                left_boxes.len() == n - 1,
                right_rev.len() == n - 1,
                costs.len() == i,
                forall|i: usize, a: AABB, j: usize, c: AABB| #[trigger] cost.requires((i, a, j, c)),
                forall|j: int| 0 <= j < n - 1 ==> encloses_exactly(#[trigger] left_boxes[j], l@.subrange(0, j + 1), boxes@),
                forall|j: int| 0 <= j < n - 1 ==> encloses_exactly(#[trigger] right_rev[j], l@.subrange(n - 1 - j, n as int), boxes@),
                forall|j: int| 0 <= j < i ==> #[trigger] split_cost_is(*cost, l@, boxes@, j, costs[j]),
            decreases n - i,
        {
            let lb = left_boxes[i];
            let rb = right_rev[n - 2 - i];
            let c = cost(i, lb, n - 1 - i, rb);
            proof {
                assert(encloses_exactly(rb, l@.subrange(i + 1, n as int), boxes@));
            }
            let ghost before = costs@;
            costs.push(c);
            proof {
                assert forall|j: int| 0 <= j < i + 1 implies #[trigger] split_cost_is(*cost, l@, boxes@, j, costs[j]) by {
                    if j == i {
                        assert(costs[j] == c);
                    } else {
                        assert(costs@[j] == before[j]);
                    }
                }
            }
            i = i + 1;
        }
        costs
    }

    pub open spec fn is_inner(self) -> bool {
        self is Inner
    }

    /// The root's box; the empty box for a leaf.
    pub open spec fn spec_box(self) -> AABB {
        match self {
            BvhNode::Inner { left: _, right: _, aa_box } => aa_box,
            _ => AABB { min: [0, 0, 0], max: [0, 0, 0] },
        }
    }

    /// The tree has the shape that `new_sah` gives it.
    pub open spec fn sah_shaped<FS: Fn(AABB) -> [u32; 3], FC: Fn(usize, AABB, usize, AABB) -> u32>(
        self,
        boxes: Seq<AABB>,
        spans: FS,
        cost: FC,
    ) -> bool
        decreases self,
    {
        match self {
            BvhNode::Inner { left, right, aa_box } => {
                let n = left.items().len() + right.items().len();
                if n == 1 {
                    *left is Empty && *right is Item
                } else if n == 2 {
                    *left is Item && *right is Item
                } else {
                    &&& exists|sp: [u32; 3], sorted: Seq<usize>, costs: Seq<u32>|
                        #[trigger] sah_cut(spans, cost, boxes, aa_box, left.items(), right.items(), sp, sorted, costs)
                    &&& if left.items().len() == 1 { *left is Item } else { *left is Inner && left.sah_shaped(boxes, spans, cost) }
                    &&& if right.items().len() == 1 { *right is Item } else { *right is Inner && right.sah_shaped(boxes, spans, cost) }
                }
            },
            _ => true,
        }
    }

    /// The tree has the shape that `new` gives it.
    pub open spec fn mid_shaped<FS: Fn(AABB) -> [u32; 3]>(self, boxes: Seq<AABB>, spans: FS) -> bool
        decreases self,
    {
        match self {
            BvhNode::Inner { left, right, aa_box } => {
                let n = left.items().len() + right.items().len();
                if n == 1 {
                    *left is Item && *right is Empty
                } else if n == 2 {
                    &&& *left is Item && *right is Item
                    &&& exists|sp: [u32; 3], sorted: Seq<usize>|
                        #[trigger] ordered_for_split(spans, boxes, aa_box, left.items() + right.items(), sp, sorted)
                            && sorted == left.items() + right.items()
                } else {
                    &&& exists|sp: [u32; 3], sorted: Seq<usize>|
                        #[trigger] mid_cut(spans, boxes, aa_box, left.items(), right.items(), sp, sorted)
                    &&& *left is Inner && left.mid_shaped(boxes, spans)
                    &&& *right is Inner && right.mid_shaped(boxes, spans)
                }
            },
            _ => true,
        }
    }

    /// Builds the tree with splits chosen by the surface area heuristic.
    ///
    /// The root's box is the smallest around all items. One item becomes the right
    /// child alone; two items become two leaves, the first on the right. Otherwise
    /// the items are ordered along the longest axis of the root's box (`spans`
    /// gives a box's extent per axis), every split point is priced by `cost`
    /// (see `split_costs`), and the items are cut after the cheapest one. A side
    /// with one item becomes a leaf; a longer side becomes a subtree built the
    /// same way.
    pub fn new_sah<FS, FC>(l: Vec<usize>, boxes: &Vec<AABB>, spans: &FS, cost: &FC) -> (r: BvhNode)
        where
            FS: Fn(AABB) -> [u32; 3],
            FC: Fn(usize, AABB, usize, AABB) -> u32,
        requires
            l.len() >= 1,
            indices_in(l@, boxes@),
            forall|b: AABB| #[trigger] spans.requires((b,)),
            forall|i: usize, a: AABB, j: usize, c: AABB| #[trigger] cost.requires((i, a, j, c)),
        ensures
            r.is_inner(),
            r.well_formed(boxes@),
            r.items().to_multiset() =~= l@.to_multiset(),
            encloses_exactly(r.spec_box(), l@, boxes@),
            r.sah_shaped(boxes@, *spans, *cost),
            l.len() == 2 ==> r == (BvhNode::Inner {
                left: Box::new(BvhNode::Item(l@[1])),
                right: Box::new(BvhNode::Item(l@[0])),
                aa_box: r.spec_box(),
            }),
        decreases l.len(),
    {
        let n = l.len();
        let main_box = enclosing_box(&l, 0, n, boxes);
        proof {
            assert(l@.subrange(0, n as int) =~= l@);
        }
        if n == 1 {
            let k = l[0];
            let r = BvhNode::Inner { left: Box::new(BvhNode::Empty), right: Box::new(BvhNode::Item(k)), aa_box: main_box };
            proof {
                assert(l@ =~= seq![k]);
                assert(BvhNode::Empty.items() =~= Seq::<usize>::empty());
                assert(BvhNode::Item(k).items() =~= seq![k]);
                assert(BvhNode::Empty.well_formed(boxes@));
                assert(BvhNode::Item(k).well_formed(boxes@));
                assert(r.items() =~= seq![k]);
            }
            return r;
        }
        if n == 2 {
            let k0 = l[0];
            let k1 = l[1];
            let r = BvhNode::Inner { left: Box::new(BvhNode::Item(k1)), right: Box::new(BvhNode::Item(k0)), aa_box: main_box };
            proof {
                assert(l@ =~= seq![k0] + seq![k1]);
                assert(BvhNode::Item(k0).items() =~= seq![k0]);
                assert(BvhNode::Item(k1).items() =~= seq![k1]);
                assert(BvhNode::Item(k0).well_formed(boxes@));
                assert(BvhNode::Item(k1).well_formed(boxes@));
                assert(r.items() =~= seq![k1] + seq![k0]);
                vstd::seq_lib::lemma_multiset_commutative(seq![k0], seq![k1]);
                vstd::seq_lib::lemma_multiset_commutative(seq![k1], seq![k0]);
                lemma_encloses_same_items(main_box, l@, r.items(), boxes@);
            }
            return r;
        }
        let sp = spans(main_box);
        let axis = AABB::longest_axis(sp);
        let coord: usize = if axis == 0 { 0 } else { 2 };
        let sorted = sort_by_min(l, boxes, coord);
        let ghost sorted_s = sorted@;
        let costs = BvhNode::split_costs(&sorted, boxes, cost);
        let split = BvhNode::sah_split(&costs);
        let mut left_items = sorted;
        let right_items = left_items.split_off(split + 1);
        proof {
            assert(sorted@ =~= left_items@ + right_items@);
            vstd::seq_lib::lemma_multiset_commutative(left_items@, right_items@);
            assert forall|i: int| 0 <= i < left_items@.len() implies (#[trigger] left_items@[i] as int) < boxes@.len() by {
                assert(left_items@[i] == sorted@[i]);
            }
            assert forall|i: int| 0 <= i < right_items@.len() implies (#[trigger] right_items@[i] as int) < boxes@.len() by {
                assert(right_items@[i] == sorted@[left_items@.len() + i]);
            }
        }
        let left = if split == 0 {
            let k = left_items[0];
            proof {
                assert(left_items@ =~= seq![k]);
                assert(BvhNode::Item(k).items() =~= seq![k]);
                assert(BvhNode::Item(k).well_formed(boxes@));
            }
            BvhNode::Item(k)
        } else {
            BvhNode::new_sah(left_items, boxes, spans, cost)
        };
        let right = if split == n - 2 {
            let k = right_items[0];
            proof {
                assert(right_items@ =~= seq![k]);
                assert(BvhNode::Item(k).items() =~= seq![k]);
                assert(BvhNode::Item(k).well_formed(boxes@));
            }
            BvhNode::Item(k)
        } else {
            BvhNode::new_sah(right_items, boxes, spans, cost)
        };
        let r = BvhNode::Inner { left: Box::new(left), right: Box::new(right), aa_box: main_box };
        proof {
            assert(left_items@.len() + right_items@.len() == n);
            vstd::seq_lib::lemma_multiset_commutative(left.items(), right.items());
            assert(r.items() =~= left.items() + right.items());
            lemma_encloses_same_items(main_box, l@, r.items(), boxes@);
            assert(left.items().to_multiset().len() == left_items@.len());
            assert(right.items().to_multiset().len() == right_items@.len());
            assert(left_items@ =~= sorted_s.take(left_items@.len() as int));
            assert(sah_cut(*spans, *cost, boxes@, main_box, left.items(), right.items(), sp, sorted_s, costs@));
        }
        r
    }

    /// Builds the tree by halving: the items are ordered along the longest axis of
    /// their box (`spans` gives a box's extent per axis) and cut at the middle,
    /// `n / 2` items going left; both halves become subtrees. One item becomes the
    /// left child alone; two items become two leaves, the first on the left.
    pub fn new<FS>(l: Vec<usize>, boxes: &Vec<AABB>, spans: &FS) -> (r: BvhNode)
        where
            FS: Fn(AABB) -> [u32; 3],
        requires
            l.len() >= 1,
            indices_in(l@, boxes@),
            forall|b: AABB| #[trigger] spans.requires((b,)),
        ensures
            r.is_inner(),
            r.well_formed(boxes@),
            r.items().to_multiset() =~= l@.to_multiset(),
            encloses_exactly(r.spec_box(), l@, boxes@),
            r.mid_shaped(boxes@, *spans),
            l.len() == 1 ==> r == (BvhNode::Inner {
                left: Box::new(BvhNode::Item(l@[0])),
                right: Box::new(BvhNode::Empty),
                aa_box: r.spec_box(),
            }),
        decreases l.len(),
    {
        let n = l.len();
        let main_box = enclosing_box(&l, 0, n, boxes);
        proof {
            assert(l@.subrange(0, n as int) =~= l@);
        }
        if n == 1 {
            let k = l[0];
            let r = BvhNode::Inner { left: Box::new(BvhNode::Item(k)), right: Box::new(BvhNode::Empty), aa_box: main_box };
            proof {
                assert(l@ =~= seq![k]);
                assert(BvhNode::Empty.items() =~= Seq::<usize>::empty());
                assert(BvhNode::Item(k).items() =~= seq![k]);
                assert(BvhNode::Empty.well_formed(boxes@));
                assert(BvhNode::Item(k).well_formed(boxes@));
                assert(r.items() =~= seq![k]);
            }
            return r;
        }
        let sp = spans(main_box);
        let axis = AABB::longest_axis(sp);
        let coord: usize = if axis == 0 { 0 } else { 2 };
        let sorted = sort_by_min(l, boxes, coord);
        let ghost sorted_s = sorted@;
        if n == 2 {
            let k0 = sorted[0];
            let k1 = sorted[1];
            let r = BvhNode::Inner { left: Box::new(BvhNode::Item(k0)), right: Box::new(BvhNode::Item(k1)), aa_box: main_box };
            proof {
                assert(sorted@ =~= seq![k0] + seq![k1]);
                assert(BvhNode::Item(k0).items() =~= seq![k0]);
                assert(BvhNode::Item(k1).items() =~= seq![k1]);
                assert(BvhNode::Item(k0).well_formed(boxes@));
                assert(BvhNode::Item(k1).well_formed(boxes@));
                assert(r.items() =~= seq![k0] + seq![k1]);
                lemma_encloses_same_items(main_box, l@, r.items(), boxes@);
                assert(ordered_for_split(*spans, boxes@, main_box, r.items(), sp, sorted_s));
            }
            return r;
        }
        let mid = n / 2;
        let mut left_items = sorted;
        let right_items = left_items.split_off(mid);
        proof {
            assert(sorted@ =~= left_items@ + right_items@);
            vstd::seq_lib::lemma_multiset_commutative(left_items@, right_items@);
            assert forall|i: int| 0 <= i < left_items@.len() implies (#[trigger] left_items@[i] as int) < boxes@.len() by {
                assert(left_items@[i] == sorted@[i]);
            }
            assert forall|i: int| 0 <= i < right_items@.len() implies (#[trigger] right_items@[i] as int) < boxes@.len() by {
                assert(right_items@[i] == sorted@[left_items@.len() + i]);
            }
        }
        let left = BvhNode::new(left_items, boxes, spans);
        let right = BvhNode::new(right_items, boxes, spans);
        let r = BvhNode::Inner { left: Box::new(left), right: Box::new(right), aa_box: main_box };
        proof {
            assert(left_items@.len() + right_items@.len() == n);
            vstd::seq_lib::lemma_multiset_commutative(left.items(), right.items());
            assert(r.items() =~= left.items() + right.items());
            lemma_encloses_same_items(main_box, l@, r.items(), boxes@);
            assert(left.items().to_multiset().len() == left_items@.len());
            assert(left_items@ =~= sorted_s.take(left_items@.len() as int));
            assert(sorted_s.len() == n);
            assert(left.items().len() == n / 2);
            assert(right.items().to_multiset().len() == right_items@.len());
            assert(right.items().len() == n - n / 2);
            assert(ordered_for_split(*spans, boxes@, main_box, left.items() + right.items(), sp, sorted_s));
            assert(mid_cut(*spans, boxes@, main_box, left.items(), right.items(), sp, sorted_s));
            assert(left.is_inner() && left.mid_shaped(boxes@, *spans));
            assert(right.is_inner() && right.mid_shaped(boxes@, *spans));
        }
        r
    }

    /// What a traversal returns when `box_test` tells whether the ray meets a box
    /// inside the window and `item_hit` gives each item's nearest hit, as its
    /// parameter and record.
    pub open spec fn spec_hit<R>(self, box_test: spec_fn(AABB) -> bool, item_hit: spec_fn(usize) -> Option<(u32, R)>) -> Option<(u32, R)>
        decreases self,
    {
        match self {
            BvhNode::Empty => None,
            BvhNode::Item(k) => item_hit(k),
            BvhNode::Inner { left, right, aa_box } => {
                if !box_test(aa_box) {
                    None
                } else {
                    spec_closer(left.spec_hit(box_test, item_hit), right.spec_hit(box_test, item_hit))
                }
            },
        }
    }

    /// Nearest hit of the ray among the items of the tree. A subtree whose box
    /// fails `box_test` is skipped whole; otherwise both children are asked and
    /// the nearer answer is kept, the right one when both are equally near.
    pub fn hit<R, FB, FI>(&self, box_test: &FB, item_hit: &FI) -> (r: Option<(u32, R)>)
        where
            FB: Fn(AABB) -> bool,
            FI: Fn(usize) -> Option<(u32, R)>,
        requires
            forall|b: AABB| #[trigger] box_test.requires((b,)),
            forall|k: usize| #[trigger] item_hit.requires((k,)),
        ensures
            forall|bt: spec_fn(AABB) -> bool, ht: spec_fn(usize) -> Option<(u32, R)>|
                computes_box_test(*box_test, bt) && computes_item_hit(*item_hit, ht)
                    ==> r == #[trigger] self.spec_hit(bt, ht),
        decreases self,
    {
        match self {
            BvhNode::Empty => None,
            BvhNode::Item(k) => {
                let r = item_hit(*k);
                proof {
                    assert forall|bt: spec_fn(AABB) -> bool, ht: spec_fn(usize) -> Option<(u32, R)>|
                        computes_box_test(*box_test, bt) && computes_item_hit(*item_hit, ht)
                            implies r == #[trigger] self.spec_hit(bt, ht) by {
                        assert(item_hit.ensures((*k,), r));
                    }
                }
                r
            },
            BvhNode::Inner { left, right, aa_box } => {
                let meets = box_test(*aa_box);
                if !meets {
                    proof {
                        assert forall|bt: spec_fn(AABB) -> bool, ht: spec_fn(usize) -> Option<(u32, R)>|
                            computes_box_test(*box_test, bt) && computes_item_hit(*item_hit, ht)
                                implies None::<(u32, R)> == #[trigger] self.spec_hit(bt, ht) by {
                            assert(box_test.ensures((*aa_box,), meets));
                        }
                    }
                    return None;
                }
                let hl = left.hit(box_test, item_hit);
                let hr = right.hit(box_test, item_hit);
                let r = closer(hl, hr);
                proof {
                    assert forall|bt: spec_fn(AABB) -> bool, ht: spec_fn(usize) -> Option<(u32, R)>|
                        computes_box_test(*box_test, bt) && computes_item_hit(*item_hit, ht)
                            implies r == #[trigger] self.spec_hit(bt, ht) by {
                        assert(box_test.ensures((*aa_box,), meets));
                        assert(hl == left.spec_hit(bt, ht));
                        assert(hr == right.spec_hit(bt, ht));
                    }
                }
                r
            },
        }
    }
}

/// `f` answers as `bt` does.
pub open spec fn computes_box_test<FB: Fn(AABB) -> bool>(f: FB, bt: spec_fn(AABB) -> bool) -> bool {
    forall|b: AABB, x: bool| #[trigger] f.ensures((b,), x) ==> x == bt(b)
}

/// `f` answers as `ht` does.
pub open spec fn computes_item_hit<R, FI: Fn(usize) -> Option<(u32, R)>>(f: FI, ht: spec_fn(usize) -> Option<(u32, R)>) -> bool {
    forall|k: usize, x: Option<(u32, R)>| #[trigger] f.ensures((k,), x) ==> x == ht(k)
}

/// The nearer of two answers; the second when both are equally near.
pub open spec fn spec_closer<R>(a: Option<(u32, R)>, b: Option<(u32, R)>) -> Option<(u32, R)> {
    match (a, b) {
        (None, _) => b,
        (Some(_), None) => a,
        (Some(x), Some(y)) => if x.0 < y.0 { a } else { b },
    }
}

/// The nearer of two answers; the second when both are equally near.
pub fn closer<R>(a: Option<(u32, R)>, b: Option<(u32, R)>) -> (r: Option<(u32, R)>)
    ensures
        r == spec_closer(a, b),
{
    match (a, b) {
        (None, b) => b,
        (Some(x), None) => Some(x),
        (Some(x), Some(y)) => if x.0 < y.0 { Some(x) } else { Some(y) },
    }
}

/// The parameter of a hit; zero for no hit.
pub open spec fn hit_t<R>(o: Option<(u32, R)>) -> u32 {
    match o {
        Some(h) => h.0,
        None => 0,
    }
}

/// The box test never rejects a box that contains the box of an item that is hit.
pub open spec fn box_test_sound<R>(bt: spec_fn(AABB) -> bool, ht: spec_fn(usize) -> Option<(u32, R)>, boxes: Seq<AABB>) -> bool {
    forall|k: usize, b: AABB|
        #![trigger ht(k), contains_box(b, boxes[k as int])]
        (k as int) < boxes.len() && ht(k) is Some && contains_box(b, boxes[k as int]) ==> bt(b)
}

/// Asking an item for a hit nearer than `c` gives its nearest hit if that is nearer
/// than `c`, and nothing otherwise; every hit lies below `t_max`.
pub open spec fn windows_agree<R>(ht: spec_fn(usize) -> Option<(u32, R)>, ht2: spec_fn(usize, u32) -> Option<(u32, R)>, t_max: u32) -> bool {
    &&& forall|k: usize| #[trigger] ht(k) is Some ==> hit_t(ht(k)) < t_max
    &&& forall|k: usize, c: u32| c <= t_max ==> #[trigger] ht2(k, c) == (if ht(k) is Some && hit_t(ht(k)) < c { ht(k) } else { None })
}

/// `r` is a nearest hit among the items `ks`: nothing when none of them is hit;
/// otherwise the hit of one of them, no farther than the hit of any other.
pub open spec fn is_nearest<R>(r: Option<(u32, R)>, ks: Seq<usize>, ht: spec_fn(usize) -> Option<(u32, R)>) -> bool {
    match r {
        None => forall|k: usize| ks.contains(k) ==> #[trigger] ht(k) is None,
        Some(h) => {
            &&& exists|k: usize| ks.contains(k) && #[trigger] ht(k) == Some(h)
            &&& forall|k: usize| ks.contains(k) && #[trigger] ht(k) is Some ==> h.0 <= hit_t(ht(k))
        },
    }
}

proof fn lemma_contains_concat(a: Seq<usize>, b: Seq<usize>, k: usize)
    ensures
        (a + b).contains(k) <==> a.contains(k) || b.contains(k),
{
    if (a + b).contains(k) {
        let i = choose|i: int| 0 <= i < (a + b).len() && (a + b)[i] == k;
        if i < a.len() {
            assert(a[i] == k);
        } else {
            assert(b[i - a.len()] == k);
        }
    }
    if a.contains(k) {
        let i = choose|i: int| 0 <= i < a.len() && a[i] == k;
        assert((a + b)[i] == k);
    }
    if b.contains(k) {
        let i = choose|i: int| 0 <= i < b.len() && b[i] == k;
        assert((a + b)[a.len() + i] == k);
    }
}

/// A traversal finds a nearest hit among the tree's items, provided the box test
/// never rejects the box around an item that is hit.
pub proof fn lemma_tree_hit_is_nearest<R>(tree: BvhNode, boxes: Seq<AABB>, bt: spec_fn(AABB) -> bool, ht: spec_fn(usize) -> Option<(u32, R)>)
    requires
        tree.well_formed(boxes),
        box_test_sound(bt, ht, boxes),
    ensures
        is_nearest(tree.spec_hit(bt, ht), tree.items(), ht),
    decreases tree,
{
    match tree {
        BvhNode::Empty => {},
        BvhNode::Item(k) => {
            assert(seq![k][0] == k);
            assert forall|x: usize| #[trigger] seq![k].contains(x) implies x == k by {}
        },
        BvhNode::Inner { left, right, aa_box } => {
            let items = left.items() + right.items();
            if !bt(aa_box) {
                assert forall|k: usize| items.contains(k) implies #[trigger] ht(k) is None by {
                    assert(contains_box(aa_box, boxes[k as int]));
                }
            } else {
                lemma_tree_hit_is_nearest(*left, boxes, bt, ht);
                lemma_tree_hit_is_nearest(*right, boxes, bt, ht);
                let hl = left.spec_hit(bt, ht);
                let hr = right.spec_hit(bt, ht);
                assert forall|k: usize| items.contains(k) <==> left.items().contains(k) || right.items().contains(k) by {
                    lemma_contains_concat(left.items(), right.items(), k);
                }
                if let Some(x) = hl {
                    let kx = choose|k: usize| left.items().contains(k) && #[trigger] ht(k) == Some(x);
                    assert(items.contains(kx));
                }
                if let Some(y) = hr {
                    let ky = choose|k: usize| right.items().contains(k) && #[trigger] ht(k) == Some(y);
                    assert(items.contains(ky));
                }
            }
        },
    }
}

/// A scan that shrinks its window to every hit found ends with a nearest hit among
/// the items, and with its window's upper end at that hit (at `t_max` when none).
pub proof fn lemma_scan_is_nearest<R>(ks: Seq<usize>, ht: spec_fn(usize) -> Option<(u32, R)>, ht2: spec_fn(usize, u32) -> Option<(u32, R)>, t_max: u32)
    requires
        windows_agree(ht, ht2, t_max),
    ensures
        is_nearest(spec_scan(ks, ht2, t_max), ks, ht),
        scan_state(ks, ht2, t_max).1 == (match scan_state(ks, ht2, t_max).0 {
            Some(h) => h.0,
            None => t_max,
        }),
        scan_state(ks, ht2, t_max).1 <= t_max,
    decreases ks.len(),
{
    if ks.len() > 0 {
        let init = ks.drop_last();
        let last = ks.last();
        lemma_scan_is_nearest(init, ht, ht2, t_max);
        assert(ks =~= init.push(last));
        assert(ks[ks.len() - 1] == last);
        assert forall|k: usize| #[trigger] ks.contains(k) <==> init.contains(k) || k == last by {
            if ks.contains(k) && k != last {
                let i = choose|i: int| 0 <= i < ks.len() && ks[i] == k;
                assert(init[i] == k);
            }
            if init.contains(k) {
                let i = choose|i: int| 0 <= i < init.len() && init[i] == k;
                assert(ks[i] == k);
            }
        }
        let prev = scan_state(init, ht2, t_max);
        assert(ht2(last, prev.1) == (if ht(last) is Some && hit_t(ht(last)) < prev.1 { ht(last) } else { None }));
        if let Some(x) = prev.0 {
            let kx = choose|k: usize| init.contains(k) && #[trigger] ht(k) == Some(x);
            assert(ks.contains(kx));
        }
    }
}

/// The tree finds the same nearest hit as a scan of every item in turn: both find
/// a hit or neither does, at the same parameter; and the very same hit when no two
/// items are hit at one parameter. This holds for a tree over the scanned items
/// whose box test never rejects the box around an item that is hit.
pub proof fn lemma_bvh_hit_matches_scan<R>(
    tree: BvhNode,
    list: Seq<usize>,
    boxes: Seq<AABB>,
    bt: spec_fn(AABB) -> bool,
    ht: spec_fn(usize) -> Option<(u32, R)>,
    ht2: spec_fn(usize, u32) -> Option<(u32, R)>,
    t_max: u32,
)
    requires
        tree.well_formed(boxes),
        tree.items().to_multiset() =~= list.to_multiset(),
        box_test_sound(bt, ht, boxes),
        windows_agree(ht, ht2, t_max),
    ensures
        (tree.spec_hit(bt, ht) is None) == (spec_scan(list, ht2, t_max) is None),
        hit_t(tree.spec_hit(bt, ht)) == hit_t(spec_scan(list, ht2, t_max)),
        (forall|k1: usize, k2: usize|
            list.contains(k1) && list.contains(k2) && k1 != k2 && #[trigger] ht(k1) is Some && #[trigger] ht(k2) is Some
                ==> hit_t(ht(k1)) != hit_t(ht(k2)))
            ==> tree.spec_hit(bt, ht) == spec_scan(list, ht2, t_max),
{
    lemma_tree_hit_is_nearest(tree, boxes, bt, ht);
    lemma_scan_is_nearest(list, ht, ht2, t_max);
    let a = tree.spec_hit(bt, ht);
    let b = spec_scan(list, ht2, t_max);
    assert forall|k: usize| #[trigger] list.contains(k) <==> tree.items().contains(k) by {
        assert(list.to_multiset().count(k) == tree.items().to_multiset().count(k));
    }
    if let Some(x) = a {
        let kx = choose|k: usize| tree.items().contains(k) && #[trigger] ht(k) == Some(x);
        assert(list.contains(kx));
        if let Some(y) = b {
            let ky = choose|k: usize| list.contains(k) && #[trigger] ht(k) == Some(y);
            assert(tree.items().contains(ky));
        }
    } else if let Some(y) = b {
        let ky = choose|k: usize| list.contains(k) && #[trigger] ht(k) == Some(y);
        assert(tree.items().contains(ky));
    }
}

} // verus!
