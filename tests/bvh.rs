use ray_tracer::aabb::AABB;
use ray_tracer::bvh::BvhNode;
use ray_tracer::hitable_list::HitableList;

fn spans(b: AABB) -> [u32; 3] {
    [b.max[0] - b.min[0], b.max[1] - b.min[1], b.max[2] - b.min[2]]
}

fn area(b: AABB) -> u64 {
    let s = spans(b);
    let (x, y, z) = (s[0] as u64, s[1] as u64, s[2] as u64);
    2 * (x * y + x * z + y * z)
}

fn cost(i: usize, lb: AABB, j: usize, rb: AABB) -> u32 {
    let c = i as u64 * area(lb) + j as u64 * area(rb);
    if c > u32::MAX as u64 {
        u32::MAX
    } else {
        c as u32
    }
}

fn cube(x: u32, y: u32, z: u32, s: u32) -> AABB {
    AABB::new([x, y, z], [x + s, y + s, z + s])
}

struct Lcg(u64);

impl Lcg {
    fn next(&mut self, bound: u32) -> u32 {
        self.0 = self.0.wrapping_mul(6364136223846793005).wrapping_add(1442695040888963407);
        ((self.0 >> 33) % bound as u64) as u32
    }
}

fn random_boxes(n: usize, seed: u64) -> Vec<AABB> {
    let mut rng = Lcg(seed);
    (0..n)
        .map(|_| {
            let x = rng.next(1000);
            let y = rng.next(1000);
            let z = rng.next(1000);
            AABB::new([x, y, z], [x + 1 + rng.next(50), y + 1 + rng.next(50), z + 1 + rng.next(50)])
        })
        .collect()
}

fn leaves(node: &BvhNode, out: &mut Vec<usize>) {
    match node {
        BvhNode::Empty => {}
        BvhNode::Item(k) => out.push(*k),
        BvhNode::Inner { left, right, .. } => {
            leaves(left, out);
            leaves(right, out);
        }
    }
}

fn assert_tight_boxes(node: &BvhNode, boxes: &[AABB]) {
    if let BvhNode::Inner { left, right, aa_box } = node {
        let mut items = Vec::new();
        leaves(node, &mut items);
        for a in 0..3 {
            assert_eq!(aa_box.min[a], items.iter().map(|k| boxes[*k].min[a]).min().unwrap());
            assert_eq!(aa_box.max[a], items.iter().map(|k| boxes[*k].max[a]).max().unwrap());
        }
        assert_tight_boxes(left, boxes);
        assert_tight_boxes(right, boxes);
    }
}

/// A ray along the x axis at height `y`: it meets a box whose y range holds `y`,
/// at the box's lower x face.
fn box_test(y: u32) -> impl Fn(AABB) -> bool {
    move |b: AABB| b.min[1] <= y && y <= b.max[1]
}

fn item_hit(boxes: Vec<AABB>, y: u32) -> impl Fn(usize) -> Option<(u32, usize)> {
    move |k: usize| {
        let b = boxes[k];
        if b.min[1] <= y && y <= b.max[1] {
            Some((b.min[0], k))
        } else {
            None
        }
    }
}

fn windowed_hit(boxes: Vec<AABB>, y: u32) -> impl Fn(usize, u32) -> Option<(u32, usize)> {
    move |k: usize, c: u32| {
        let b = boxes[k];
        if b.min[1] <= y && y <= b.max[1] && b.min[0] < c {
            Some((b.min[0], k))
        } else {
            None
        }
    }
}

#[test]
fn sah_split_takes_first_cheapest() {
    assert_eq!(BvhNode::sah_split(&vec![5, 3, 3, 4]), 1);
    assert_eq!(BvhNode::sah_split(&vec![2, 2, 2]), 0);
    assert_eq!(BvhNode::sah_split(&vec![9, 8, 7, 1]), 3);
    assert_eq!(BvhNode::sah_split(&vec![7]), 0);
}

#[test]
fn split_costs_price_each_cut() {
    let boxes = vec![cube(0, 0, 0, 1), cube(10, 0, 0, 1), cube(20, 0, 0, 1)];
    let costs = BvhNode::split_costs(&vec![0, 1, 2], &boxes, &cost);
    // cut after item 0: 0 * area(cube) + 2 * area(11 x 1 x 1 box)
    assert_eq!(costs, vec![2 * 46, 1 * 46 + 1 * 6]);
}

#[test]
fn sort_by_min_orders_and_keeps_ties() {
    let boxes = vec![cube(5, 0, 9, 1), cube(1, 0, 3, 1), cube(5, 0, 1, 1), cube(0, 0, 3, 1)];
    assert_eq!(ray_tracer::bvh::sort_by_min(vec![0, 1, 2, 3], &boxes, 0), vec![3, 1, 0, 2]);
    assert_eq!(ray_tracer::bvh::sort_by_min(vec![0, 1, 2, 3], &boxes, 2), vec![2, 1, 3, 0]);
}

#[test]
fn new_sah_single_item() {
    let boxes = vec![cube(1, 2, 3, 4)];
    let t = BvhNode::new_sah(vec![0], &boxes, &spans, &cost);
    match t {
        BvhNode::Inner { left, right, aa_box } => {
            assert!(matches!(*left, BvhNode::Empty));
            assert!(matches!(*right, BvhNode::Item(0)));
            assert_eq!(aa_box.min, [1, 2, 3]);
            assert_eq!(aa_box.max, [5, 6, 7]);
        }
        _ => panic!("root must be an inner node"),
    }
}

#[test]
fn new_sah_two_items_first_on_the_right() {
    let boxes = vec![cube(0, 0, 0, 1), cube(10, 0, 0, 1)];
    let t = BvhNode::new_sah(vec![0, 1], &boxes, &spans, &cost);
    match t {
        BvhNode::Inner { left, right, aa_box } => {
            assert!(matches!(*left, BvhNode::Item(1)));
            assert!(matches!(*right, BvhNode::Item(0)));
            assert_eq!(aa_box.max, [11, 1, 1]);
        }
        _ => panic!("root must be an inner node"),
    }
}

#[test]
fn new_sah_splits_far_cluster() {
    // two clusters along x; the cheapest cut separates them
    let boxes = vec![cube(1000, 0, 0, 1), cube(0, 0, 0, 1), cube(2, 0, 0, 1), cube(1002, 0, 0, 1)];
    let t = BvhNode::new_sah(vec![0, 1, 2, 3], &boxes, &spans, &cost);
    match t {
        BvhNode::Inner { left, right, .. } => {
            let mut l = Vec::new();
            leaves(&left, &mut l);
            let mut r = Vec::new();
            leaves(&right, &mut r);
            l.sort();
            r.sort();
            assert_eq!(l, vec![1, 2]);
            assert_eq!(r, vec![0, 3]);
        }
        _ => panic!("root must be an inner node"),
    }
}

#[test]
fn new_single_item_on_the_left() {
    let boxes = vec![cube(1, 2, 3, 4)];
    match BvhNode::new(vec![0], &boxes, &spans) {
        BvhNode::Inner { left, right, .. } => {
            assert!(matches!(*left, BvhNode::Item(0)));
            assert!(matches!(*right, BvhNode::Empty));
        }
        _ => panic!("root must be an inner node"),
    }
}

#[test]
fn new_halves_sorted_items() {
    let boxes = vec![cube(30, 0, 0, 1), cube(10, 0, 0, 1), cube(0, 0, 0, 1), cube(20, 0, 0, 1), cube(40, 0, 0, 1)];
    match BvhNode::new(vec![0, 1, 2, 3, 4], &boxes, &spans) {
        BvhNode::Inner { left, right, .. } => {
            let mut l = Vec::new();
            leaves(&left, &mut l);
            let mut r = Vec::new();
            leaves(&right, &mut r);
            assert_eq!(l, vec![2, 1]);
            assert_eq!(r, vec![3, 0, 4]);
        }
        _ => panic!("root must be an inner node"),
    }
}

#[test]
fn trees_hold_every_item_once_with_tight_boxes() {
    for (n, seed) in [(1usize, 1u64), (2, 2), (3, 3), (50, 4), (500, 5)] {
        let boxes = random_boxes(n, seed);
        let items: Vec<usize> = (0..n).collect();
        for t in [BvhNode::new_sah(items.clone(), &boxes, &spans, &cost), BvhNode::new(items.clone(), &boxes, &spans)] {
            let mut got = Vec::new();
            leaves(&t, &mut got);
            got.sort();
            assert_eq!(got, items);
            assert_tight_boxes(&t, &boxes);
        }
    }
}

#[test]
fn bvh_hit_matches_list_scan() {
    for (n, seed) in [(1usize, 11u64), (2, 12), (3, 13), (50, 14), (500, 15)] {
        let boxes = random_boxes(n, seed);
        let items: Vec<usize> = (0..n).collect();
        let list = HitableList::new(items.clone());
        let sah = BvhNode::new_sah(items.clone(), &boxes, &spans, &cost);
        let mid = BvhNode::new(items.clone(), &boxes, &spans);
        for y in (0..1100).step_by(7) {
            let scan = list.hit(u32::MAX, &windowed_hit(boxes.clone(), y));
            let a = sah.hit(&box_test(y), &item_hit(boxes.clone(), y));
            let b = mid.hit(&box_test(y), &item_hit(boxes.clone(), y));
            assert_eq!(scan.map(|h| h.0), a.map(|h| h.0));
            assert_eq!(scan.map(|h| h.0), b.map(|h| h.0));
        }
    }
}

#[test]
fn bvh_hit_ties_go_right() {
    let boxes = vec![cube(5, 0, 0, 1), cube(5, 0, 0, 1)];
    let t = BvhNode::new(vec![0, 1], &boxes, &spans);
    assert_eq!(t.hit(&box_test(0), &item_hit(boxes.clone(), 0)), Some((5, 1)));
    let list = HitableList::new(vec![0, 1]);
    assert_eq!(list.hit(u32::MAX, &windowed_hit(boxes.clone(), 0)), Some((5, 0)));
}

#[test]
fn bvh_hit_prunes_missed_boxes() {
    let boxes = vec![cube(5, 0, 0, 1), cube(8, 0, 0, 1)];
    let t = BvhNode::new(vec![0, 1], &boxes, &spans);
    assert_eq!(t.hit(&|_b: AABB| false, &item_hit(boxes.clone(), 0)), None);
}

#[test]
fn list_scan_keeps_nearest() {
    let boxes = vec![cube(9, 0, 0, 1), cube(3, 0, 0, 1), cube(7, 0, 0, 1), cube(2, 5, 0, 1)];
    let list = HitableList::new(vec![0, 1, 2, 3]);
    assert_eq!(list.hit(u32::MAX, &windowed_hit(boxes.clone(), 0)), Some((3, 1)));
    assert_eq!(list.hit(3, &windowed_hit(boxes.clone(), 0)), None);
    assert_eq!(HitableList::new(vec![]).hit(u32::MAX, &windowed_hit(boxes.clone(), 0)), None);
}

#[test]
fn list_bounding_box() {
    let boxes = vec![cube(9, 0, 0, 1), cube(3, 2, 0, 1)];
    assert!(HitableList::new(vec![]).bounding_box(&boxes).is_none());
    let b = HitableList::new(vec![0, 1]).bounding_box(&boxes).unwrap();
    assert_eq!(b.min, [3, 0, 0]);
    assert_eq!(b.max, [10, 3, 1]);
}

fn visits(tree: &BvhNode, boxes: &[AABB]) -> usize {
    let count = std::cell::Cell::new(0usize);
    for y in (0..1100).step_by(3) {
        let test = |b: AABB| {
            count.set(count.get() + 1);
            b.min[1] <= y && y <= b.max[1]
        };
        tree.hit(&test, &item_hit(boxes.to_vec(), y));
    }
    count.get()
}

#[test]
fn sah_trees_visit_no_more_nodes_than_halved_trees() {
    for seed in 21u64..26 {
        let boxes = random_boxes(300, seed);
        let items: Vec<usize> = (0..boxes.len()).collect();
        let sah = visits(&BvhNode::new_sah(items.clone(), &boxes, &spans, &cost), &boxes);
        let mid = visits(&BvhNode::new(items.clone(), &boxes, &spans), &boxes);
        assert!(sah * 10 <= mid * 11, "seed {}: {} against {}", seed, sah, mid);
    }
}

#[test]
fn sort_by_min_is_stable_on_many_ties() {
    let boxes: Vec<AABB> = (0..101u32).map(|i| cube((i * 37) % 7, 0, (i * 11) % 5, 1)).collect();
    let items: Vec<usize> = (0..101).rev().collect();
    for c in [0usize, 2] {
        let mut expected = items.clone();
        expected.sort_by_key(|k| boxes[*k].min[c]);
        assert_eq!(ray_tracer::bvh::sort_by_min(items.clone(), &boxes, c), expected);
    }
}
