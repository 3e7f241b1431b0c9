use ray_tracer::aabb::AABB;

/// Order key of a float: orders exactly as the floats do.
fn key(f: f32) -> u32 {
    let b = f.to_bits();
    if b >> 31 == 1 {
        !b
    } else {
        b | 0x8000_0000
    }
}

fn keys(v: [f32; 3]) -> [u32; 3] {
    [key(v[0]), key(v[1]), key(v[2])]
}

/// The slab test of a box against a ray, done as the renderer does it.
fn box_hit(min: [f32; 3], max: [f32; 3], origin: [f32; 3], dir: [f32; 3], t_min: f32, t_max: f32) -> bool {
    let mut t0 = [0u32; 3];
    let mut t1 = [0u32; 3];
    let mut sign = [false; 3];
    for i in 0..3 {
        let inv = 1.0 / dir[i];
        t0[i] = key((min[i] - origin[i]) * inv);
        t1[i] = key((max[i] - origin[i]) * inv);
        sign[i] = dir[i] < 0.0;
    }
    AABB::hit_slabs(key(t_min), key(t_max), t0, t1, sign)
}

#[test]
fn aabb_hits() {
    assert!(box_hit([-0.5, 0.0, 0.0], [0.0, 5.0, 5.0], [2.0, 1.0, 1.0], [-1.0, 0.0, 0.0], 0.0001, 1000.0));
}

#[test]
fn key_order_matches_float_order() {
    let vals = [-1000.0f32, -2.5, -0.0001, 0.0, 0.0001, 1.0, 3.5, 1.0e30];
    for i in 0..vals.len() {
        for j in 0..vals.len() {
            assert_eq!(vals[i] < vals[j], key(vals[i]) < key(vals[j]));
        }
        assert_eq!(key(-vals[i]), u32::MAX - key(vals[i]));
    }
}

#[test]
fn aabb_misses_when_pointing_away() {
    assert!(!box_hit([-0.5, 0.0, 0.0], [0.0, 5.0, 5.0], [2.0, 1.0, 1.0], [1.0, 0.0, 0.0], 0.0001, 1000.0));
}

#[test]
fn aabb_misses_outside_window() {
    // the box lies between t = 2 and t = 2.5
    assert!(!box_hit([-0.5, 0.0, 0.0], [0.0, 5.0, 5.0], [2.0, 1.0, 1.0], [-1.0, 0.0, 0.0], 0.0001, 1.5));
    assert!(box_hit([-0.5, 0.0, 0.0], [0.0, 5.0, 5.0], [2.0, 1.0, 1.0], [-1.0, 0.0, 0.0], 0.0001, 2.1));
}

#[test]
fn aabb_reversed_ray_agrees() {
    let min = [-0.5, 0.0, 0.0];
    let max = [0.0, 5.0, 5.0];
    let origin = [2.0, 1.0, 1.0];
    let dirs = [[-1.0f32, 0.5, 0.25], [-1.0, -0.1, 0.3], [1.0, 0.2, 0.2], [-0.3, 2.0, -1.0]];
    for d in dirs.iter() {
        let rev = [-d[0], -d[1], -d[2]];
        let forward = box_hit(min, max, origin, *d, 0.0001, 1000.0);
        let backward = box_hit(min, max, origin, rev, -1000.0, -0.0001);
        assert_eq!(forward, backward);
    }
}

#[test]
fn longest_axis_ties() {
    assert_eq!(AABB::longest_axis([3, 2, 1]), 0);
    assert_eq!(AABB::longest_axis([3, 3, 1]), 0);
    assert_eq!(AABB::longest_axis([3, 1, 3]), 0);
    assert_eq!(AABB::longest_axis([2, 2, 1]), 0);
    assert_eq!(AABB::longest_axis([1, 3, 3]), 2);
    assert_eq!(AABB::longest_axis([2, 2, 2]), 0);
    assert_eq!(AABB::longest_axis([1, 4, 2]), 1);
}

#[test]
fn surrounding_box_takes_extremes() {
    let a = AABB::new(keys([0.0, -1.0, 2.0]), keys([1.0, 1.0, 3.0]));
    let b = AABB::new(keys([-2.0, 0.0, 2.5]), keys([0.5, 4.0, 2.75]));
    let s = AABB::surrounding_box(a, b);
    assert_eq!(s.min(), keys([-2.0, -1.0, 2.0]));
    assert_eq!(s.max(), keys([1.0, 4.0, 3.0]));
}

#[test]
fn slabs_at_the_ends_of_the_key_range() {
    // the widest window and the widest slabs
    assert!(AABB::hit_slabs(0, u32::MAX, [0; 3], [u32::MAX; 3], [false; 3]));
    assert!(AABB::hit_slabs(0, u32::MAX, [u32::MAX; 3], [0; 3], [true; 3]));
    // an empty window never meets a box
    assert!(!AABB::hit_slabs(7, 7, [0; 3], [u32::MAX; 3], [false; 3]));
    // one axis whose slab lies past the window
    assert!(!AABB::hit_slabs(10, 20, [0, 0, 30], [u32::MAX, u32::MAX, 40], [false; 3]));
}
