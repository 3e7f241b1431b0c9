use ray_tracer::rectangle::{Face, Plane, RectangularBox};
use ray_tracer::render::{flip_rows, pixel_coords};
use ray_tracer::shapes::{medium_span, rectangle_accepts, sphere_root, triangle_box, KEY_ZERO};

fn key(f: f32) -> u32 {
    let b = f.to_bits();
    if b >> 31 == 1 {
        !b
    } else {
        b | 0x8000_0000
    }
}

#[test]
fn key_of_zero() {
    assert_eq!(key(0.0), KEY_ZERO);
}

#[test]
fn sphere_takes_near_root_first() {
    assert_eq!(sphere_root(true, 2, 8, 1, 10), Some(2));
    assert_eq!(sphere_root(true, 1, 8, 1, 10), Some(8));
    assert_eq!(sphere_root(true, 0, 10, 1, 10), None);
    assert_eq!(sphere_root(false, 2, 8, 1, 10), None);
}

#[test]
fn sphere_round_trip_from_surface_point() {
    // a unit sphere at the origin; a ray from (0, 0, 1) towards the centre
    // has roots t = 0 and t = 2
    let near = key(0.0);
    let far = key(2.0);
    assert_eq!(sphere_root(true, near, far, key(-0.001), key(1000.0)), Some(near));
}

#[test]
fn rectangle_open_window_closed_ranges() {
    assert!(rectangle_accepts(6, 5, 9, 1, 1, 3, 3, 1, 3));
    assert!(!rectangle_accepts(5, 5, 9, 1, 1, 3, 3, 1, 3));
    assert!(!rectangle_accepts(9, 5, 9, 1, 1, 3, 3, 1, 3));
    assert!(!rectangle_accepts(4, 5, 9, 1, 1, 3, 3, 1, 3));
    assert!(!rectangle_accepts(6, 5, 9, 0, 1, 3, 3, 1, 3));
    assert!(!rectangle_accepts(6, 5, 9, 2, 1, 3, 4, 1, 3));
}

#[test]
fn triangle_box_spans_corners() {
    let b = triangle_box([1, 5, 3], [4, 2, 6], [0, 9, 3]);
    assert_eq!(b.min, [0, 2, 3]);
    assert_eq!(b.max, [4, 9, 6]);
}

#[test]
fn medium_span_clamps() {
    let z = KEY_ZERO;
    assert_eq!(medium_span(z + 2, z + 8, z + 3, z + 6), Some((z + 3, z + 6)));
    assert_eq!(medium_span(z + 2, z + 8, z + 1, z + 10), Some((z + 2, z + 8)));
    assert_eq!(medium_span(z + 2, z + 8, z + 8, z + 10), None);
    // entry behind the origin moves to zero
    assert_eq!(medium_span(key(-3.0), key(2.0), key(-100.0), key(100.0)), Some((key(0.0), key(2.0))));
}

#[test]
fn pixel_coords_row_major() {
    assert_eq!(pixel_coords(0, 4), (0, 0));
    assert_eq!(pixel_coords(7, 4), (3, 1));
    assert_eq!(pixel_coords(8, 4), (0, 2));
}

#[test]
fn flip_rows_reverses_rows() {
    let buf = vec![1, 2, 3, 4, 5, 6];
    assert_eq!(flip_rows(&buf, 2, 3), vec![5, 6, 3, 4, 1, 2]);
    assert_eq!(flip_rows(&Vec::<u8>::new(), 0, 5), Vec::<u8>::new());
}

#[test]
fn rectangular_box_sides_face_outwards() {
    let b = RectangularBox::new([1, 2, 3], [4, 5, 6]);
    assert_eq!(b.box_min, [1, 2, 3]);
    assert_eq!(b.box_max, [4, 5, 6]);
    let f = |plane, a0, a1, b0, b1, k, flipped| Face { plane, a0, a1, b0, b1, k, flipped };
    assert_eq!(
        b.sides,
        vec![
            f(Plane::Xy, 1, 4, 2, 5, 6, false),
            f(Plane::Xy, 1, 4, 2, 5, 3, true),
            f(Plane::Xz, 1, 4, 3, 6, 5, false),
            f(Plane::Xz, 1, 4, 3, 6, 2, true),
            f(Plane::Yz, 2, 5, 3, 6, 4, false),
            f(Plane::Yz, 2, 5, 3, 6, 1, true),
        ]
    );
}
