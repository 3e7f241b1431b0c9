use vstd::prelude::*;
use crate::aabb::{key_max, key_min, AABB};

verus! {

/// The key of the number zero.
pub const KEY_ZERO: u32 = 0x8000_0000;

/// `t` lies strictly between `t_min` and `t_max`.
pub open spec fn strictly_inside(t: u32, t_min: u32, t_max: u32) -> bool {
    t_min < t && t < t_max
}

/// The hit of a sphere, given the two roots of its quadratic (`near <= far`) and
/// whether its discriminant is positive: the near root when it lies strictly
/// inside the window, else the far root when that does, else none.
pub fn sphere_root(discriminant_positive: bool, near: u32, far: u32, t_min: u32, t_max: u32) -> (r: Option<u32>)
    ensures
        r == (if discriminant_positive && strictly_inside(near, t_min, t_max) {
            Some(near)
        } else if discriminant_positive && strictly_inside(far, t_min, t_max) {
            Some(far)
        } else {
            None::<u32>
        }),
{
    if discriminant_positive {
        if near < t_max && near > t_min {
            return Some(near);
        }
        if far < t_max && far > t_min {
            return Some(far);
        }
    }
    None
}

/// A triangle's box: per axis the least and the greatest of its three corners.
pub fn triangle_box(a: [u32; 3], b: [u32; 3], c: [u32; 3]) -> (r: AABB)
    ensures
        forall|i: int| 0 <= i < 3 ==> r.min[i] == key_min(key_min(a[i], b[i]), c[i]),
        forall|i: int| 0 <= i < 3 ==> r.max[i] == key_max(key_max(a[i], b[i]), c[i]),
        r.well_formed(),
{
    let ab = AABB::surrounding_box(AABB::new(a, a), AABB::new(b, b));
    AABB::surrounding_box(ab, AABB::new(c, c))
}

/// Whether an axis-aligned rectangle is hit: the plane is met at `t` strictly
/// inside the window `(t_min, t_max)`, at in-plane coordinates `(u, v)` inside the
/// closed ranges `[u0, u1]` and `[v0, v1]`.
pub fn rectangle_accepts(t: u32, t_min: u32, t_max: u32, u: u32, u0: u32, u1: u32, v: u32, v0: u32, v1: u32) -> (r: bool)
    ensures
        r == (t_min < t && t < t_max && u0 <= u <= u1 && v0 <= v <= v1),
{
    if t <= t_min || t >= t_max {
        return false;
    }
    !(u < u0 || u > u1 || v < v0 || v > v1)
}

/// The stretch of the window that a ray spends inside a convex medium, given the
/// parameters at which it enters and leaves the boundary: the entry is raised to
/// `t_min` and the exit lowered to `t_max`; nothing is left unless the entry then
/// comes strictly before the exit; last, an entry behind the origin is moved to
/// zero. When the clamped exit itself lies behind the origin, the entry moved to
/// zero then lies past the exit, and the pair is no stretch of the window: the
/// caller finds a negative length inside. A boundary that the ray leaves and
/// enters again is not supported.
pub fn medium_span(t_enter: u32, t_exit: u32, t_min: u32, t_max: u32) -> (r: Option<(u32, u32)>)
    ensures
        r == (if key_max(t_enter, t_min) < key_min(t_exit, t_max) {
            Some((key_max(key_max(t_enter, t_min), KEY_ZERO), key_min(t_exit, t_max)))
        } else {
            None::<(u32, u32)>
        }),
{
    let mut enter = t_enter;
    let mut exit = t_exit;
    if enter < t_min {
        enter = t_min;
    }
    if exit > t_max {
        exit = t_max;
    }
    if enter >= exit {
        return None;
    }
    if enter < KEY_ZERO {
        enter = KEY_ZERO;
    }
    Some((enter, exit))
}

} // verus!
