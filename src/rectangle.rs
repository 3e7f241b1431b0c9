use vstd::prelude::*;

verus! {

/// The coordinate plane an axis-aligned rectangle lies in.
#[derive(Clone, Copy, Debug, PartialEq, Eq, Structural)]
pub enum Plane {
    /// spans x and y, flat along z
    Xy,
    /// spans x and z, flat along y
    Xz,
    /// spans y and z, flat along x
    Yz,
}

/// An axis-aligned rectangle: `[a0, a1] x [b0, b1]` over the plane's two axes, at
/// `k` on the third; `flipped` turns its face the other way.
#[derive(Clone, Copy, Debug, PartialEq, Eq, Structural)]
pub struct Face {
    pub plane: Plane,
    pub a0: u32,
    pub a1: u32,
    pub b0: u32,
    pub b1: u32,
    pub k: u32,
    pub flipped: bool,
}

pub open spec fn face(plane: Plane, a0: u32, a1: u32, b0: u32, b1: u32, k: u32, flipped: bool) -> Face {
    Face { plane, a0, a1, b0, b1, k, flipped }
}

/// A box between two corners, made of six rectangles.
#[derive(Clone, Debug)]
pub struct RectangularBox {
    pub box_min: [u32; 3],
    pub box_max: [u32; 3],
    pub sides: Vec<Face>,
}

impl RectangularBox {
    /// The six sides, per plane the one at the far corner `p1` and then the one
    /// at the near corner `p0`; the near ones are flipped so that every side
    /// faces outwards.
    pub open spec fn spec_sides(p0: [u32; 3], p1: [u32; 3]) -> Seq<Face> {
        seq![
            face(Plane::Xy, p0[0], p1[0], p0[1], p1[1], p1[2], false),
            face(Plane::Xy, p0[0], p1[0], p0[1], p1[1], p0[2], true),
            face(Plane::Xz, p0[0], p1[0], p0[2], p1[2], p1[1], false),
            face(Plane::Xz, p0[0], p1[0], p0[2], p1[2], p0[1], true),
            face(Plane::Yz, p0[1], p1[1], p0[2], p1[2], p1[0], false),
            face(Plane::Yz, p0[1], p1[1], p0[2], p1[2], p0[0], true),
        ]
    }

    pub fn new(p0: [u32; 3], p1: [u32; 3]) -> (r: RectangularBox)
        ensures
            r.box_min == p0,
            r.box_max == p1,
            r.sides@ == RectangularBox::spec_sides(p0, p1),
    {
        let sides = vec![
            Face { plane: Plane::Xy, a0: p0[0], a1: p1[0], b0: p0[1], b1: p1[1], k: p1[2], flipped: false },
            Face { plane: Plane::Xy, a0: p0[0], a1: p1[0], b0: p0[1], b1: p1[1], k: p0[2], flipped: true },
            Face { plane: Plane::Xz, a0: p0[0], a1: p1[0], b0: p0[2], b1: p1[2], k: p1[1], flipped: false },
            Face { plane: Plane::Xz, a0: p0[0], a1: p1[0], b0: p0[2], b1: p1[2], k: p0[1], flipped: true },
            Face { plane: Plane::Yz, a0: p0[1], a1: p1[1], b0: p0[2], b1: p1[2], k: p1[0], flipped: false },
            Face { plane: Plane::Yz, a0: p0[1], a1: p1[1], b0: p0[2], b1: p1[2], k: p0[0], flipped: true },
        ];
        proof {
            assert(sides@ =~= RectangularBox::spec_sides(p0, p1));
        }
        RectangularBox { box_min: p0, box_max: p1, sides }
    }
}

} // verus!
