use vstd::prelude::*;

verus! {

/// The material index of each face of a cuboid.
#[derive(Clone, Copy, Debug, PartialEq, Eq, Structural)]
pub struct CuboidMaterialIndices {
    pub top: usize,
    pub bottom: usize,
    pub front: usize,
    pub back: usize,
    pub left: usize,
    pub right: usize,
}

impl CuboidMaterialIndices {
    /// The same material on every face.
    pub fn uniform(material_index: usize) -> (r: CuboidMaterialIndices)
        ensures
            r.top == material_index && r.bottom == material_index,
            r.front == material_index && r.back == material_index,
            r.left == material_index && r.right == material_index,
    {
        CuboidMaterialIndices {
            top: material_index,
            bottom: material_index,
            front: material_index,
            back: material_index,
            left: material_index,
            right: material_index,
        }
    }
}

impl Default for CuboidMaterialIndices {
    /// Material zero on every face.
    fn default() -> (r: CuboidMaterialIndices)
        ensures
            r.top == 0 && r.bottom == 0 && r.front == 0 && r.back == 0 && r.left == 0 && r.right == 0,
    {
        CuboidMaterialIndices::uniform(0)
    }
}


/// The side a face of a cuboid faces.
#[derive(Clone, Copy, Debug, PartialEq, Eq, Structural)]
pub enum Facing {
    PosX,
    NegX,
    PosY,
    NegY,
    PosZ,
    NegZ,
}

/// One face of a cuboid: its four corners `a`, `b`, `c`, `d`, in the
/// order they go round the face, as indices into the cuboid's corners (see [`corner_offset`]),
/// the side it faces, and its material.
#[derive(Clone, Copy, Debug, PartialEq, Eq, Structural)]
pub struct CuboidFace {
    pub a: usize,
    pub b: usize,
    pub c: usize,
    pub d: usize,
    pub facing: Facing,
    pub material_index: usize,
}

/// The offset of corner `i` of a cuboid from its centre, in half extents:
/// corners 0 to 3 go round the back (`z = -1`) from `(-1, -1)`, corners 4
/// to 7 round the front in the same way.
pub open spec fn corner_offset(i: usize) -> (int, int, int) {
    let z = if i < 4 { -1int } else { 1int };
    let x = if i == 1 || i == 2 || i == 5 || i == 6 { 1int } else { -1int };
    let y = if i == 2 || i == 3 || i == 6 || i == 7 { 1int } else { -1int };
    (x, y, z)
}

/// The outward normal of a side.
pub open spec fn facing_normal(f: Facing) -> (int, int, int) {
    match f {
        Facing::PosX => (1, 0, 0),
        Facing::NegX => (-1, 0, 0),
        Facing::PosY => (0, 1, 0),
        Facing::NegY => (0, -1, 0),
        Facing::PosZ => (0, 0, 1),
        Facing::NegZ => (0, 0, -1),
    }
}

pub open spec fn dot3(a: (int, int, int), b: (int, int, int)) -> int {
    a.0 * b.0 + a.1 * b.1 + a.2 * b.2
}

/// Corner `k` of the face, for `k` from 0 to 5 (taken round the face, so
/// `4` and `5` are `0` and `1` again).
pub open spec fn face_corner(f: CuboidFace, k: int) -> (int, int, int) {
    corner_offset(if k == 0 || k == 4 { f.a } else if k == 1 || k == 5 { f.b } else if k == 2 { f.c } else { f.d })
}

/// The face is a quad of four distinct corners of the cuboid, each on the
/// side the face faces.
pub open spec fn face_on_its_side(f: CuboidFace) -> bool {
    let n = facing_normal(f.facing);
    &&& f.a < 8 && f.b < 8 && f.c < 8 && f.d < 8
    &&& f.a != f.b && f.a != f.c && f.a != f.d && f.b != f.c && f.b != f.d && f.c != f.d
    &&& forall|k: int| 0 <= k < 4 ==> dot3(#[trigger] face_corner(f, k), n) == 1
}

impl CuboidMaterialIndices {
    /// The six faces of a cuboid: front (`+z`), back, top (`+y`), bottom,
    /// right (`+x`) and left, each with its material.
    pub fn cuboid_faces(&self) -> (r: Vec<CuboidFace>)
        ensures
            r@.len() == 6,
            r@[0] == (CuboidFace { a: 4, b: 5, c: 6, d: 7, facing: Facing::PosZ, material_index: self.front }),
            r@[1] == (CuboidFace { a: 0, b: 3, c: 2, d: 1, facing: Facing::NegZ, material_index: self.back }),
            r@[2] == (CuboidFace { a: 3, b: 7, c: 6, d: 2, facing: Facing::PosY, material_index: self.top }),
            r@[3] == (CuboidFace { a: 0, b: 1, c: 5, d: 4, facing: Facing::NegY, material_index: self.bottom }),
            r@[4] == (CuboidFace { a: 1, b: 2, c: 6, d: 5, facing: Facing::PosX, material_index: self.right }),
            r@[5] == (CuboidFace { a: 0, b: 4, c: 7, d: 3, facing: Facing::NegX, material_index: self.left }),
            forall|i: int| 0 <= i < 6 ==> face_on_its_side(#[trigger] r@[i]),
    {
        let r = vec![
            CuboidFace { a: 4, b: 5, c: 6, d: 7, facing: Facing::PosZ, material_index: self.front },
            CuboidFace { a: 0, b: 3, c: 2, d: 1, facing: Facing::NegZ, material_index: self.back },
            CuboidFace { a: 3, b: 7, c: 6, d: 2, facing: Facing::PosY, material_index: self.top },
            CuboidFace { a: 0, b: 1, c: 5, d: 4, facing: Facing::NegY, material_index: self.bottom },
            CuboidFace { a: 1, b: 2, c: 6, d: 5, facing: Facing::PosX, material_index: self.right },
            CuboidFace { a: 0, b: 4, c: 7, d: 3, facing: Facing::NegX, material_index: self.left },
        ];
        proof {
            assert forall|i: int| 0 <= i < 6 implies face_on_its_side(#[trigger] r@[i]) by {
                let f = r@[i];
                assert forall|k: int| 0 <= k < 4 implies dot3(#[trigger] face_corner(f, k), facing_normal(f.facing)) == 1 by {
                    assert(k == 0 || k == 1 || k == 2 || k == 3);
                }
            }
        }
        r
    }
}

} // verus!
