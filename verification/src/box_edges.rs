//! The faces of an axis-aligned box, the twelve edges where two of them
//! meet, and the two corners of the box's vertex array that each edge
//! joins. Corners `0..4` lie on the `-Z` face and `4..8` on the `+Z` face;
//! within each group the order is (-x,-y), (+x,-y), (+x,+y), (-x,+y).

use vstd::prelude::*;

verus! {

/// A face of the box, named by its outward normal.
#[derive(Clone, Copy, Debug, PartialEq, Eq, Hash, Structural)]
pub enum CuboidFaceTag {
    NegZ,
    PosZ,
    NegY,
    PosY,
    NegX,
    PosX,
}

/// The fixed rank of a face: `-Z, +Z, -Y, +Y, -X, +X` in that order.
pub open spec fn face_rank(t: CuboidFaceTag) -> u8 {
    match t {
        CuboidFaceTag::NegZ => 0,
        CuboidFaceTag::PosZ => 1,
        CuboidFaceTag::NegY => 2,
        CuboidFaceTag::PosY => 3,
        CuboidFaceTag::NegX => 4,
        CuboidFaceTag::PosX => 5,
    }
}

/// The axis a face is normal to: 0 for Z, 1 for Y, 2 for X.
pub open spec fn face_axis(t: CuboidFaceTag) -> int {
    (face_rank(t) / 2) as int
}

impl CuboidFaceTag {
    /// The face's rank.
    pub fn discriminant(self) -> (d: u8)
        ensures
            d == face_rank(self),
    {
        match self {
            CuboidFaceTag::NegZ => 0,
            CuboidFaceTag::PosZ => 1,
            CuboidFaceTag::NegY => 2,
            CuboidFaceTag::PosY => 3,
            CuboidFaceTag::NegX => 4,
            CuboidFaceTag::PosX => 5,
        }
    }
}

/// Whether corner `c` of the box lies on face `t`.
pub open spec fn corner_on_face(c: u32, t: CuboidFaceTag) -> bool {
    &&& c < 8
    &&& match t {
        CuboidFaceTag::NegZ => c < 4,
        CuboidFaceTag::PosZ => c >= 4,
        CuboidFaceTag::NegY => c % 4 == 0 || c % 4 == 1,
        CuboidFaceTag::PosY => c % 4 == 2 || c % 4 == 3,
        CuboidFaceTag::NegX => c % 4 == 0 || c % 4 == 3,
        CuboidFaceTag::PosX => c % 4 == 1 || c % 4 == 2,
    }
}

/// The corners of the edge between `lo` and `hi`, the lower-ranked face
/// first; `(0, 0)` when the two faces do not meet.
pub open spec fn ordered_corner_pair(lo: CuboidFaceTag, hi: CuboidFaceTag) -> (u32, u32) {
    match (lo, hi) {
        (CuboidFaceTag::NegZ, CuboidFaceTag::NegY) => (0, 1),
        (CuboidFaceTag::NegZ, CuboidFaceTag::PosY) => (3, 2),
        (CuboidFaceTag::NegZ, CuboidFaceTag::NegX) => (0, 3),
        (CuboidFaceTag::NegZ, CuboidFaceTag::PosX) => (1, 2),
        (CuboidFaceTag::PosZ, CuboidFaceTag::NegY) => (4, 5),
        (CuboidFaceTag::PosZ, CuboidFaceTag::PosY) => (7, 6),
        (CuboidFaceTag::PosZ, CuboidFaceTag::NegX) => (4, 7),
        (CuboidFaceTag::PosZ, CuboidFaceTag::PosX) => (5, 6),
        (CuboidFaceTag::NegY, CuboidFaceTag::NegX) => (0, 4),
        (CuboidFaceTag::NegY, CuboidFaceTag::PosX) => (1, 5),
        (CuboidFaceTag::PosY, CuboidFaceTag::NegX) => (3, 7),
        (CuboidFaceTag::PosY, CuboidFaceTag::PosX) => (2, 6),
        _ => (0, 0),
    }
}

/// The corners of the edge between `a` and `b`, whichever comes first.
pub open spec fn corner_pair(a: CuboidFaceTag, b: CuboidFaceTag) -> (u32, u32) {
    if face_rank(a) <= face_rank(b) {
        ordered_corner_pair(a, b)
    } else {
        ordered_corner_pair(b, a)
    }
}

/// The two corners joined by the edge between faces `a` and `b`; `(0, 0)`
/// when the faces are parallel or the same.
pub fn cuboid_edge_corner_indices(a: CuboidFaceTag, b: CuboidFaceTag) -> (r: (u32, u32))
    ensures
        r == corner_pair(a, b),
{
    let (lo, hi) = if a.discriminant() <= b.discriminant() {
        (a, b)
    } else {
        (b, a)
    };
    match (lo, hi) {
        (CuboidFaceTag::NegZ, CuboidFaceTag::NegY) => (0, 1),
        (CuboidFaceTag::NegZ, CuboidFaceTag::PosY) => (3, 2),
        (CuboidFaceTag::NegZ, CuboidFaceTag::NegX) => (0, 3),
        (CuboidFaceTag::NegZ, CuboidFaceTag::PosX) => (1, 2),
        (CuboidFaceTag::PosZ, CuboidFaceTag::NegY) => (4, 5),
        (CuboidFaceTag::PosZ, CuboidFaceTag::PosY) => (7, 6),
        (CuboidFaceTag::PosZ, CuboidFaceTag::NegX) => (4, 7),
        (CuboidFaceTag::PosZ, CuboidFaceTag::PosX) => (5, 6),
        (CuboidFaceTag::NegY, CuboidFaceTag::NegX) => (0, 4),
        (CuboidFaceTag::NegY, CuboidFaceTag::PosX) => (1, 5),
        (CuboidFaceTag::PosY, CuboidFaceTag::NegX) => (3, 7),
        (CuboidFaceTag::PosY, CuboidFaceTag::PosX) => (2, 6),
        _ => (0, 0),
    }
}

/// The box's twelve edges as face pairs: the four around `-Z`, the four
/// around `+Z`, then the four vertical ones.
pub open spec fn edge_tag_pair_seq() -> Seq<(CuboidFaceTag, CuboidFaceTag)> {
    seq![
        (CuboidFaceTag::NegZ, CuboidFaceTag::NegY),
        (CuboidFaceTag::NegZ, CuboidFaceTag::PosY),
        (CuboidFaceTag::NegZ, CuboidFaceTag::NegX),
        (CuboidFaceTag::NegZ, CuboidFaceTag::PosX),
        (CuboidFaceTag::PosZ, CuboidFaceTag::NegY),
        (CuboidFaceTag::PosZ, CuboidFaceTag::PosY),
        (CuboidFaceTag::PosZ, CuboidFaceTag::NegX),
        (CuboidFaceTag::PosZ, CuboidFaceTag::PosX),
        (CuboidFaceTag::NegY, CuboidFaceTag::NegX),
        (CuboidFaceTag::NegY, CuboidFaceTag::PosX),
        (CuboidFaceTag::PosY, CuboidFaceTag::NegX),
        (CuboidFaceTag::PosY, CuboidFaceTag::PosX),
    ]
}

/// The box's twelve edges as face pairs, in their fixed order; the two
/// faces of each are normal to different axes.
pub fn cuboid_edge_tag_pairs() -> (v: Vec<(CuboidFaceTag, CuboidFaceTag)>)
    ensures
        v@ == edge_tag_pair_seq(),
        forall|i: int| 0 <= i < v@.len() ==> face_axis(#[trigger] v@[i].0) != face_axis(v@[i].1),
{
    let v = vec![
        (CuboidFaceTag::NegZ, CuboidFaceTag::NegY),
        (CuboidFaceTag::NegZ, CuboidFaceTag::PosY),
        (CuboidFaceTag::NegZ, CuboidFaceTag::NegX),
        (CuboidFaceTag::NegZ, CuboidFaceTag::PosX),
        (CuboidFaceTag::PosZ, CuboidFaceTag::NegY),
        (CuboidFaceTag::PosZ, CuboidFaceTag::PosY),
        (CuboidFaceTag::PosZ, CuboidFaceTag::NegX),
        (CuboidFaceTag::PosZ, CuboidFaceTag::PosX),
        (CuboidFaceTag::NegY, CuboidFaceTag::NegX),
        (CuboidFaceTag::NegY, CuboidFaceTag::PosX),
        (CuboidFaceTag::PosY, CuboidFaceTag::NegX),
        (CuboidFaceTag::PosY, CuboidFaceTag::PosX),
    ];
    assert(v@ =~= edge_tag_pair_seq());
    v
}

/// The corners of an edge do not depend on the order its two faces are
/// given in.
pub proof fn law_corner_pair_symmetric(a: CuboidFaceTag, b: CuboidFaceTag)
    ensures
        corner_pair(a, b) == corner_pair(b, a),
{
}

/// Two faces normal to different axes meet in an edge whose two corners are
/// distinct corners of the box, each lying on both faces; for two faces
/// normal to the same axis the pair is `(0, 0)`.
pub proof fn law_corner_pair_on_both_faces(a: CuboidFaceTag, b: CuboidFaceTag)
    ensures
        face_axis(a) != face_axis(b) ==> {
            let (i, j) = corner_pair(a, b);
            &&& i != j
            &&& corner_on_face(i, a) && corner_on_face(i, b)
            &&& corner_on_face(j, a) && corner_on_face(j, b)
        },
        face_axis(a) == face_axis(b) ==> corner_pair(a, b) == (0u32, 0u32),
{
}

} // verus!
