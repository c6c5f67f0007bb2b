//! Operators with numeric parameters: extrusion, sweep, revolution, box and
//! affine transform. Their `f32` parameters are held as bit patterns. This
//! module decides which parameters are admissible, checks arities, and
//! frames each operator's parameters into the bytes its structural hash is
//! taken over.

use vstd::prelude::*;

use crate::asset_id::{blake3_digest, blake3_hash};
use crate::box_edges::{corner_on_face, CuboidFaceTag};
use crate::mesh::buffers_check;
use crate::operators::{boolean_hash_prefix, mode_tag, BooleanOp, OpError, OpKind, Polygon2D, Polyline3D};
use crate::text::{decimal, push_decimal};

verus! {

/// The four little-endian bytes of `x`.
pub open spec fn le32(x: u32) -> Seq<u8> {
    seq![
        (x % 256) as u8,
        ((x / 256) % 256) as u8,
        ((x / 65536) % 256) as u8,
        ((x / 16777216) % 256) as u8,
    ]
}

fn push_le32(data: &mut Vec<u8>, x: u32)
    ensures
        final(data)@ == old(data)@ + le32(x),
{
    data.push((x % 256) as u8);
    data.push(((x / 256) % 256) as u8);
    data.push(((x / 65536) % 256) as u8);
    data.push(((x / 16777216) % 256) as u8);
    assert(data@ =~= old(data)@ + le32(x));
}

/// A count as the `u32` that enters a hash: saturated at `u32::MAX`.
pub open spec fn count32(n: nat) -> u32 {
    if n <= u32::MAX {
        n as u32
    } else {
        u32::MAX
    }
}

fn count_u32(n: usize) -> (c: u32)
    ensures
        c == count32(n as nat),
{
    if (n as u64) <= (u32::MAX as u64) {
        n as u32
    } else {
        u32::MAX
    }
}

/// Each point's two coordinates, little-endian, in order.
pub open spec fn points2_bytes(p: Seq<(u32, u32)>) -> Seq<u8>
    decreases p.len(),
{
    if p.len() == 0 {
        Seq::empty()
    } else {
        points2_bytes(p.drop_last()) + le32(p.last().0) + le32(p.last().1)
    }
}

/// Each point's three coordinates, little-endian, in order.
pub open spec fn points3_bytes(p: Seq<(u32, u32, u32)>) -> Seq<u8>
    decreases p.len(),
{
    if p.len() == 0 {
        Seq::empty()
    } else {
        points3_bytes(p.drop_last()) + le32(p.last().0) + le32(p.last().1) + le32(p.last().2)
    }
}

fn push_points2(data: &mut Vec<u8>, p: &[(u32, u32)])
    ensures
        final(data)@ == old(data)@ + points2_bytes(p@),
{
    let ghost start = data@;
    let mut i: usize = 0;
    while i < p.len()
        invariant
            0 <= i <= p@.len(),
            data@ == start + points2_bytes(p@.subrange(0, i as int)),
        decreases p@.len() - i,
    {
        proof {
            assert(p@.subrange(0, i as int + 1).drop_last() =~= p@.subrange(0, i as int));
        }
        push_le32(data, p[i].0);
        push_le32(data, p[i].1);
        i = i + 1;
        proof {
            let q = p@.subrange(0, i as int);
            assert(q.last() == p@[i - 1]);
            assert(data@ =~= start + points2_bytes(q));
        }
    }
    assert(p@.subrange(0, p@.len() as int) =~= p@);
}

fn push_points3(data: &mut Vec<u8>, p: &[(u32, u32, u32)])
    ensures
        final(data)@ == old(data)@ + points3_bytes(p@),
{
    let ghost start = data@;
    let mut i: usize = 0;
    while i < p.len()
        invariant
            0 <= i <= p@.len(),
            data@ == start + points3_bytes(p@.subrange(0, i as int)),
        decreases p@.len() - i,
    {
        proof {
            assert(p@.subrange(0, i as int + 1).drop_last() =~= p@.subrange(0, i as int));
        }
        push_le32(data, p[i].0);
        push_le32(data, p[i].1);
        push_le32(data, p[i].2);
        i = i + 1;
        proof {
            let q = p@.subrange(0, i as int);
            assert(q.last() == p@[i - 1]);
            assert(data@ =~= start + points3_bytes(q));
        }
    }
    assert(p@.subrange(0, p@.len() as int) =~= p@);
}

/// Whether the `f32` with these bits is finite and greater than zero: the
/// sign bit is clear, the bits are not those of `+0.0`, and the exponent is
/// not all ones.
pub open spec fn positive_finite_bits(b: u32) -> bool {
    0 < b && b < 0x7F80_0000u32
}

/// Whether the `f32` with these bits is finite and greater than zero.
pub fn positive_finite(b: u32) -> (r: bool)
    ensures
        r == positive_finite_bits(b),
{
    0 < b && b < 0x7F80_0000u32
}

/// Whether any input is labeled: the labeling an operator's output has
/// when it passes its inputs' labels on.
pub fn any_labeled(inputs_labeled: &[bool]) -> (b: bool)
    ensures
        b == exists|i: int| 0 <= i < inputs_labeled@.len() && inputs_labeled@[i],
{
    let mut i: usize = 0;
    while i < inputs_labeled.len()
        invariant
            0 <= i <= inputs_labeled@.len(),
            forall|j: int| 0 <= j < i ==> !inputs_labeled@[j],
        decreases inputs_labeled@.len() - i,
    {
        if inputs_labeled[i] {
            return true;
        }
        i = i + 1;
    }
    false
}

/// What an evaluation's arity check gives: `Ok` when `got` inputs are the
/// `expected` number, else the mismatch.
pub open spec fn arity_result(expected: usize, got: usize) -> Result<(), OpError> {
    if got == expected {
        Ok(())
    } else {
        Err(OpError::WrongArity { expected, got })
    }
}

fn check_arity(expected: usize, got: usize) -> (r: Result<(), OpError>)
    ensures
        r == arity_result(expected, got),
{
    if got != expected {
        return Err(OpError::WrongArity { expected, got });
    }
    Ok(())
}

/// The bytes of `extrude:`.
pub open spec fn extrude_tag() -> Seq<u8> {
    seq![101u8, 120u8, 116u8, 114u8, 117u8, 100u8, 101u8, 58u8]
}

/// What an extrusion's structural hash is taken over: the tag, the length's
/// bits, the profile's point count and the points' bits.
pub open spec fn extrude_hash_input(length: u32, profile: Seq<(u32, u32)>) -> Seq<u8> {
    extrude_tag() + le32(length) + le32(count32(profile.len())) + points2_bytes(profile)
}

/// Extrude a profile along `+Z` by `length` (the bits of an `f32`).
#[derive(Debug)]
pub struct ExtrudeOp {
    pub profile: Polygon2D,
    pub length: u32,
}

impl ExtrudeOp {
    /// Build the operator when `length` is finite and greater than zero;
    /// `None` otherwise.
    pub fn new(profile: Polygon2D, length: u32) -> (r: Option<ExtrudeOp>)
        ensures
            positive_finite_bits(length) ==> r == Some((ExtrudeOp { profile, length })),
            !positive_finite_bits(length) ==> r is None,
    {
        if !positive_finite(length) {
            return None;
        }
        Some(ExtrudeOp { profile, length })
    }

    pub fn op_kind(&self) -> (k: OpKind)
        ensures
            k == OpKind::Extrude,
    {
        OpKind::Extrude
    }

    /// An extrusion takes no inputs.
    pub fn arity(&self) -> (n: usize)
        ensures
            n == 0,
    {
        0
    }

    /// The arity check an evaluation starts with.
    pub fn check_inputs(&self, got: usize) -> (r: Result<(), OpError>)
        ensures
            r == arity_result(0, got),
    {
        check_arity(0, got)
    }

    /// Whether the length is still admissible (it is a public field).
    pub fn has_valid_length(&self) -> (b: bool)
        ensures
            b == positive_finite_bits(self.length),
    {
        positive_finite(self.length)
    }

    /// Labeled output exactly when an input is labeled.
    pub fn output_is_labeled(&self, inputs_labeled: &[bool]) -> (b: bool)
        ensures
            b == exists|i: int| 0 <= i < inputs_labeled@.len() && inputs_labeled@[i],
    {
        any_labeled(inputs_labeled)
    }

    /// BLAKE3 of `extrude:`, the length's bits, the point count and the
    /// points' bits, all little-endian.
    pub fn structural_hash(&self) -> (h: [u8; 32])
        ensures
            h@ == blake3_digest(extrude_hash_input(self.length, self.profile.points_view())),
    {
        let mut data: Vec<u8> = vec![101u8, 120u8, 116u8, 114u8, 117u8, 100u8, 101u8, 58u8];
        assert(data@ =~= extrude_tag());
        push_le32(&mut data, self.length);
        let pts = self.profile.points();
        push_le32(&mut data, count_u32(pts.len()));
        push_points2(&mut data, pts);
        blake3_hash(data.as_slice())
    }
}

/// The bytes of `sweep:`.
pub open spec fn sweep_tag() -> Seq<u8> {
    seq![115u8, 119u8, 101u8, 101u8, 112u8, 58u8]
}

/// What a sweep's structural hash is taken over: the tag, then the
/// profile's point count and points, then the path's point count and
/// points.
pub open spec fn sweep_hash_input(profile: Seq<(u32, u32)>, path: Seq<(u32, u32, u32)>) -> Seq<u8> {
    sweep_tag() + le32(count32(profile.len())) + points2_bytes(profile) + le32(count32(path.len()))
        + points3_bytes(path)
}

/// Translate a profile along a path.
#[derive(Debug)]
pub struct SweepOp {
    pub profile: Polygon2D,
    pub path: Polyline3D,
}

impl SweepOp {
    pub fn new(profile: Polygon2D, path: Polyline3D) -> (op: SweepOp)
        ensures
            op == (SweepOp { profile, path }),
    {
        SweepOp { profile, path }
    }

    pub fn op_kind(&self) -> (k: OpKind)
        ensures
            k == OpKind::Sweep,
    {
        OpKind::Sweep
    }

    /// A sweep takes no inputs.
    pub fn arity(&self) -> (n: usize)
        ensures
            n == 0,
    {
        0
    }

    /// The arity check an evaluation starts with.
    pub fn check_inputs(&self, got: usize) -> (r: Result<(), OpError>)
        ensures
            r == arity_result(0, got),
    {
        check_arity(0, got)
    }

    /// Labeled output exactly when an input is labeled.
    pub fn output_is_labeled(&self, inputs_labeled: &[bool]) -> (b: bool)
        ensures
            b == exists|i: int| 0 <= i < inputs_labeled@.len() && inputs_labeled@[i],
    {
        any_labeled(inputs_labeled)
    }

    /// BLAKE3 of `sweep:`, the profile's point count and points, the path's
    /// point count and points, all little-endian.
    pub fn structural_hash(&self) -> (h: [u8; 32])
        ensures
            h@ == blake3_digest(sweep_hash_input(self.profile.points_view(), self.path.points_view())),
    {
        let mut data: Vec<u8> = vec![115u8, 119u8, 101u8, 101u8, 112u8, 58u8];
        assert(data@ =~= sweep_tag());
        let pts = self.profile.points();
        push_le32(&mut data, count_u32(pts.len()));
        push_points2(&mut data, pts);
        let path = self.path.points();
        push_le32(&mut data, count_u32(path.len()));
        push_points3(&mut data, path);
        assert(data@ =~= sweep_hash_input(self.profile.points_view(), self.path.points_view()));
        blake3_hash(data.as_slice())
    }
}

/// The bytes of `revolve:`.
pub open spec fn revolve_tag() -> Seq<u8> {
    seq![114u8, 101u8, 118u8, 111u8, 108u8, 118u8, 101u8, 58u8]
}

/// What a revolution's structural hash is taken over: the tag, the segment
/// count, the angle's bits, the profile's point count and its points.
pub open spec fn revolve_hash_input(segments: u32, angle: u32, profile: Seq<(u32, u32)>) -> Seq<u8> {
    revolve_tag() + le32(segments) + le32(angle) + le32(count32(profile.len())) + points2_bytes(profile)
}

/// The bits of the `f32` nearest to 2π: a full turn.
pub const FULL_TURN_BITS: u32 = 0x40C9_0FDBu32;

/// The message of a refused segment count.
pub open spec fn segments_error_text(segments: u32) -> Seq<char> {
    "RevolveOp.segments must be >= 3 (got "@ + decimal(segments as nat) + ")"@
}

/// The message of a step count refused at evaluation.
pub open spec fn evaluated_segments_error_text(segments: u32) -> Seq<char> {
    "revolve segments must be >= 3 (got "@ + decimal(segments as nat) + ")"@
}

/// Revolve a profile about the Y axis by `angle` (the bits of an `f32`,
/// in radians) in `segments` steps.
#[derive(Debug)]
pub struct RevolveOp {
    pub profile: Polygon2D,
    pub segments: u32,
    pub angle: u32,
}

impl RevolveOp {
    /// A full revolution in `segments` steps; at least 3 steps are needed.
    pub fn new(profile: Polygon2D, segments: u32) -> (r: Result<RevolveOp, OpError>)
        ensures
            segments >= 3 ==> r == Ok::<RevolveOp, OpError>(
                (RevolveOp { profile, segments, angle: FULL_TURN_BITS }),
            ),
            segments < 3 ==> (r matches Err(OpError::InvalidParameter(m)) && m@ == segments_error_text(
                segments,
            )),
    {
        if segments < 3 {
            let mut m = String::from_str("RevolveOp.segments must be >= 3 (got ");
            push_decimal(&mut m, segments as u64);
            m.append(")");
            proof {
                reveal_strlit("RevolveOp.segments must be >= 3 (got ");
                reveal_strlit(")");
            }
            return Err(OpError::InvalidParameter(m));
        }
        Ok(RevolveOp { profile, segments, angle: FULL_TURN_BITS })
    }

    /// The check an evaluation makes of the step count, a public field:
    /// at least 3 steps.
    pub fn check_segments(&self) -> (r: Result<(), OpError>)
        ensures
            self.segments >= 3 ==> r is Ok,
            self.segments < 3 ==> (r matches Err(OpError::InvalidParameter(m)) && m@
                == evaluated_segments_error_text(self.segments)),
    {
        if self.segments < 3 {
            let mut m = String::from_str("revolve segments must be >= 3 (got ");
            push_decimal(&mut m, self.segments as u64);
            m.append(")");
            proof {
                reveal_strlit("revolve segments must be >= 3 (got ");
                reveal_strlit(")");
            }
            return Err(OpError::InvalidParameter(m));
        }
        Ok(())
    }

    /// Number of steps.
    pub fn segments(&self) -> (n: u32)
        ensures
            n == self.segments,
    {
        self.segments
    }

    /// The angle's bits.
    pub fn angle(&self) -> (a: u32)
        ensures
            a == self.angle,
    {
        self.angle
    }

    pub fn op_kind(&self) -> (k: OpKind)
        ensures
            k == OpKind::Revolve,
    {
        OpKind::Revolve
    }

    /// A revolution takes no inputs.
    pub fn arity(&self) -> (n: usize)
        ensures
            n == 0,
    {
        0
    }

    /// The arity check an evaluation starts with.
    pub fn check_inputs(&self, got: usize) -> (r: Result<(), OpError>)
        ensures
            r == arity_result(0, got),
    {
        check_arity(0, got)
    }

    /// Labeled output exactly when an input is labeled.
    pub fn output_is_labeled(&self, inputs_labeled: &[bool]) -> (b: bool)
        ensures
            b == exists|i: int| 0 <= i < inputs_labeled@.len() && inputs_labeled@[i],
    {
        any_labeled(inputs_labeled)
    }

    /// BLAKE3 of `revolve:`, the segment count, the angle's bits, the point
    /// count and the points' bits, all little-endian.
    pub fn structural_hash(&self) -> (h: [u8; 32])
        ensures
            h@ == blake3_digest(revolve_hash_input(self.segments, self.angle, self.profile.points_view())),
    {
        let mut data: Vec<u8> = vec![114u8, 101u8, 118u8, 111u8, 108u8, 118u8, 101u8, 58u8];
        assert(data@ =~= revolve_tag());
        push_le32(&mut data, self.segments);
        push_le32(&mut data, self.angle);
        let pts = self.profile.points();
        push_le32(&mut data, count_u32(pts.len()));
        push_points2(&mut data, pts);
        blake3_hash(data.as_slice())
    }
}

/// The bits of `1.0f32`.
pub const ONE_BITS: u32 = 0x3F80_0000u32;

/// One of a box's three extents.
#[derive(Clone, Copy, Debug, PartialEq, Eq, Structural)]
pub enum Extent {
    Width,
    Height,
    Depth,
}

impl Extent {
    /// The extent's field name.
    pub fn name(&self) -> (s: &'static str)
        ensures
            s@ == extent_name(*self),
    {
        match self {
            Extent::Width => "width",
            Extent::Height => "height",
            Extent::Depth => "depth",
        }
    }
}

pub open spec fn extent_name(e: Extent) -> Seq<char> {
    match e {
        Extent::Width => "width"@,
        Extent::Height => "height"@,
        Extent::Depth => "depth"@,
    }
}

/// The first extent, in the order width, height, depth, that is not finite
/// and greater than zero.
pub open spec fn first_bad_extent(op: CuboidOp) -> Option<Extent> {
    if !positive_finite_bits(op.width) {
        Some(Extent::Width)
    } else if !positive_finite_bits(op.height) {
        Some(Extent::Height)
    } else if !positive_finite_bits(op.depth) {
        Some(Extent::Depth)
    } else {
        None
    }
}

/// The bytes of `cuboid`.
pub open spec fn cuboid_tag() -> Seq<u8> {
    seq![99u8, 117u8, 98u8, 111u8, 105u8, 100u8]
}

/// What a box's structural hash is taken over: the tag and the three
/// extents' bits.
pub open spec fn cuboid_hash_input(op: CuboidOp) -> Seq<u8> {
    cuboid_tag() + le32(op.width) + le32(op.height) + le32(op.depth)
}

/// The index buffer of a box: two triangles per face, wound
/// counter-clockwise seen from outside, over the corners `0..4` of the
/// `-Z` face and `4..8` of the `+Z` face, each ring ordered
/// (-x,-y), (+x,-y), (+x,+y), (-x,+y).
pub open spec fn cuboid_index_seq() -> Seq<u32> {
    seq![
        0u32, 3, 2, 0, 2, 1,
        4, 5, 6, 4, 6, 7,
        0, 1, 5, 0, 5, 4,
        3, 7, 6, 3, 6, 2,
        0, 4, 7, 0, 7, 3,
        1, 2, 6, 1, 6, 5,
    ]
}

/// An axis-aligned box centred on the origin; its extents are the bits of
/// `f32` values.
#[derive(Clone, Copy, Debug, PartialEq, Eq, Structural)]
pub struct CuboidOp {
    pub width: u32,
    pub height: u32,
    pub depth: u32,
}

impl Default for CuboidOp {
    /// The unit cube.
    fn default() -> (op: CuboidOp)
        ensures
            op == (CuboidOp { width: ONE_BITS, height: ONE_BITS, depth: ONE_BITS }),
    {
        CuboidOp { width: ONE_BITS, height: ONE_BITS, depth: ONE_BITS }
    }
}

impl CuboidOp {
    /// Every extent must be finite and greater than zero; the first that
    /// is not is reported.
    pub fn validate(&self) -> (r: Result<(), Extent>)
        ensures
            r == (match first_bad_extent(*self) {
                None => Ok(()),
                Some(e) => Err(e),
            }),
    {
        if !positive_finite(self.width) {
            return Err(Extent::Width);
        }
        if !positive_finite(self.height) {
            return Err(Extent::Height);
        }
        if !positive_finite(self.depth) {
            return Err(Extent::Depth);
        }
        Ok(())
    }

    pub fn op_kind(&self) -> (k: OpKind)
        ensures
            k == OpKind::Cuboid,
    {
        OpKind::Cuboid
    }

    /// A box takes no inputs.
    pub fn arity(&self) -> (n: usize)
        ensures
            n == 0,
    {
        0
    }

    /// The arity check an evaluation starts with.
    pub fn check_inputs(&self, got: usize) -> (r: Result<(), OpError>)
        ensures
            r == arity_result(0, got),
    {
        check_arity(0, got)
    }

    /// Labeled output exactly when an input is labeled.
    pub fn output_is_labeled(&self, inputs_labeled: &[bool]) -> (b: bool)
        ensures
            b == exists|i: int| 0 <= i < inputs_labeled@.len() && inputs_labeled@[i],
    {
        any_labeled(inputs_labeled)
    }

    /// BLAKE3 of `cuboid` and the three extents' bits, little-endian.
    pub fn structural_hash(&self) -> (h: [u8; 32])
        ensures
            h@ == blake3_digest(cuboid_hash_input(*self)),
    {
        let mut data: Vec<u8> = vec![99u8, 117u8, 98u8, 111u8, 105u8, 100u8];
        assert(data@ =~= cuboid_tag());
        push_le32(&mut data, self.width);
        push_le32(&mut data, self.height);
        push_le32(&mut data, self.depth);
        blake3_hash(data.as_slice())
    }
}

/// The box's index buffer: 12 triangles over its 8 corners.
pub fn cuboid_indices() -> (v: Vec<u32>)
    ensures
        v@ == cuboid_index_seq(),
        buffers_check(8, v@) is Ok,
{
    let v: Vec<u32> = vec![
        0u32, 3, 2, 0, 2, 1,
        4, 5, 6, 4, 6, 7,
        0, 1, 5, 0, 5, 4,
        3, 7, 6, 3, 6, 2,
        0, 4, 7, 0, 7, 3,
        1, 2, 6, 1, 6, 5,
    ];
    assert(v@ =~= cuboid_index_seq());
    assert(forall|i: int| 0 <= i < v@.len() ==> v@[i] < 8);
    v
}

/// The position of corner `c` of the box with half-extents 1, by its
/// place in the vertex array (see `box_edges`).
pub open spec fn corner_pos(c: int) -> (int, int, int) {
    (
        if c % 4 == 1 || c % 4 == 2 { 1 } else { -1 },
        if c % 4 >= 2 { 1 } else { -1 },
        if c >= 4 { 1 } else { -1 },
    )
}

/// The outward unit normal of a face of the box.
pub open spec fn face_normal(t: CuboidFaceTag) -> (int, int, int) {
    match t {
        CuboidFaceTag::NegZ => (0, 0, -1),
        CuboidFaceTag::PosZ => (0, 0, 1),
        CuboidFaceTag::NegY => (0, -1, 0),
        CuboidFaceTag::PosY => (0, 1, 0),
        CuboidFaceTag::NegX => (-1, 0, 0),
        CuboidFaceTag::PosX => (1, 0, 0),
    }
}

/// The face with rank `r` (`-Z, +Z, -Y, +Y, -X, +X`).
pub open spec fn face_by_rank(r: int) -> CuboidFaceTag {
    if r == 0 {
        CuboidFaceTag::NegZ
    } else if r == 1 {
        CuboidFaceTag::PosZ
    } else if r == 2 {
        CuboidFaceTag::NegY
    } else if r == 3 {
        CuboidFaceTag::PosY
    } else if r == 4 {
        CuboidFaceTag::NegX
    } else {
        CuboidFaceTag::PosX
    }
}

/// The normal `(q - p) x (r - p)` of the triangle `(p, q, r)` of corners:
/// it points to the side from which the triangle is seen counter-clockwise.
pub open spec fn tri_normal(a: int, b: int, c: int) -> (int, int, int) {
    let (px, py, pz) = corner_pos(a);
    let (qx, qy, qz) = corner_pos(b);
    let (rx, ry, rz) = corner_pos(c);
    let (ux, uy, uz) = (qx - px, qy - py, qz - pz);
    let (vx, vy, vz) = (rx - px, ry - py, rz - pz);
    (uy * vz - uz * vy, uz * vx - ux * vz, ux * vy - uy * vx)
}

/// Triangle `i` of an index buffer lies on face `f` of the box and is wound
/// counter-clockwise seen from outside: its normal is the face's outward
/// normal (times 4, twice the area of a half-face).
pub open spec fn outward_on_face(s: Seq<u32>, i: int, f: CuboidFaceTag) -> bool {
    let (a, b, c) = (s[3 * i], s[3 * i + 1], s[3 * i + 2]);
    let (nx, ny, nz) = face_normal(f);
    &&& corner_on_face(a, f) && corner_on_face(b, f) && corner_on_face(c, f)
    &&& tri_normal(a as int, b as int, c as int) == (4 * nx, 4 * ny, 4 * nz)
}

/// The two triangles `2r`, `2r + 1` of an index buffer together use every
/// corner of the face with rank `r`.
pub open spec fn covers_face(s: Seq<u32>, r: int) -> bool {
    forall|x: u32| #[trigger] corner_on_face(x, face_by_rank(r)) ==> exists|j: int| 6 * r <= j < 6 * r + 6 && s[j] == x
}

/// The box's index buffer closes the box, wound outward: its 12 triangles
/// come two per face in the order `-Z, +Z, -Y, +Y, -X, +X`; each lies on
/// its face and is counter-clockwise seen from outside (its normal is the
/// face's outward normal); and the two triangles of a face use all four of
/// its corners.
pub proof fn law_cuboid_outward(s: Seq<u32>)
    requires
        s == cuboid_index_seq(),
    ensures
        s.len() == 36,
        forall|i: int| 0 <= i < 12 ==> #[trigger] outward_on_face(s, i, face_by_rank(i / 2)),
        forall|r: int| 0 <= r < 6 ==> #[trigger] covers_face(s, r),
{
    assert forall|i: int| 0 <= i < 12 implies #[trigger] outward_on_face(s, i, face_by_rank(i / 2)) by {
        if i == 0 { assert(s[0] == 0 && s[1] == 3 && s[2] == 2); assert(i / 2 == 0); assert(tri_normal(0, 3, 2) == (0int, 0int, -4int)) by (nonlinear_arith); } else if i == 1 { assert(s[3] == 0 && s[4] == 2 && s[5] == 1); assert(i / 2 == 0); assert(tri_normal(0, 2, 1) == (0int, 0int, -4int)) by (nonlinear_arith); } else if i == 2 { assert(s[6] == 4 && s[7] == 5 && s[8] == 6); assert(i / 2 == 1); assert(tri_normal(4, 5, 6) == (0int, 0int, 4int)) by (nonlinear_arith); } else if i == 3 { assert(s[9] == 4 && s[10] == 6 && s[11] == 7); assert(i / 2 == 1); assert(tri_normal(4, 6, 7) == (0int, 0int, 4int)) by (nonlinear_arith); } else if i == 4 { assert(s[12] == 0 && s[13] == 1 && s[14] == 5); assert(i / 2 == 2); assert(tri_normal(0, 1, 5) == (0int, -4int, 0int)) by (nonlinear_arith); } else if i == 5 { assert(s[15] == 0 && s[16] == 5 && s[17] == 4); assert(i / 2 == 2); assert(tri_normal(0, 5, 4) == (0int, -4int, 0int)) by (nonlinear_arith); } else if i == 6 { assert(s[18] == 3 && s[19] == 7 && s[20] == 6); assert(i / 2 == 3); assert(tri_normal(3, 7, 6) == (0int, 4int, 0int)) by (nonlinear_arith); } else if i == 7 { assert(s[21] == 3 && s[22] == 6 && s[23] == 2); assert(i / 2 == 3); assert(tri_normal(3, 6, 2) == (0int, 4int, 0int)) by (nonlinear_arith); } else if i == 8 { assert(s[24] == 0 && s[25] == 4 && s[26] == 7); assert(i / 2 == 4); assert(tri_normal(0, 4, 7) == (-4int, 0int, 0int)) by (nonlinear_arith); } else if i == 9 { assert(s[27] == 0 && s[28] == 7 && s[29] == 3); assert(i / 2 == 4); assert(tri_normal(0, 7, 3) == (-4int, 0int, 0int)) by (nonlinear_arith); } else if i == 10 { assert(s[30] == 1 && s[31] == 2 && s[32] == 6); assert(i / 2 == 5); assert(tri_normal(1, 2, 6) == (4int, 0int, 0int)) by (nonlinear_arith); } else { assert(i == 11); assert(s[33] == 1 && s[34] == 6 && s[35] == 5); assert(i / 2 == 5); assert(tri_normal(1, 6, 5) == (4int, 0int, 0int)) by (nonlinear_arith); }
    }
    assert forall|r: int| 0 <= r < 6 implies #[trigger] covers_face(s, r) by {
        assert forall|x: u32| #[trigger] corner_on_face(x, face_by_rank(r)) implies exists|j: int| 6 * r <= j < 6 * r + 6 && s[j] == x by {
            let w = 6 * r;
            if s[w] == x {
                assert(s[w] == x);
            } else if s[w + 1] == x {
                assert(s[w + 1] == x);
            } else if s[w + 2] == x {
                assert(s[w + 2] == x);
            } else if s[w + 3] == x {
                assert(s[w + 3] == x);
            } else if s[w + 4] == x {
                assert(s[w + 4] == x);
            } else {
                assert(s[w + 5] == x);
            }
        }
    }
}

/// The bytes of `transform`.
pub open spec fn transform_tag() -> Seq<u8> {
    seq![116u8, 114u8, 97u8, 110u8, 115u8, 102u8, 111u8, 114u8, 109u8]
}

/// What a transform's structural hash is taken over: the tag, then the
/// bits of the translation, the rotation and the scale, component by
/// component.
pub open spec fn transform_hash_input(op: TransformOp) -> Seq<u8> {
    transform_tag() + le32(op.translation@[0]) + le32(op.translation@[1]) + le32(op.translation@[2])
        + le32(op.rotation_quat_xyzw@[0]) + le32(op.rotation_quat_xyzw@[1]) + le32(
        op.rotation_quat_xyzw@[2],
    ) + le32(op.rotation_quat_xyzw@[3]) + le32(op.scale@[0]) + le32(op.scale@[1]) + le32(
        op.scale@[2],
    )
}

/// Scale, rotate (quaternion `x, y, z, w`) and translate one input mesh;
/// every component is the bits of an `f32`.
#[derive(Clone, Copy, Debug)]
pub struct TransformOp {
    pub translation: [u32; 3],
    pub rotation_quat_xyzw: [u32; 4],
    pub scale: [u32; 3],
}

impl Default for TransformOp {
    /// The identity: no translation, the identity rotation, unit scale.
    fn default() -> (op: TransformOp)
        ensures
            op.translation@ == seq![0u32, 0u32, 0u32],
            op.rotation_quat_xyzw@ == seq![0u32, 0u32, 0u32, ONE_BITS],
            op.scale@ == seq![ONE_BITS, ONE_BITS, ONE_BITS],
    {
        let op = TransformOp {
            translation: [0u32, 0u32, 0u32],
            rotation_quat_xyzw: [0u32, 0u32, 0u32, ONE_BITS],
            scale: [ONE_BITS, ONE_BITS, ONE_BITS],
        };
        assert(op.translation@ =~= seq![0u32, 0u32, 0u32]);
        assert(op.rotation_quat_xyzw@ =~= seq![0u32, 0u32, 0u32, ONE_BITS]);
        assert(op.scale@ =~= seq![ONE_BITS, ONE_BITS, ONE_BITS]);
        op
    }
}

impl TransformOp {
    pub fn op_kind(&self) -> (k: OpKind)
        ensures
            k == OpKind::Transform,
    {
        OpKind::Transform
    }

    /// A transform takes one input.
    pub fn arity(&self) -> (n: usize)
        ensures
            n == 1,
    {
        1
    }

    /// The arity check an evaluation starts with.
    pub fn check_inputs(&self, got: usize) -> (r: Result<(), OpError>)
        ensures
            r == arity_result(1, got),
    {
        check_arity(1, got)
    }

    /// The output is never labeled: the transformed mesh is rebuilt
    /// without labels.
    pub fn output_is_labeled(&self, inputs_labeled: &[bool]) -> (b: bool)
        ensures
            !b,
    {
        false
    }

    /// BLAKE3 of `transform` and the bits of the ten components, in the
    /// order translation, rotation, scale, little-endian.
    pub fn structural_hash(&self) -> (h: [u8; 32])
        ensures
            h@ == blake3_digest(transform_hash_input(*self)),
    {
        let mut data: Vec<u8> = vec![116u8, 114u8, 97u8, 110u8, 115u8, 102u8, 111u8, 114u8, 109u8];
        assert(data@ =~= transform_tag());
        push_le32(&mut data, self.translation[0]);
        push_le32(&mut data, self.translation[1]);
        push_le32(&mut data, self.translation[2]);
        push_le32(&mut data, self.rotation_quat_xyzw[0]);
        push_le32(&mut data, self.rotation_quat_xyzw[1]);
        push_le32(&mut data, self.rotation_quat_xyzw[2]);
        push_le32(&mut data, self.rotation_quat_xyzw[3]);
        push_le32(&mut data, self.scale[0]);
        push_le32(&mut data, self.scale[1]);
        push_le32(&mut data, self.scale[2]);
        blake3_hash(data.as_slice())
    }
}

/// An operator of the graph, of any kind.
#[derive(Debug)]
pub enum OperatorNode {
    Boolean(BooleanOp),
    Cuboid(CuboidOp),
    Extrude(ExtrudeOp),
    Revolve(RevolveOp),
    Transform(TransformOp),
}

/// The kind of a node's operator.
pub open spec fn node_kind(n: OperatorNode) -> OpKind {
    match n {
        OperatorNode::Boolean(_) => OpKind::Boolean,
        OperatorNode::Cuboid(_) => OpKind::Cuboid,
        OperatorNode::Extrude(_) => OpKind::Extrude,
        OperatorNode::Revolve(_) => OpKind::Revolve,
        OperatorNode::Transform(_) => OpKind::Transform,
    }
}

/// How many inputs a node's operator takes.
pub open spec fn node_arity(n: OperatorNode) -> usize {
    match n {
        OperatorNode::Boolean(_) => 2,
        OperatorNode::Transform(_) => 1,
        _ => 0,
    }
}

/// What a node's structural hash is taken over: its operator's bytes.
pub open spec fn node_hash_input(n: OperatorNode) -> Seq<u8> {
    match n {
        OperatorNode::Boolean(op) => boolean_hash_prefix().push(mode_tag(op.mode)),
        OperatorNode::Cuboid(op) => cuboid_hash_input(op),
        OperatorNode::Extrude(op) => extrude_hash_input(op.length, op.profile.points_view()),
        OperatorNode::Revolve(op) => revolve_hash_input(op.segments, op.angle, op.profile.points_view()),
        OperatorNode::Transform(op) => transform_hash_input(op),
    }
}

impl OperatorNode {
    /// The operator's kind.
    pub fn op_kind(&self) -> (k: OpKind)
        ensures
            k == node_kind(*self),
    {
        match self {
            OperatorNode::Boolean(op) => op.op_kind(),
            OperatorNode::Cuboid(op) => op.op_kind(),
            OperatorNode::Extrude(op) => op.op_kind(),
            OperatorNode::Revolve(op) => op.op_kind(),
            OperatorNode::Transform(op) => op.op_kind(),
        }
    }

    /// The operator's number of inputs.
    pub fn arity(&self) -> (n: usize)
        ensures
            n == node_arity(*self),
    {
        match self {
            OperatorNode::Boolean(op) => op.arity(),
            OperatorNode::Cuboid(op) => op.arity(),
            OperatorNode::Extrude(op) => op.arity(),
            OperatorNode::Revolve(op) => op.arity(),
            OperatorNode::Transform(op) => op.arity(),
        }
    }

    /// The arity check an evaluation of the operator starts with.
    pub fn check_inputs(&self, got: usize) -> (r: Result<(), OpError>)
        ensures
            r == arity_result(node_arity(*self), got),
    {
        match self {
            OperatorNode::Boolean(_) => check_arity(2, got),
            OperatorNode::Cuboid(op) => op.check_inputs(got),
            OperatorNode::Extrude(op) => op.check_inputs(got),
            OperatorNode::Revolve(op) => op.check_inputs(got),
            OperatorNode::Transform(op) => op.check_inputs(got),
        }
    }

    /// The operator's structural hash.
    pub fn structural_hash(&self) -> (h: [u8; 32])
        ensures
            h@ == blake3_digest(node_hash_input(*self)),
    {
        match self {
            OperatorNode::Boolean(op) => op.structural_hash(),
            OperatorNode::Cuboid(op) => op.structural_hash(),
            OperatorNode::Extrude(op) => op.structural_hash(),
            OperatorNode::Revolve(op) => op.structural_hash(),
            OperatorNode::Transform(op) => op.structural_hash(),
        }
    }

    /// Whether the operator's output is labeled, given its inputs'.
    pub fn output_is_labeled(&self, inputs_labeled: &[bool]) -> (b: bool)
        ensures
            b == (match *self {
                OperatorNode::Transform(_) => false,
                _ => exists|i: int| 0 <= i < inputs_labeled@.len() && inputs_labeled@[i],
            }),
    {
        match self {
            OperatorNode::Boolean(op) => op.output_is_labeled(inputs_labeled),
            OperatorNode::Cuboid(op) => op.output_is_labeled(inputs_labeled),
            OperatorNode::Extrude(op) => op.output_is_labeled(inputs_labeled),
            OperatorNode::Revolve(op) => op.output_is_labeled(inputs_labeled),
            OperatorNode::Transform(op) => op.output_is_labeled(inputs_labeled),
        }
    }
}

} // verus!
