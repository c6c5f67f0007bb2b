//! The CAD operator vocabulary that carries no geometry: operator kinds,
//! edge kinds, errors, the boolean operator's modes and structural hash, the
//! validation of profile and path points (read as the bit patterns of their
//! `f32` coordinates), and the vertex layout of an extruded prism.

use vstd::prelude::*;

use crate::asset_id::{blake3_digest, blake3_hash};
use crate::text::{decimal, push_decimal};

verus! {

/// Errors an operator reports.
#[derive(Debug)]
pub enum OpError {
    /// The operator got the wrong number of inputs.
    WrongArity { expected: usize, got: usize },
    /// The operator produced an empty result.
    EmptyResult,
    /// A parameter is out of the operator's domain.
    InvalidParameter(String),
}

pub open spec fn op_error_text(e: OpError) -> Seq<char> {
    match e {
        OpError::WrongArity { expected, got } => "wrong arity: expected "@ + decimal(expected as nat)
            + ", got "@ + decimal(got as nat),
        OpError::EmptyResult => "operator produced empty result"@,
        OpError::InvalidParameter(s) => "invalid parameter: "@ + s@,
    }
}

impl OpError {
    /// The error's message.
    pub fn message(&self) -> (s: String)
        ensures
            s@ == op_error_text(*self),
    {
        match self {
            OpError::WrongArity { expected, got } => {
                let mut s = String::from_str("wrong arity: expected ");
                push_decimal(&mut s, *expected as u64);
                s.append(", got ");
                push_decimal(&mut s, *got as u64);
                s
            },
            OpError::EmptyResult => String::from_str("operator produced empty result"),
            OpError::InvalidParameter(d) => {
                let mut s = String::from_str("invalid parameter: ");
                s.append(d.as_str());
                s
            },
        }
    }
}

/// The kind of an operator node.
#[derive(Clone, Copy, Debug, PartialEq, Eq, Hash, Structural)]
pub enum OpKind {
    Boolean,
    Cuboid,
    Extrude,
    Revolve,
    Sweep,
    Transform,
}

/// What an edge of the operator graph carries: which input slot of the
/// target operator it feeds.
#[derive(Clone, Copy, Debug, PartialEq, Eq, Hash, Structural)]
pub enum EdgeKind {
    Input(u8),
}

/// The set operation of a boolean operator.
#[derive(Clone, Copy, Debug, PartialEq, Eq, Hash, Structural)]
pub enum BooleanMode {
    Union,
    Intersection,
    Difference,
}

pub open spec fn mode_tag(m: BooleanMode) -> u8 {
    match m {
        BooleanMode::Union => 0,
        BooleanMode::Intersection => 1,
        BooleanMode::Difference => 2,
    }
}

impl BooleanMode {
    /// The mode's stable tag byte, which enters the structural hash.
    pub fn discriminant(self) -> (d: u8)
        ensures
            d == mode_tag(self),
    {
        match self {
            BooleanMode::Union => 0,
            BooleanMode::Intersection => 1,
            BooleanMode::Difference => 2,
        }
    }
}

/// The bytes of `boolean:`.
pub open spec fn boolean_hash_prefix() -> Seq<u8> {
    seq![98u8, 111u8, 111u8, 108u8, 101u8, 97u8, 110u8, 58u8]
}

/// A boolean operator: combines its two input meshes by `mode`.
#[derive(Clone, Copy, Debug, PartialEq, Eq, Structural)]
pub struct BooleanOp {
    pub mode: BooleanMode,
}

impl BooleanOp {
    pub fn new(mode: BooleanMode) -> (op: BooleanOp)
        ensures
            op.mode == mode,
    {
        BooleanOp { mode }
    }

    pub fn union() -> (op: BooleanOp)
        ensures
            op.mode == BooleanMode::Union,
    {
        BooleanOp::new(BooleanMode::Union)
    }

    pub fn intersection() -> (op: BooleanOp)
        ensures
            op.mode == BooleanMode::Intersection,
    {
        BooleanOp::new(BooleanMode::Intersection)
    }

    pub fn difference() -> (op: BooleanOp)
        ensures
            op.mode == BooleanMode::Difference,
    {
        BooleanOp::new(BooleanMode::Difference)
    }

    pub fn op_kind(&self) -> (k: OpKind)
        ensures
            k == OpKind::Boolean,
    {
        OpKind::Boolean
    }

    /// A boolean operator takes two inputs.
    pub fn arity(&self) -> (n: usize)
        ensures
            n == 2,
    {
        2
    }

    /// BLAKE3 of `boolean:` followed by the mode's tag byte.
    pub fn structural_hash(&self) -> (h: [u8; 32])
        ensures
            h@ == blake3_digest(boolean_hash_prefix().push(mode_tag(self.mode))),
    {
        let mut data: Vec<u8> = Vec::new();
        data.push(98);
        data.push(111);
        data.push(111);
        data.push(108);
        data.push(101);
        data.push(97);
        data.push(110);
        data.push(58);
        data.push(self.mode.discriminant());
        assert(data@ =~= boolean_hash_prefix().push(mode_tag(self.mode)));
        blake3_hash(data.as_slice())
    }

    /// Whether the output carries face labels: when any input does.
    pub fn output_is_labeled(&self, inputs_labeled: &[bool]) -> (b: bool)
        ensures
            b == exists|i: int| 0 <= i < inputs_labeled@.len() && inputs_labeled@[i],
    {
        let mut i: usize = 0;
        while i < inputs_labeled.len()
            invariant
                0 <= i <= inputs_labeled@.len(),
                forall|j: int| 0 <= j < i ==> !inputs_labeled@[j],
            decreases inputs_labeled@.len() - i,
        {
            if inputs_labeled[i] {
                return true;
            }
            i = i + 1;
        }
        false
    }

    /// The arity check an evaluation starts with: the number of inputs must
    /// be the arity.
    pub fn check_inputs(&self, got: usize) -> (r: Result<(), OpError>)
        ensures
            got == 2 ==> r is Ok,
            got != 2 ==> (r matches Err(OpError::WrongArity { expected, got: g }) && expected == 2 && g
                == got),
    {
        if got != self.arity() {
            return Err(OpError::WrongArity { expected: self.arity(), got });
        }
        Ok(())
    }
}

/// Whether the `f32` with these bits is finite: its exponent is not all ones.
pub open spec fn finite_bits(b: u32) -> bool {
    b & 0x7F80_0000u32 != 0x7F80_0000u32
}

fn is_finite_bits(b: u32) -> (r: bool)
    ensures
        r == finite_bits(b),
{
    b & 0x7F80_0000u32 != 0x7F80_0000u32
}

/// Whether two finite `f32` coordinates, given by their bits, compare
/// equal: the same bits, or both zero (`0.0 == -0.0`).
pub open spec fn same_coord(a: u32, b: u32) -> bool {
    a == b || (a & 0x7FFF_FFFFu32 == 0 && b & 0x7FFF_FFFFu32 == 0)
}

fn coords_equal(a: u32, b: u32) -> (r: bool)
    ensures
        r == same_coord(a, b),
{
    a == b || (a & 0x7FFF_FFFFu32 == 0 && b & 0x7FFF_FFFFu32 == 0)
}

/// Whether two finite points coincide, coordinate by coordinate.
pub open spec fn same_point2(p: (u32, u32), q: (u32, u32)) -> bool {
    same_coord(p.0, q.0) && same_coord(p.1, q.1)
}

/// Whether two finite points coincide, coordinate by coordinate.
pub open spec fn same_point3(p: (u32, u32, u32), q: (u32, u32, u32)) -> bool {
    same_coord(p.0, q.0) && same_coord(p.1, q.1) && same_coord(p.2, q.2)
}

/// Errors of building a closed 2D profile.
#[derive(Debug, PartialEq, Eq, Structural)]
pub enum Polygon2DError {
    /// Fewer than 3 points.
    TooFewPoints { got: usize },
    /// The point at `index` has a NaN or infinite coordinate.
    NonFiniteCoordinate { index: usize },
    /// The point at `index` coincides with the one before it (for index 0:
    /// the last point, across the closing edge).
    DegenerateEdge { index: usize },
}

pub open spec fn point2_finite(p: (u32, u32)) -> bool {
    finite_bits(p.0) && finite_bits(p.1)
}

/// Edge `i` of a closed polygon joins point `i` to the next one, the last
/// point joining the first.
pub open spec fn edge_degenerate(p: Seq<(u32, u32)>, i: int) -> bool {
    same_point2(p[i], p[(i + 1) % (p.len() as int)])
}

pub open spec fn first_nonfinite2(p: Seq<(u32, u32)>) -> int {
    choose|i: int|
        0 <= i < p.len() && !point2_finite(#[trigger] p[i]) && forall|j: int|
            0 <= j < i ==> point2_finite(#[trigger] p[j])
}

pub open spec fn first_degenerate_edge(p: Seq<(u32, u32)>) -> int {
    choose|i: int|
        0 <= i < p.len() && edge_degenerate(p, i) && forall|j: int|
            0 <= j < i ==> !edge_degenerate(p, j)
}

/// What building a profile from these points gives: checks in order, the
/// first failing point reported.
pub open spec fn polygon_check(p: Seq<(u32, u32)>) -> Result<(), Polygon2DError> {
    if p.len() < 3 {
        Err(Polygon2DError::TooFewPoints { got: p.len() as usize })
    } else if exists|i: int| 0 <= i < p.len() && !point2_finite(#[trigger] p[i]) {
        Err(Polygon2DError::NonFiniteCoordinate { index: first_nonfinite2(p) as usize })
    } else if exists|i: int| 0 <= i < p.len() && edge_degenerate(p, i) {
        Err(Polygon2DError::DegenerateEdge { index: ((first_degenerate_edge(p) + 1) % (p.len() as int)) as usize })
    } else {
        Ok(())
    }
}

/// A closed profile in the XY plane, held as the bit patterns of its `f32`
/// coordinates: at least 3 points, all finite, no two consecutive ones
/// (the last and the first included) coinciding as floats compare.
#[derive(Debug)]
pub struct Polygon2D {
    points: Vec<(u32, u32)>,
}

impl Polygon2D {
    pub closed spec fn points_view(&self) -> Seq<(u32, u32)> {
        self.points@
    }

    #[verifier::type_invariant]
    closed spec fn inv(&self) -> bool {
        polygon_check(self.points@) is Ok
    }

    /// Build a profile, or report the first problem with the points.
    pub fn new(points: Vec<(u32, u32)>) -> (r: Result<Polygon2D, Polygon2DError>)
        ensures
            match (r, polygon_check(points@)) {
                (Ok(poly), Ok(())) => poly.points_view() == points@,
                (Err(e), Err(f)) => e == f,
                _ => false,
            },
    {
        let n = points.len();
        if n < 3 {
            return Err(Polygon2DError::TooFewPoints { got: n });
        }
        let mut i: usize = 0;
        while i < n
            invariant
                0 <= i <= n,
                n == points@.len(),
                n >= 3,
                forall|j: int| 0 <= j < i ==> point2_finite(#[trigger] points@[j]),
            decreases n - i,
        {
            if !is_finite_bits(points[i].0) || !is_finite_bits(points[i].1) {
                proof {
                    let p = points@;
                    assert(!point2_finite(p[i as int]));
                    assert(0 <= i < p.len() && !point2_finite(p[i as int]) && forall|j: int|
                        0 <= j < i ==> point2_finite(#[trigger] p[j]));
                    let f = first_nonfinite2(p);
                    if f < i {
                        assert(point2_finite(p[f]));
                    }
                    if f > i {
                        assert(point2_finite(p[i as int]));
                    }
                }
                return Err(Polygon2DError::NonFiniteCoordinate { index: i });
            }
            i = i + 1;
        }
        let mut k: usize = 0;
        while k < n
            invariant
                0 <= k <= n,
                n == points@.len(),
                n >= 3,
                forall|j: int| 0 <= j < n ==> point2_finite(#[trigger] points@[j]),
                forall|j: int| 0 <= j < k ==> !edge_degenerate(points@, j),
            decreases n - k,
        {
            let next = (k + 1) % n;
            if coords_equal(points[k].0, points[next].0) && coords_equal(points[k].1, points[next].1) {
                proof {
                    let p = points@;
                    assert(edge_degenerate(p, k as int));
                    assert(0 <= k < p.len() && edge_degenerate(p, k as int) && forall|j: int|
                        0 <= j < k ==> !edge_degenerate(p, j));
                    let f = first_degenerate_edge(p);
                    if f < k {
                        assert(!edge_degenerate(p, f));
                    }
                    if f > k {
                        assert(!edge_degenerate(p, k as int));
                    }
                    assert(!(exists|i: int| 0 <= i < p.len() && !point2_finite(#[trigger] p[i])));
                }
                return Err(Polygon2DError::DegenerateEdge { index: next });
            }
            k = k + 1;
        }
        proof {
            let p = points@;
            assert(!(exists|i: int| 0 <= i < p.len() && !point2_finite(#[trigger] p[i])));
            assert(!(exists|i: int| 0 <= i < p.len() && edge_degenerate(p, i)));
        }
        Ok(Polygon2D { points })
    }

    /// The points' bit patterns.
    pub fn points(&self) -> (p: &[(u32, u32)])
        ensures
            p@ == self.points_view(),
    {
        self.points.as_slice()
    }

    /// Number of points (at least 3).
    pub fn len(&self) -> (n: usize)
        ensures
            n == self.points_view().len(),
            n >= 3,
    {
        proof { use_type_invariant(self); }
        self.points.len()
    }

    /// Always `false`: a profile has at least 3 points.
    pub fn is_empty(&self) -> (b: bool)
        ensures
            !b,
    {
        proof { use_type_invariant(self); }
        self.points.len() == 0
    }
}

/// Errors of building an open 3D path.
#[derive(Debug, PartialEq, Eq, Structural)]
pub enum Polyline3DError {
    /// Fewer than 2 points.
    TooFewPoints { got: usize },
    /// The point at `index` has a NaN or infinite coordinate.
    NonFiniteCoordinate { index: usize },
    /// The point at `index` coincides with the one before it.
    DegenerateSegment { index: usize },
}

pub open spec fn point3_finite(p: (u32, u32, u32)) -> bool {
    finite_bits(p.0) && finite_bits(p.1) && finite_bits(p.2)
}

pub open spec fn first_nonfinite3(p: Seq<(u32, u32, u32)>) -> int {
    choose|i: int|
        0 <= i < p.len() && !point3_finite(#[trigger] p[i]) && forall|j: int|
            0 <= j < i ==> point3_finite(#[trigger] p[j])
}

/// Segment `i` of an open path joins point `i` to point `i + 1`.
pub open spec fn segment_degenerate(p: Seq<(u32, u32, u32)>, i: int) -> bool {
    same_point3(p[i], p[i + 1])
}

pub open spec fn first_degenerate_segment(p: Seq<(u32, u32, u32)>) -> int {
    choose|i: int|
        0 <= i < p.len() - 1 && segment_degenerate(p, i) && forall|j: int|
            0 <= j < i ==> !segment_degenerate(p, j)
}

/// What building a path from these points gives: checks in order, the
/// first failing point reported.
pub open spec fn polyline_check(p: Seq<(u32, u32, u32)>) -> Result<(), Polyline3DError> {
    if p.len() < 2 {
        Err(Polyline3DError::TooFewPoints { got: p.len() as usize })
    } else if exists|i: int| 0 <= i < p.len() && !point3_finite(#[trigger] p[i]) {
        Err(Polyline3DError::NonFiniteCoordinate { index: first_nonfinite3(p) as usize })
    } else if exists|i: int| 0 <= i < p.len() - 1 && segment_degenerate(p, i) {
        Err(Polyline3DError::DegenerateSegment { index: (first_degenerate_segment(p) + 1) as usize })
    } else {
        Ok(())
    }
}

/// An open path in space, held as the bit patterns of its `f32`
/// coordinates: at least 2 points, all finite, no two consecutive ones
/// coinciding as floats compare.
#[derive(Debug)]
pub struct Polyline3D {
    points: Vec<(u32, u32, u32)>,
}

impl Polyline3D {
    pub closed spec fn points_view(&self) -> Seq<(u32, u32, u32)> {
        self.points@
    }

    #[verifier::type_invariant]
    closed spec fn inv(&self) -> bool {
        polyline_check(self.points@) is Ok
    }

    /// Build a path, or report the first problem with the points.
    pub fn new(points: Vec<(u32, u32, u32)>) -> (r: Result<Polyline3D, Polyline3DError>)
        ensures
            match (r, polyline_check(points@)) {
                (Ok(path), Ok(())) => path.points_view() == points@,
                (Err(e), Err(f)) => e == f,
                _ => false,
            },
    {
        let n = points.len();
        if n < 2 {
            return Err(Polyline3DError::TooFewPoints { got: n });
        }
        let mut i: usize = 0;
        while i < n
            invariant
                0 <= i <= n,
                n == points@.len(),
                n >= 2,
                forall|j: int| 0 <= j < i ==> point3_finite(#[trigger] points@[j]),
            decreases n - i,
        {
            if !is_finite_bits(points[i].0) || !is_finite_bits(points[i].1) || !is_finite_bits(
                points[i].2,
            ) {
                proof {
                    let p = points@;
                    assert(!point3_finite(p[i as int]));
                    assert(0 <= i < p.len() && !point3_finite(p[i as int]) && forall|j: int|
                        0 <= j < i ==> point3_finite(#[trigger] p[j]));
                    let f = first_nonfinite3(p);
                    if f < i {
                        assert(point3_finite(p[f]));
                    }
                    if f > i {
                        assert(point3_finite(p[i as int]));
                    }
                }
                return Err(Polyline3DError::NonFiniteCoordinate { index: i });
            }
            i = i + 1;
        }
        let mut k: usize = 0;
        while k < n - 1
            invariant
                0 <= k <= n - 1,
                n == points@.len(),
                n >= 2,
                forall|j: int| 0 <= j < n ==> point3_finite(#[trigger] points@[j]),
                forall|j: int| 0 <= j < k ==> !segment_degenerate(points@, j),
            decreases n - 1 - k,
        {
            let a = points[k];
            let b = points[k + 1];
            if coords_equal(a.0, b.0) && coords_equal(a.1, b.1) && coords_equal(a.2, b.2) {
                proof {
                    let p = points@;
                    assert(segment_degenerate(p, k as int));
                    assert(0 <= k < p.len() - 1 && segment_degenerate(p, k as int) && forall|j: int|
                        0 <= j < k ==> !segment_degenerate(p, j));
                    let f = first_degenerate_segment(p);
                    if f < k {
                        assert(!segment_degenerate(p, f));
                    }
                    if f > k {
                        assert(!segment_degenerate(p, k as int));
                    }
                    assert(!(exists|i: int| 0 <= i < p.len() && !point3_finite(#[trigger] p[i])));
                }
                return Err(Polyline3DError::DegenerateSegment { index: k + 1 });
            }
            k = k + 1;
        }
        proof {
            let p = points@;
            assert(!(exists|i: int| 0 <= i < p.len() && !point3_finite(#[trigger] p[i])));
            assert(!(exists|i: int| 0 <= i < p.len() - 1 && segment_degenerate(p, i)));
        }
        Ok(Polyline3D { points })
    }

    /// The points' bit patterns.
    pub fn points(&self) -> (p: &[(u32, u32, u32)])
        ensures
            p@ == self.points_view(),
    {
        self.points.as_slice()
    }

    /// Number of points (at least 2).
    pub fn len(&self) -> (n: usize)
        ensures
            n == self.points_view().len(),
            n >= 2,
    {
        proof { use_type_invariant(self); }
        self.points.len()
    }

    /// Always `false`: a path has at least 2 points.
    pub fn is_empty(&self) -> (b: bool)
        ensures
            !b,
    {
        proof { use_type_invariant(self); }
        self.points.len() == 0
    }
}

/// The two vertices of bottom-perimeter edge `i` of a prism extruded from
/// an `n`-point profile: the bottom ring is vertices `0..n`, and edge `i`
/// joins ring vertex `i` to the next one around.
pub fn extrude_bottom_perimeter_vertex_pair(i: usize, profile_count: u32) -> (r: (u32, u32))
    requires
        i < profile_count,
    ensures
        r == (i as u32, ((i + 1) % (profile_count as int)) as u32),
{
    let n = profile_count as usize;
    let next = ((i + 1) % n) as u32;
    (i as u32, next)
}

/// The two vertices of top-perimeter edge `i`: the top ring is vertices
/// `n..2n`, laid out as the bottom ring.
pub fn extrude_top_perimeter_vertex_pair(i: usize, profile_count: u32) -> (r: (u32, u32))
    requires
        i < profile_count,
        2 * (profile_count as int) <= u32::MAX + 1,
    ensures
        r == ((profile_count + i) as u32, (profile_count + (i + 1) % (profile_count as int)) as u32),
{
    let n = profile_count as usize;
    let next = ((i + 1) % n) as u32;
    (profile_count + i as u32, profile_count + next)
}

} // verus!
