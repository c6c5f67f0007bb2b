//! The combinatorial side of a triangle mesh: index buffers, their
//! validation against the number of vertices, and per-triangle face labels.
//! Vertex coordinates are not held here; only how many there are matters to
//! the checks.

use vstd::prelude::*;

use crate::text::{decimal, push_decimal};

verus! {

/// The id of a topological face a triangle belongs to.
#[derive(Clone, Copy, Debug, PartialEq, Eq, Hash, PartialOrd, Ord, Structural)]
pub struct TopologyFaceId(pub u64);

impl TopologyFaceId {
    /// The sentinel for triangles that belong to no face.
    pub fn degenerate() -> (id: TopologyFaceId)
        ensures
            id.0 == u64::MAX,
    {
        TopologyFaceId(u64::MAX)
    }

    /// Whether this is the "no face" sentinel.
    pub fn is_degenerate(self) -> (b: bool)
        ensures
            b == (self.0 == u64::MAX),
    {
        self.0 == u64::MAX
    }

    /// The display form: `face:degenerate` for the sentinel, else `face:<id>`.
    pub fn text(&self) -> (s: String)
        ensures
            s@ == (if self.0 == u64::MAX { "face:degenerate"@ } else { "face:"@ + decimal(self.0 as nat) }),
    {
        if self.0 == u64::MAX {
            String::from_str("face:degenerate")
        } else {
            let mut s = String::from_str("face:");
            push_decimal(&mut s, self.0);
            s
        }
    }
}

/// Why an index buffer or label list is rejected.
#[derive(Debug, PartialEq, Eq, Structural)]
pub enum TessellationError {
    /// An index names a vertex that does not exist.
    IndexOutOfBounds { index_value: u32, num_positions: usize },
    /// The number of indices is not a multiple of 3.
    IncompleteTriangle { index_count: usize },
    /// There is not exactly one label per triangle.
    LabelLengthMismatch { got: usize, expected: usize },
}

pub open spec fn tessellation_error_text(e: TessellationError) -> Seq<char> {
    match e {
        TessellationError::IndexOutOfBounds { index_value, num_positions } => "index "@ + decimal(
            index_value as nat,
        ) + " out of bounds (positions has "@ + decimal(num_positions as nat) + " entries)"@,
        TessellationError::IncompleteTriangle { index_count } => "incomplete triangle: "@ + decimal(
            index_count as nat,
        ) + " indices is not a multiple of 3"@,
        TessellationError::LabelLengthMismatch { got, expected } => "face_labels length ("@
            + decimal(got as nat) + ") must equal triangle count ("@ + decimal(expected as nat)
            + ")"@,
    }
}

impl TessellationError {
    /// The error's message.
    pub fn message(&self) -> (s: String)
        ensures
            s@ == tessellation_error_text(*self),
    {
        match self {
            TessellationError::IndexOutOfBounds { index_value, num_positions } => {
                let mut s = String::from_str("index ");
                push_decimal(&mut s, *index_value as u64);
                s.append(" out of bounds (positions has ");
                push_decimal(&mut s, *num_positions as u64);
                s.append(" entries)");
                s
            },
            TessellationError::IncompleteTriangle { index_count } => {
                let mut s = String::from_str("incomplete triangle: ");
                push_decimal(&mut s, *index_count as u64);
                s.append(" indices is not a multiple of 3");
                s
            },
            TessellationError::LabelLengthMismatch { got, expected } => {
                let mut s = String::from_str("face_labels length (");
                push_decimal(&mut s, *got as u64);
                s.append(") must equal triangle count (");
                push_decimal(&mut s, *expected as u64);
                s.append(")");
                s
            },
        }
    }
}

pub open spec fn first_out_of_bounds(n: nat, idx: Seq<u32>) -> int {
    choose|i: int| 0 <= i < idx.len() && idx[i] >= n && forall|j: int| 0 <= j < i ==> #[trigger] idx[j] < n
}

/// What checking an index buffer against `n` vertices gives: first the
/// count must be a multiple of 3, then the first index that names no vertex
/// is reported.
pub open spec fn buffers_check(n: nat, idx: Seq<u32>) -> Result<(), TessellationError> {
    if idx.len() % 3 != 0 {
        Err(TessellationError::IncompleteTriangle { index_count: idx.len() as usize })
    } else if exists|i: int| 0 <= i < idx.len() && #[trigger] idx[i] >= n {
        Err(
            TessellationError::IndexOutOfBounds {
                index_value: idx[first_out_of_bounds(n, idx)],
                num_positions: n as usize,
            },
        )
    } else {
        Ok(())
    }
}

/// The faces a label list names: every label but the sentinel.
pub open spec fn named_faces(labels: Seq<TopologyFaceId>) -> Set<u64> {
    Set::new(|x: u64| x != u64::MAX && exists|i: int| 0 <= i < labels.len() && (#[trigger] labels[i]).0 == x)
}

/// Check an index buffer against a vertex count.
pub fn validate_buffers(num_positions: usize, indices: &[u32]) -> (r: Result<(), TessellationError>)
    ensures
        r == buffers_check(num_positions as nat, indices@),
{
    if indices.len() % 3 != 0 {
        return Err(TessellationError::IncompleteTriangle { index_count: indices.len() });
    }
    let mut i: usize = 0;
    while i < indices.len()
        invariant
            0 <= i <= indices@.len(),
            indices@.len() % 3 == 0,
            forall|j: int| 0 <= j < i ==> #[trigger] indices@[j] < num_positions,
        decreases indices@.len() - i,
    {
        let idx = indices[i];
        if (idx as usize) >= num_positions {
            proof {
                let s = indices@;
                let n = num_positions as nat;
                assert(0 <= i < s.len() && s[i as int] >= n && forall|j: int| 0 <= j < i ==> #[trigger] s[j] < n);
                let f = first_out_of_bounds(n, s);
                if f < i {
                    assert(s[f] < n);
                }
                if f > i {
                    assert(s[i as int] < n);
                }
            }
            return Err(TessellationError::IndexOutOfBounds { index_value: idx, num_positions });
        }
        i = i + 1;
    }
    Ok(())
}

/// A mesh's combinatorics: how many vertices it has, its triangles as
/// triples of vertex indices, and optionally one face label per triangle.
#[derive(Debug)]
pub struct MeshTopology {
    vertex_count: usize,
    indices: Vec<u32>,
    face_labels: Option<Vec<TopologyFaceId>>,
}

impl MeshTopology {
    pub closed spec fn vertex_count_view(&self) -> nat {
        self.vertex_count as nat
    }

    pub closed spec fn indices_view(&self) -> Seq<u32> {
        self.indices@
    }

    pub closed spec fn labels_view(&self) -> Option<Seq<TopologyFaceId>> {
        match self.face_labels {
            Some(v) => Some(v@),
            None => None,
        }
    }

    #[verifier::type_invariant]
    closed spec fn inv(&self) -> bool {
        &&& buffers_check(self.vertex_count as nat, self.indices@) is Ok
        &&& (self.face_labels matches Some(v) ==> v@.len() == self.indices@.len() / 3)
    }

    /// An unlabeled mesh, if the index buffer fits the vertex count.
    pub fn new(vertex_count: usize, indices: Vec<u32>) -> (r: Result<MeshTopology, TessellationError>)
        ensures
            match (r, buffers_check(vertex_count as nat, indices@)) {
                (Ok(m), Ok(())) => m.vertex_count_view() == vertex_count && m.indices_view() == indices@
                    && m.labels_view() is None,
                (Err(e), Err(f)) => e == f,
                _ => false,
            },
    {
        match validate_buffers(vertex_count, indices.as_slice()) {
            Err(e) => Err(e),
            Ok(()) => Ok(MeshTopology { vertex_count, indices, face_labels: None }),
        }
    }

    /// A labeled mesh: the index buffer must fit the vertex count, then
    /// there must be exactly one label per triangle.
    pub fn with_labels(vertex_count: usize, indices: Vec<u32>, face_labels: Vec<TopologyFaceId>) -> (r:
        Result<MeshTopology, TessellationError>)
        ensures
            buffers_check(vertex_count as nat, indices@) is Err ==> (r matches Err(e) && e
                == buffers_check(vertex_count as nat, indices@)->Err_0),
            buffers_check(vertex_count as nat, indices@) is Ok && face_labels@.len() != indices@.len()
                / 3 ==> r == Err::<MeshTopology, TessellationError>(
                TessellationError::LabelLengthMismatch {
                    got: face_labels@.len() as usize,
                    expected: (indices@.len() / 3) as usize,
                },
            ),
            buffers_check(vertex_count as nat, indices@) is Ok && face_labels@.len() == indices@.len()
                / 3 ==> (r matches Ok(m) && m.vertex_count_view() == vertex_count && m.indices_view()
                == indices@ && m.labels_view() == Some(face_labels@)),
    {
        match validate_buffers(vertex_count, indices.as_slice()) {
            Err(e) => {
                return Err(e);
            },
            Ok(()) => {},
        }
        let triangle_count = indices.len() / 3;
        if face_labels.len() != triangle_count {
            return Err(
                TessellationError::LabelLengthMismatch { got: face_labels.len(), expected: triangle_count },
            );
        }
        Ok(MeshTopology { vertex_count, indices, face_labels: Some(face_labels) })
    }

    pub fn vertex_count(&self) -> (n: usize)
        ensures
            n == self.vertex_count_view(),
    {
        self.vertex_count
    }

    pub fn indices(&self) -> (s: &[u32])
        ensures
            s@ == self.indices_view(),
    {
        self.indices.as_slice()
    }

    /// Number of triangles: a third of the number of indices.
    pub fn triangle_count(&self) -> (n: usize)
        ensures
            n == self.indices_view().len() / 3,
    {
        self.indices.len() / 3
    }

    pub fn is_labeled(&self) -> (b: bool)
        ensures
            b == self.labels_view() is Some,
    {
        self.face_labels.is_some()
    }

    /// The per-triangle face labels, if the mesh has them.
    pub fn face_labels(&self) -> (r: Option<&[TopologyFaceId]>)
        ensures
            match (r, self.labels_view()) {
                (Some(s), Some(v)) => s@ == v,
                (None, None) => true,
                _ => false,
            },
            self.labels_view() matches Some(v) ==> v.len() == self.indices_view().len() / 3,
    {
        proof { use_type_invariant(self); }
        match &self.face_labels {
            Some(v) => Some(v.as_slice()),
            None => None,
        }
    }

    /// One label per triangle: the mesh's own labels, or the "no face"
    /// sentinel for every triangle of an unlabeled mesh.
    pub fn per_triangle_labels(&self) -> (v: Vec<TopologyFaceId>)
        ensures
            match self.labels_view() {
                Some(l) => v@ == l,
                None => v@ == Seq::new((self.indices_view().len() / 3) as nat, |i: int| TopologyFaceId(u64::MAX)),
            },
            v@.len() == self.indices_view().len() / 3,
    {
        proof { use_type_invariant(self); }
        match &self.face_labels {
            Some(labels) => labels.clone(),
            None => {
                let n = self.indices.len() / 3;
                let mut v: Vec<TopologyFaceId> = Vec::new();
                let mut i: usize = 0;
                while i < n
                    invariant
                        0 <= i <= n,
                        v@ == Seq::new(i as nat, |k: int| TopologyFaceId(u64::MAX)),
                    decreases n - i,
                {
                    v.push(TopologyFaceId(u64::MAX));
                    i = i + 1;
                    assert(v@ =~= Seq::new(i as nat, |k: int| TopologyFaceId(u64::MAX)));
                }
                v
            },
        }
    }

    /// Number of distinct faces the labels name, the sentinel not counted;
    /// `None` for an unlabeled mesh.
    pub fn face_count(&self) -> (r: Option<usize>)
        ensures
            match (r, self.labels_view()) {
                (Some(n), Some(v)) => n == named_faces(v).len(),
                (None, None) => true,
                _ => false,
            },
    {
        match &self.face_labels {
            None => None,
            Some(labels) => {
                let ghost l = labels@;
                let mut seen: Vec<u64> = Vec::new();
                let mut i: usize = 0;
                while i < labels.len()
                    invariant
                        0 <= i <= labels@.len(),
                        l == labels@,
                        seen@.no_duplicates(),
                        seen@.to_set() == named_faces(l.take(i as int)),
                        seen@.len() <= i,
                    decreases labels@.len() - i,
                {
                    let x = labels[i].0;
                    proof {
                        assert(l.take(i + 1).drop_last() =~= l.take(i as int));
                    }
                    let mut present = false;
                    let mut k: usize = 0;
                    while k < seen.len()
                        invariant
                            0 <= k <= seen@.len(),
                            present == (exists|j: int| 0 <= j < k && seen@[j] == x),
                        decreases seen@.len() - k,
                    {
                        if seen[k] == x {
                            present = true;
                        }
                        k = k + 1;
                    }
                    let ghost before = seen@;
                    if x != u64::MAX && !present {
                        seen.push(x);
                    }
                    proof {
                        let t = l.take(i + 1);
                        assert(t[i as int] == l[i as int]);
                        assert forall|y: u64| seen@.to_set().contains(y) == named_faces(t).contains(y) by {
                            if named_faces(t).contains(y) {
                                let w = choose|w: int| 0 <= w < t.len() && (#[trigger] t[w]).0 == y;
                                if w < i {
                                    assert(l.take(i as int)[w] == t[w]);
                                    assert(named_faces(l.take(i as int)).contains(y));
                                    assert(before.to_set().contains(y));
                                    let q = choose|q: int| 0 <= q < before.len() && before[q] == y;
                                    assert(seen@[q] == y);
                                } else {
                                    assert(y == x);
                                    if present {
                                        let q = choose|q: int| 0 <= q < before.len() && before[q] == x;
                                        assert(seen@[q] == y);
                                    } else {
                                        assert(seen@[seen@.len() - 1] == y);
                                    }
                                }
                            }
                            if seen@.to_set().contains(y) {
                                let q = choose|q: int| 0 <= q < seen@.len() && seen@[q] == y;
                                if q < before.len() {
                                    assert(before[q] == y);
                                    assert(before.to_set().contains(y));
                                    assert(named_faces(l.take(i as int)).contains(y));
                                    let w = choose|w: int| 0 <= w < l.take(i as int).len() && (#[trigger] l.take(i as int)[w]).0 == y;
                                    assert(t[w] == l.take(i as int)[w]);
                                } else {
                                    assert(y == x);
                                    assert(t[i as int].0 == y);
                                }
                            }
                        }
                        assert(seen@.to_set() =~= named_faces(t));
                    }
                    i = i + 1;
                }
                proof {
                    assert(l.take(i as int) =~= l);
                    seen@.unique_seq_to_set();
                }
                Some(seen.len())
            },
        }
    }
}

} // verus!
