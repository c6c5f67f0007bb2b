//! The combinatorial half of chamfering a box's edges: for each selected
//! edge, the two corners it joins each gain an offset replica vertex,
//! appended after the existing vertices, and two cap triangles join the
//! corners to their replicas. The replicas' positions are floating point
//! and are computed by the caller; this module decides the index buffer.

use vstd::prelude::*;

use crate::box_edges::{corner_pair, cuboid_edge_corner_indices, CuboidFaceTag};
use crate::operators::OpError;
use crate::params::{arity_result, count32};
use crate::text::{decimal, push_decimal};

verus! {

/// The two cap triangles of a chamfered edge with corners `a`, `b`, whose
/// replicas are vertices `cnt` and `cnt + 1`.
pub open spec fn cap_triangles(a: u32, b: u32, cnt: nat) -> Seq<u32> {
    seq![a, b, count32(cnt), b, count32(cnt + 1), count32(cnt)]
}

/// The index buffer after chamfering `edges` of a mesh with `n` vertices
/// and index buffer `idx`, edge by edge; `Err` with the vertex count of the
/// first edge naming a corner at or beyond the vertices present when it
/// is reached (edge `k` is reached with `n + 2k` vertices).
pub open spec fn chamfer_result(n: nat, idx: Seq<u32>, edges: Seq<(CuboidFaceTag, CuboidFaceTag)>) -> Result<
    Seq<u32>,
    nat,
>
    decreases edges.len(),
{
    if edges.len() == 0 {
        Ok(idx)
    } else {
        match chamfer_result(n, idx, edges.drop_last()) {
            Err(c) => Err(c),
            Ok(v) => {
                let cnt = n + 2 * (edges.len() - 1);
                let (a, b) = corner_pair(edges.last().0, edges.last().1);
                if a >= cnt || b >= cnt {
                    Err(cnt as nat)
                } else {
                    Ok(v + cap_triangles(a, b, cnt as nat))
                }
            },
        }
    }
}

/// The message of an upstream mesh too small for a box's corners.
pub open spec fn too_few_vertices_text(cnt: nat) -> Seq<char> {
    "FilletOp upstream tessellation has only "@ + decimal(cnt)
        + " vertices; expected at least 8 (Cuboid layout)"@
}

/// The index buffer of the chamfered mesh: `indices` followed, for each
/// edge in order, by its two cap triangles; refused when an edge's corners
/// are not among the vertices present.
pub fn chamfer_indices(vertex_count: usize, indices: &Vec<u32>, edges: &Vec<(CuboidFaceTag, CuboidFaceTag)>) -> (r:
    Result<Vec<u32>, OpError>)
    ensures
        match chamfer_result(vertex_count as nat, indices@, edges@) {
            Ok(v) => r matches Ok(w) && w@ == v,
            Err(c) => r matches Err(OpError::InvalidParameter(m)) && m@ == too_few_vertices_text(c),
        },
{
    let mut out: Vec<u32> = indices.clone();
    assert(out@ =~= indices@);
    let mut cnt: usize = vertex_count;
    let mut k: usize = 0;
    proof {
        assert(edges@.take(0) =~= Seq::<(CuboidFaceTag, CuboidFaceTag)>::empty());
    }
    while k < edges.len()
        invariant
            0 <= k <= edges@.len(),
            chamfer_result(vertex_count as nat, indices@, edges@.take(k as int)) == Ok::<Seq<u32>, nat>(out@),
            cnt as nat == (if vertex_count + 2 * k <= usize::MAX {
                vertex_count + 2 * k
            } else {
                usize::MAX as int
            }),
        decreases edges@.len() - k,
    {
        let ghost full = vertex_count + 2 * k;
        let (ta, tb) = edges[k];
        let (a, b) = cuboid_edge_corner_indices(ta, tb);
        proof {
            assert(edges@.take(k + 1).drop_last() =~= edges@.take(k as int));
            assert(edges@.take(k + 1).last() == edges@[k as int]);
        }
        if (a as usize) >= cnt || (b as usize) >= cnt {
            let mut m = String::from_str("FilletOp upstream tessellation has only ");
            push_decimal(&mut m, cnt as u64);
            m.append(" vertices; expected at least 8 (Cuboid layout)");
            proof {
                reveal_strlit("FilletOp upstream tessellation has only ");
                reveal_strlit(" vertices; expected at least 8 (Cuboid layout)");
                assert(cnt as int == full);
                lemma_chamfer_err_stays(vertex_count as nat, indices@, edges@, k as int + 1);
            }
            return Err(OpError::InvalidParameter(m));
        }
        let o = if (cnt as u64) <= (u32::MAX as u64) {
            cnt as u32
        } else {
            u32::MAX
        };
        let cnt1 = cnt.saturating_add(1);
        let o1 = if (cnt1 as u64) <= (u32::MAX as u64) {
            cnt1 as u32
        } else {
            u32::MAX
        };
        assert(o == count32(full as nat));
        assert(o1 == count32((full + 1) as nat));
        let ghost before = out@;
        out.push(a);
        out.push(b);
        out.push(o);
        out.push(b);
        out.push(o1);
        out.push(o);
        proof {
            assert(out@ =~= before + cap_triangles(a, b, full as nat));
        }
        cnt = cnt.saturating_add(2);
        k = k + 1;
    }
    proof {
        assert(edges@.take(edges@.len() as int) =~= edges@);
    }
    Ok(out)
}

proof fn lemma_chamfer_err_stays(n: nat, idx: Seq<u32>, edges: Seq<(CuboidFaceTag, CuboidFaceTag)>, j: int)
    requires
        0 < j <= edges.len(),
        chamfer_result(n, idx, edges.take(j)) is Err,
    ensures
        chamfer_result(n, idx, edges) == chamfer_result(n, idx, edges.take(j)),
    decreases edges.len() - j,
{
    if j < edges.len() {
        assert(edges.take(j + 1).drop_last() =~= edges.take(j));
        lemma_chamfer_err_stays(n, idx, edges, j + 1);
    } else {
        assert(edges.take(j) =~= edges);
    }
}

/// A chamfer takes one input, the box's mesh.
pub fn chamfer_check_inputs(got: usize) -> (r: Result<(), OpError>)
    ensures
        r == arity_result(1, got),
{
    if got != 1 {
        return Err(OpError::WrongArity { expected: 1, got });
    }
    Ok(())
}

/// The chamfered mesh is never labeled: it is rebuilt without labels.
pub fn chamfer_output_is_labeled(inputs_labeled: &[bool]) -> (b: bool)
    ensures
        !b,
{
    false
}

} // verus!
