//! Welding a polygon soup into an indexed triangle mesh: vertices with the
//! same coordinate bits become one vertex, numbered in order of first
//! appearance; each polygon is fan-triangulated from its first vertex, and
//! fan triangles that collapse onto a repeated vertex are dropped. Each kept
//! triangle carries its polygon's label. Coordinates are the bit patterns of
//! `f32` values.

use vstd::prelude::*;

use crate::mesh::buffers_check;
use crate::operators::finite_bits;

verus! {

/// A vertex: the bits of its three `f32` coordinates.
pub type Bits3 = (u32, u32, u32);

/// Why a polygon soup cannot be welded.
#[derive(Debug, PartialEq, Eq, Structural)]
pub enum WeldError {
    /// Vertex `vertex` of polygon `polygon` has a NaN or infinite coordinate.
    NonFiniteVertex { polygon: usize, vertex: usize },
    /// More distinct vertices than a `u32` index can name.
    TooManyVertices,
}

pub open spec fn finite3(v: Bits3) -> bool {
    finite_bits(v.0) && finite_bits(v.1) && finite_bits(v.2)
}

/// Position of `v` among the welded vertices.
pub open spec fn slot_of(ps: Seq<Bits3>, v: Bits3) -> int {
    choose|i: int| 0 <= i < ps.len() && ps[i] == v
}

/// Weld one more vertex of polygon `poly` (its `vi`-th).
pub open spec fn intern_step(st: Result<(Seq<Bits3>, Seq<int>), WeldError>, v: Bits3, poly: int, vi: int) -> Result<
    (Seq<Bits3>, Seq<int>),
    WeldError,
> {
    match st {
        Err(e) => Err(e),
        Ok((ps, ix)) => if !finite3(v) {
            Err(WeldError::NonFiniteVertex { polygon: poly as usize, vertex: vi as usize })
        } else if ps.contains(v) {
            Ok((ps, ix.push(slot_of(ps, v))))
        } else if ps.len() > u32::MAX {
            Err(WeldError::TooManyVertices)
        } else {
            Ok((ps.push(v), ix.push(ps.len() as int)))
        },
    }
}

/// Weld the vertices of polygon `poly` in order: the welded vertices after,
/// and the index of each of the polygon's vertices.
pub open spec fn intern_all(ps: Seq<Bits3>, vs: Seq<Bits3>, poly: int) -> Result<(Seq<Bits3>, Seq<int>), WeldError>
    decreases vs.len(),
{
    if vs.len() == 0 {
        Ok((ps, Seq::empty()))
    } else {
        intern_step(intern_all(ps, vs.drop_last(), poly), vs.last(), poly, vs.len() - 1)
    }
}

/// Fan triangle `k` of a polygon, kept only when its three corners differ.
pub open spec fn fan_kept(ix: Seq<int>, k: int) -> bool {
    ix[0] != ix[k] && ix[k] != ix[k + 1] && ix[0] != ix[k + 1]
}

/// The kept fan triangles `1..=k` of a polygon with vertex indices `ix`.
pub open spec fn fan_tris(ix: Seq<int>, k: nat) -> Seq<int>
    decreases k,
{
    if k == 0 {
        Seq::empty()
    } else if fan_kept(ix, k as int) {
        fan_tris(ix, (k - 1) as nat) + seq![ix[0], ix[k as int], ix[(k + 1) as int]]
    } else {
        fan_tris(ix, (k - 1) as nat)
    }
}

/// One label per kept fan triangle.
pub open spec fn fan_labels<M>(ix: Seq<int>, k: nat, m: M) -> Seq<M>
    decreases k,
{
    if k == 0 {
        Seq::empty()
    } else if fan_kept(ix, k as int) {
        fan_labels(ix, (k - 1) as nat, m).push(m)
    } else {
        fan_labels(ix, (k - 1) as nat, m)
    }
}

/// The welded vertices, the triangle indices and the triangle labels of a
/// polygon soup, or the first problem met. Polygons with fewer than 3
/// vertices are skipped whole.
pub open spec fn weld<M>(polys: Seq<Seq<Bits3>>, metas: Seq<M>) -> Result<(Seq<Bits3>, Seq<int>, Seq<M>), WeldError>
    decreases polys.len(),
{
    if polys.len() == 0 {
        Ok((Seq::empty(), Seq::empty(), Seq::empty()))
    } else {
        match weld(polys.drop_last(), metas.drop_last()) {
            Err(e) => Err(e),
            Ok((ps, idx, ls)) => {
                let vs = polys.last();
                if vs.len() < 3 {
                    Ok((ps, idx, ls))
                } else {
                    match intern_all(ps, vs, polys.len() - 1) {
                        Err(e) => Err(e),
                        Ok((ps2, ix)) => Ok(
                            (
                                ps2,
                                idx + fan_tris(ix, (vs.len() - 2) as nat),
                                ls + fan_labels(ix, (vs.len() - 2) as nat, metas.last()),
                            ),
                        ),
                    }
                }
            },
        }
    }
}

pub open spec fn poly_views(polys: Seq<Vec<Bits3>>) -> Seq<Seq<Bits3>> {
    polys.map_values(|v: Vec<Bits3>| v@)
}

pub open spec fn u32_ints(v: Seq<u32>) -> Seq<int> {
    v.map_values(|x: u32| x as int)
}

/// Position of `v` among the welded vertices, if it is there.
fn find_vertex(ps: &Vec<Bits3>, v: Bits3) -> (r: Option<usize>)
    ensures
        match r {
            Some(i) => i < ps@.len() && ps@[i as int] == v,
            None => !ps@.contains(v),
        },
{
    let mut i: usize = 0;
    while i < ps.len()
        invariant
            0 <= i <= ps@.len(),
            forall|j: int| 0 <= j < i ==> ps@[j] != v,
        decreases ps@.len() - i,
    {
        let p = ps[i];
        if p.0 == v.0 && p.1 == v.1 && p.2 == v.2 {
            return Some(i);
        }
        i = i + 1;
    }
    None
}

fn is_finite3(v: Bits3) -> (b: bool)
    ensures
        b == finite3(v),
{
    (v.0 & 0x7F80_0000u32 != 0x7F80_0000u32) && (v.1 & 0x7F80_0000u32 != 0x7F80_0000u32) && (v.2
        & 0x7F80_0000u32 != 0x7F80_0000u32)
}

/// Weld a polygon soup (`metas[i]` labels polygon `i`) into vertices,
/// triangle indices and triangle labels.
pub fn weld_polygons<M: Copy>(polys: &Vec<Vec<Bits3>>, metas: &Vec<M>) -> (r: Result<
    (Vec<Bits3>, Vec<u32>, Vec<M>),
    WeldError,
>)
    requires
        metas@.len() == polys@.len(),
    ensures
        match (r, weld(poly_views(polys@), metas@)) {
            (Ok((ps, idx, ls)), Ok((ps2, idx2, ls2))) => ps@ == ps2 && u32_ints(idx@) == idx2 && ls@ == ls2,
            (Err(e), Err(f)) => e == f,
            _ => false,
        },
        r matches Ok((ps, idx, ls)) ==> {
            &&& ps@.no_duplicates()
            &&& buffers_check(ps@.len(), idx@) is Ok
            &&& ls@.len() == idx@.len() / 3
        },
{
    let ghost all = poly_views(polys@);
    let mut ps: Vec<Bits3> = Vec::new();
    let mut idx: Vec<u32> = Vec::new();
    let mut ls: Vec<M> = Vec::new();
    let mut p: usize = 0;
    proof {
        assert(all.take(0) =~= Seq::<Seq<Bits3>>::empty());
        assert(metas@.take(0) =~= Seq::<M>::empty());
        assert(u32_ints(idx@) =~= Seq::<int>::empty());
    }
    while p < polys.len()
        invariant
            0 <= p <= polys@.len(),
            metas@.len() == polys@.len(),
            all == poly_views(polys@),
            weld(all.take(p as int), metas@.take(p as int)) == Ok::<(Seq<Bits3>, Seq<int>, Seq<M>), WeldError>(
                (ps@, u32_ints(idx@), ls@),
            ),
            forall|i: int| 0 <= i < u32_ints(idx@).len() ==> 0 <= #[trigger] u32_ints(idx@)[i] < ps@.len(),
            ps@.no_duplicates(),
            ps@.len() <= u32::MAX + 1,
            idx@.len() == 3 * ls@.len(),
        decreases polys@.len() - p,
    {
        let ghost pre = all.take(p as int);
        let ghost mpre = metas@.take(p as int);
        proof {
            assert(all.take(p + 1).drop_last() =~= pre);
            assert(metas@.take(p + 1).drop_last() =~= mpre);
            assert(all.take(p + 1).last() == polys@[p as int]@);
            assert(metas@.take(p + 1).last() == metas@[p as int]);
        }
        let poly = &polys[p];
        let n = poly.len();
        if n >= 3 {
            // Weld the polygon's vertices.
            let ghost ps0 = ps@;
            let mut ix: Vec<u32> = Vec::new();
            let mut k: usize = 0;
            proof {
                assert(poly@.take(0) =~= Seq::<Bits3>::empty());
                assert(u32_ints(ix@) =~= Seq::<int>::empty());
            }
            while k < n
                invariant
                    0 <= k <= n,
                    n == poly@.len(),
                    n >= 3,
                    intern_all(ps0, poly@.take(k as int), p as int) == Ok::<(Seq<Bits3>, Seq<int>), WeldError>(
                        (ps@, u32_ints(ix@)),
                    ),
                    forall|i: int| 0 <= i < u32_ints(ix@).len() ==> 0 <= #[trigger] u32_ints(ix@)[i] < ps@.len(),
                    u32_ints(ix@).len() == k,
                    ps0.len() <= ps@.len(),
                    ps0 == ps@.take(ps0.len() as int),
                    ps@.no_duplicates(),
                    ps@.len() <= u32::MAX + 1,
                    p < polys@.len(),
                    metas@.len() == polys@.len(),
                    all == poly_views(polys@),
                    poly@ == all[p as int],
                    weld(all.take(p as int), metas@.take(p as int)) == Ok::<(Seq<Bits3>, Seq<int>, Seq<M>), WeldError>(
                        (ps0, u32_ints(idx@), ls@),
                    ),
                    all.take(p + 1).drop_last() == all.take(p as int),
                    metas@.take(p + 1).drop_last() == metas@.take(p as int),
                    all.take(p + 1).last() == poly@,
                    all.take(p + 1).len() == p + 1,
                decreases n - k,
            {
                let v = poly[k];
                proof {
                    assert(poly@.take(k + 1).drop_last() =~= poly@.take(k as int));
                    assert(poly@.take(k + 1).last() == v);
                }
                if !is_finite3(v) {
                    proof {
                        lemma_intern_err_extends(ps0, poly@, p as int, (k + 1) as int);
                        lemma_poly_fails(all, metas@, p as int, ps0, u32_ints(idx@), ls@);
                    }
                    return Err(WeldError::NonFiniteVertex { polygon: p, vertex: k });
                }
                let ghost before_ix = u32_ints(ix@);
                match find_vertex(&ps, v) {
                    Some(i) => {
                        proof {
                            assert(ps@.contains(v));
                            let s = slot_of(ps@, v);
                            assert(ps@[s] == v);
                            assert(s == i);
                        }
                        ix.push(i as u32);
                        proof {
                            assert(u32_ints(ix@) =~= before_ix.push(i as int));
                        }
                    },
                    None => {
                        if ps.len() > 0xFFFF_FFFF {
                            proof {
                                lemma_intern_err_extends(ps0, poly@, p as int, (k + 1) as int);
                                lemma_poly_fails(all, metas@, p as int, ps0, u32_ints(idx@), ls@);
                            }
                            return Err(WeldError::TooManyVertices);
                        }
                        let slot = ps.len() as u32;
                        let ghost psb = ps@;
                        ps.push(v);
                        ix.push(slot);
                        proof {
                            assert(u32_ints(ix@) =~= before_ix.push(psb.len() as int));
                            assert(ps@.no_duplicates()) by {
                                assert forall|a: int, b: int| 0 <= a < ps@.len() && 0 <= b < ps@.len() && a != b implies ps@[a] != ps@[b] by {
                                    if a < psb.len() && b < psb.len() {
                                        assert(psb[a] != psb[b]);
                                    } else if a < psb.len() {
                                        assert(psb.contains(psb[a]));
                                    } else {
                                        assert(psb.contains(psb[b]));
                                    }
                                }
                            }
                            assert(ps0 == ps@.take(ps0.len() as int)) by {
                                assert(ps@.take(ps0.len() as int) =~= psb.take(ps0.len() as int));
                            }
                        }
                    },
                }
                k = k + 1;
            }
            proof {
                assert(poly@.take(n as int) =~= poly@);
            }
            // Fan-triangulate from the first vertex.
            let m = metas[p];
            let ghost ixs = u32_ints(ix@);
            let ghost idx0 = u32_ints(idx@);
            let ghost ls0 = ls@;
            let mut t: usize = 1;
            proof {
                assert(idx0 + fan_tris(ixs, 0) =~= idx0);
                assert(ls0 + fan_labels(ixs, 0, m) =~= ls0);
            }
            while t < n - 1
                invariant
                    1 <= t <= n - 1,
                    n >= 3,
                    ix@.len() == n,
                    ixs == u32_ints(ix@),
                    u32_ints(idx@) == idx0 + fan_tris(ixs, (t - 1) as nat),
                    ls@ == ls0 + fan_labels(ixs, (t - 1) as nat, m),
                    forall|i: int| 0 <= i < ixs.len() ==> 0 <= #[trigger] ixs[i] < ps@.len(),
                    forall|i: int| 0 <= i < u32_ints(idx@).len() ==> 0 <= #[trigger] u32_ints(idx@)[i] < ps@.len(),
                    idx@.len() == 3 * ls@.len(),
                decreases n - 1 - t,
            {
                let i0 = ix[0];
                let i1 = ix[t];
                let i2 = ix[t + 1];
                assert(ixs[0] == i0 && ixs[t as int] == i1 && ixs[t + 1] == i2);
                if !(i0 == i1 || i1 == i2 || i0 == i2) {
                    let ghost b = u32_ints(idx@);
                    idx.push(i0);
                    idx.push(i1);
                    idx.push(i2);
                    ls.push(m);
                    proof {
                        assert(u32_ints(idx@) =~= b + seq![i0 as int, i1 as int, i2 as int]);
                        assert(u32_ints(idx@) =~= idx0 + fan_tris(ixs, t as nat));
                        assert(ls@ =~= ls0 + fan_labels(ixs, t as nat, m));
                    }
                } else {
                    proof {
                        assert(fan_tris(ixs, t as nat) == fan_tris(ixs, (t - 1) as nat));
                        assert(fan_labels(ixs, t as nat, m) == fan_labels(ixs, (t - 1) as nat, m));
                    }
                }
                t = t + 1;
            }
            proof {
                assert(forall|i: int| 0 <= i < idx0.len() ==> 0 <= #[trigger] idx0[i] < ps0.len());
            }
        }
        p = p + 1;
    }
    proof {
        assert(all.take(p as int) =~= all);
        assert(metas@.take(p as int) =~= metas@);
        assert forall|i: int| 0 <= i < idx@.len() implies #[trigger] idx@[i] < ps@.len() by {
            assert(u32_ints(idx@)[i] == idx@[i] as int);
        }
    }
    Ok((ps, idx, ls))
}

proof fn lemma_intern_err_extends(ps: Seq<Bits3>, vs: Seq<Bits3>, poly: int, j: int)
    requires
        0 <= j <= vs.len(),
        intern_all(ps, vs.take(j), poly) is Err,
    ensures
        intern_all(ps, vs, poly) == intern_all(ps, vs.take(j), poly),
    decreases vs.len() - j,
{
    if j < vs.len() {
        assert(vs.drop_last().take(j) =~= vs.take(j));
        lemma_intern_err_extends(ps, vs.drop_last(), poly, j);
    } else {
        assert(vs.take(j) =~= vs);
    }
}

/// A polygon whose vertices fail to weld makes the whole soup fail with
/// that error.
proof fn lemma_poly_fails<M>(
    all: Seq<Seq<Bits3>>,
    metas: Seq<M>,
    p: int,
    ps0: Seq<Bits3>,
    idx0: Seq<int>,
    ls0: Seq<M>,
)
    requires
        0 <= p < all.len(),
        metas.len() == all.len(),
        all[p].len() >= 3,
        weld(all.take(p), metas.take(p)) == Ok::<(Seq<Bits3>, Seq<int>, Seq<M>), WeldError>((ps0, idx0, ls0)),
        intern_all(ps0, all[p], p) is Err,
    ensures
        weld(all, metas) == Err::<(Seq<Bits3>, Seq<int>, Seq<M>), WeldError>(intern_all(ps0, all[p], p)->Err_0),
{
    let wp = all.take(p + 1);
    let wm = metas.take(p + 1);
    assert(wp.drop_last() =~= all.take(p));
    assert(wm.drop_last() =~= metas.take(p));
    assert(wp.last() == all[p]);
    assert(weld(wp, wm) == Err::<(Seq<Bits3>, Seq<int>, Seq<M>), WeldError>(intern_all(ps0, all[p], p)->Err_0));
    lemma_weld_err_extends(all, metas, p + 1);
}

proof fn lemma_weld_err_extends<M>(polys: Seq<Seq<Bits3>>, metas: Seq<M>, j: int)
    requires
        0 <= j <= polys.len(),
        metas.len() == polys.len(),
        weld(polys.take(j), metas.take(j)) is Err,
    ensures
        weld(polys, metas) == weld(polys.take(j), metas.take(j)),
    decreases polys.len() - j,
{
    if j < polys.len() {
        assert(polys.drop_last().take(j) =~= polys.take(j));
        assert(metas.drop_last().take(j) =~= metas.take(j));
        lemma_weld_err_extends(polys.drop_last(), metas.drop_last(), j);
    } else {
        assert(polys.take(j) =~= polys);
        assert(metas.take(j) =~= metas);
    }
}

/// The fan of a polygon whose `k` vertices were welded to the fresh
/// indices `b .. b + k`: triangles `(b, b + i, b + i + 1)` for `i` in
/// `1 .. k - 1`, in order.
pub open spec fn fresh_fan(b: int, k: nat) -> Seq<int> {
    Seq::new(
        (3 * (k - 2)) as nat,
        |j: int|
            if j % 3 == 0 {
                b
            } else if j % 3 == 1 {
                b + j / 3 + 1
            } else {
                b + j / 3 + 2
            },
    )
}

proof fn lemma_intern_fresh(ps: Seq<Bits3>, vs: Seq<Bits3>, poly: int)
    requires
        vs.no_duplicates(),
        forall|i: int| 0 <= i < vs.len() ==> finite3(#[trigger] vs[i]),
        forall|i: int| 0 <= i < vs.len() ==> !ps.contains(#[trigger] vs[i]),
        ps.len() + vs.len() <= u32::MAX + 1,
    ensures
        intern_all(ps, vs, poly) == Ok::<(Seq<Bits3>, Seq<int>), WeldError>(
            (ps + vs, Seq::new(vs.len(), |i: int| ps.len() + i)),
        ),
    decreases vs.len(),
{
    if vs.len() == 0 {
        assert(ps + vs =~= ps);
        assert(Seq::new(vs.len(), |i: int| ps.len() + i) =~= Seq::<int>::empty());
    } else {
        let k = vs.len();
        let vp = vs.drop_last();
        assert forall|i: int| 0 <= i < vp.len() implies finite3(#[trigger] vp[i]) && !ps.contains(vp[i]) by {
            assert(vp[i] == vs[i]);
        }
        assert(vp.no_duplicates()) by {
            assert forall|a: int, b: int| 0 <= a < vp.len() && 0 <= b < vp.len() && a != b implies vp[a] != vp[b] by {
                assert(vp[a] == vs[a] && vp[b] == vs[b]);
            }
        }
        lemma_intern_fresh(ps, vp, poly);
        let q = ps + vp;
        let v = vs.last();
        assert(finite3(vs[k - 1]));
        assert(!q.contains(v)) by {
            if q.contains(v) {
                let i = choose|i: int| 0 <= i < q.len() && q[i] == v;
                if i < ps.len() {
                    assert(ps[i] == v);
                    assert(!ps.contains(vs[k - 1]));
                } else {
                    assert(vp[i - ps.len()] == vs[i - ps.len()]);
                    assert(vs[i - ps.len()] == vs[k - 1]);
                }
            }
        }
        assert(q.push(v) =~= ps + vs);
        assert(Seq::new(vp.len(), |i: int| ps.len() + i).push(q.len() as int) =~= Seq::new(vs.len(), |i: int| ps.len() + i));
    }
}

proof fn lemma_fan_fresh<M>(ix: Seq<int>, b: int, k: nat, m: M)
    requires
        ix.len() >= k + 2,
        forall|i: int| 0 <= i < ix.len() ==> #[trigger] ix[i] == b + i,
    ensures
        fan_tris(ix, k) == fresh_fan(b, k + 2),
        fan_labels(ix, k, m) == Seq::new(k, |i: int| m),
    decreases k,
{
    if k == 0 {
        assert(fresh_fan(b, 2) =~= Seq::<int>::empty());
        assert(Seq::new(0, |i: int| m) =~= Seq::<M>::empty());
    } else {
        lemma_fan_fresh(ix, b, (k - 1) as nat, m);
        assert(ix[0] == b && ix[k as int] == b + k && ix[(k + 1) as int] == b + k + 1);
        assert(fan_kept(ix, k as int));
        let prev = fresh_fan(b, (k + 1) as nat);
        let cur = fresh_fan(b, k + 2);
        assert forall|j: int| 0 <= j < cur.len() implies #[trigger] cur[j] == (prev + seq![b, b + k, b + k + 1])[j] by {
            if j < prev.len() {
                assert(cur[j] == prev[j]);
            } else {
                let t = j - prev.len();
                assert(j / 3 == k - 1);
                assert(j % 3 == t);
            }
        }
        assert(cur =~= prev + seq![b, b + k, b + k + 1]);
        assert(Seq::new(k, |i: int| m) =~= Seq::new((k - 1) as nat, |i: int| m).push(m));
    }
}

/// Welding one more polygon whose `k >= 3` vertices are finite, pairwise
/// distinct and not welded yet: its vertices are appended as they come,
/// taking the indices `b .. b + k` (`b` the number welded before), and
/// exactly its `k - 2` fan triangles `(b, b + i, b + i + 1)`,
/// `1 <= i <= k - 2`, are appended, each with the polygon's label; what
/// was welded before is left as it was.
pub proof fn law_weld_fresh_polygon<M>(
    polys: Seq<Seq<Bits3>>,
    metas: Seq<M>,
    vs: Seq<Bits3>,
    m: M,
    ps: Seq<Bits3>,
    idx: Seq<int>,
    ls: Seq<M>,
)
    requires
        polys.len() == metas.len(),
        weld(polys, metas) == Ok::<(Seq<Bits3>, Seq<int>, Seq<M>), WeldError>((ps, idx, ls)),
        vs.len() >= 3,
        vs.no_duplicates(),
        forall|i: int| 0 <= i < vs.len() ==> finite3(#[trigger] vs[i]),
        forall|i: int| 0 <= i < vs.len() ==> !ps.contains(#[trigger] vs[i]),
        ps.len() + vs.len() <= u32::MAX + 1,
    ensures
        weld(polys.push(vs), metas.push(m)) == Ok::<(Seq<Bits3>, Seq<int>, Seq<M>), WeldError>(
            (ps + vs, idx + fresh_fan(ps.len() as int, vs.len()), ls + Seq::new((vs.len() - 2) as nat, |i: int| m)),
        ),
{
    let pp = polys.push(vs);
    let mp = metas.push(m);
    assert(pp.drop_last() =~= polys);
    assert(mp.drop_last() =~= metas);
    assert(pp.last() == vs);
    assert(mp.last() == m);
    lemma_intern_fresh(ps, vs, pp.len() - 1);
    let ix = Seq::new(vs.len(), |i: int| ps.len() + i);
    lemma_fan_fresh(ix, ps.len() as int, (vs.len() - 2) as nat, m);
}

/// Every triangle of an index buffer has three different corners.
pub open spec fn nondegenerate(idx: Seq<int>) -> bool {
    &&& idx.len() % 3 == 0
    &&& forall|t: int|
        0 <= t < idx.len() / 3 ==> #[trigger] idx[3 * t] != idx[3 * t + 1] && idx[3 * t + 1] != idx[3 * t + 2] && idx[3
            * t] != idx[3 * t + 2]
}

proof fn lemma_nondegenerate_concat(a: Seq<int>, b: Seq<int>)
    requires
        nondegenerate(a),
        nondegenerate(b),
    ensures
        nondegenerate(a + b),
{
    let c = a + b;
    assert forall|t: int| 0 <= t < c.len() / 3 implies #[trigger] c[3 * t] != c[3 * t + 1] && c[3 * t + 1] != c[3 * t + 2] && c[3 * t] != c[3 * t + 2] by {
        if t < a.len() / 3 {
            assert(c[3 * t] == a[3 * t] && c[3 * t + 1] == a[3 * t + 1] && c[3 * t + 2] == a[3 * t + 2]);
        } else {
            let u = t - a.len() / 3;
            assert(3 * t == a.len() + 3 * u);
            assert(c[3 * t] == b[3 * u] && c[3 * t + 1] == b[3 * u + 1] && c[3 * t + 2] == b[3 * u + 2]);
        }
    }
}

proof fn lemma_fan_nondegenerate<M>(ix: Seq<int>, k: nat, m: M)
    requires
        ix.len() >= k + 2,
    ensures
        nondegenerate(fan_tris(ix, k)),
        fan_labels(ix, k, m).len() * 3 == fan_tris(ix, k).len(),
    decreases k,
{
    if k > 0 {
        lemma_fan_nondegenerate(ix, (k - 1) as nat, m);
        if fan_kept(ix, k as int) {
            let tri = seq![ix[0], ix[k as int], ix[(k + 1) as int]];
            assert(nondegenerate(tri)) by {
                assert forall|t: int| 0 <= t < tri.len() / 3 implies #[trigger] tri[3 * t] != tri[3 * t + 1] && tri[3 * t + 1] != tri[3 * t + 2] && tri[3 * t] != tri[3 * t + 2] by {
                    assert(t == 0);
                }
            }
            lemma_nondegenerate_concat(fan_tris(ix, (k - 1) as nat), tri);
        }
    } else {
        assert(fan_tris(ix, 0) =~= Seq::<int>::empty());
    }
}

/// No welded triangle is degenerate: every emitted triangle has three
/// different corners, and there is one label per triangle.
pub proof fn law_weld_nondegenerate<M>(polys: Seq<Seq<Bits3>>, metas: Seq<M>)
    requires
        polys.len() == metas.len(),
        weld(polys, metas) is Ok,
    ensures
        nondegenerate(weld(polys, metas)->Ok_0.1),
        weld(polys, metas)->Ok_0.2.len() * 3 == weld(polys, metas)->Ok_0.1.len(),
    decreases polys.len(),
{
    if polys.len() == 0 {
        assert(nondegenerate(Seq::<int>::empty()));
    } else {
        let pp = polys.drop_last();
        let mp = metas.drop_last();
        law_weld_nondegenerate(pp, mp);
        let (ps, idx, ls) = weld(pp, mp)->Ok_0;
        let vs = polys.last();
        if vs.len() >= 3 {
            let (ps2, ix) = intern_all(ps, vs, polys.len() - 1)->Ok_0;
            lemma_intern_len(ps, vs, polys.len() - 1);
            lemma_fan_nondegenerate(ix, (vs.len() - 2) as nat, metas.last());
            lemma_nondegenerate_concat(idx, fan_tris(ix, (vs.len() - 2) as nat));
        }
    }
}

proof fn lemma_intern_len(ps: Seq<Bits3>, vs: Seq<Bits3>, poly: int)
    requires
        intern_all(ps, vs, poly) is Ok,
    ensures
        intern_all(ps, vs, poly)->Ok_0.1.len() == vs.len(),
    decreases vs.len(),
{
    if vs.len() > 0 {
        lemma_intern_len(ps, vs.drop_last(), poly);
    }
}

} // verus!
