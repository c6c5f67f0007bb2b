//! Index buffers of ring-structured meshes. Extruded and swept prisms and
//! solids of revolution all lay their vertices out as rings of `n` profile
//! points, ring `r` holding vertices `r * n .. (r + 1) * n`; their triangles
//! are fans over the first and last rings (the caps) and bands of quads
//! joining consecutive rings (the walls). Only the vertex coordinates are
//! left to the caller.

use vstd::prelude::*;

use crate::mesh::{buffers_check, TopologyFaceId};

verus! {

/// Bottom-cap fan over ring 0, facing down: `(0, i + 1, i)` for
/// `i` in `1..=k`.
pub open spec fn fan_down(k: nat) -> Seq<int>
    decreases k,
{
    if k == 0 {
        Seq::empty()
    } else {
        fan_down((k - 1) as nat) + seq![0int, (k + 1) as int, k as int]
    }
}

/// Top-cap fan over the ring starting at `base`, facing up:
/// `(base, base + i, base + i + 1)` for `i` in `1..=k`.
pub open spec fn fan_up(base: int, k: nat) -> Seq<int>
    decreases k,
{
    if k == 0 {
        Seq::empty()
    } else {
        fan_up(base, (k - 1) as nat) + seq![base, base + k, base + k + 1]
    }
}

/// The quad joining profile edge `e` of ring `r` to the same edge of ring
/// `nr`, split along its diagonal into two triangles.
pub open spec fn quad(n: int, r: int, nr: int, e: int) -> Seq<int> {
    let e1 = (e + 1) % n;
    seq![r * n + e, r * n + e1, nr * n + e1, r * n + e, nr * n + e1, nr * n + e]
}

/// The quads of edges `0..k` joining ring `r` to ring `nr`.
pub open spec fn band(n: int, r: int, nr: int, k: nat) -> Seq<int>
    decreases k,
{
    if k == 0 {
        Seq::empty()
    } else {
        band(n, r, nr, (k - 1) as nat) + quad(n, r, nr, k - 1)
    }
}

/// Bands joining ring `r` to ring `r + 1`, for `r` in `0..k`.
pub open spec fn open_bands(n: int, k: nat) -> Seq<int>
    decreases k,
{
    if k == 0 {
        Seq::empty()
    } else {
        open_bands(n, (k - 1) as nat) + band(n, k - 1, k as int, n as nat)
    }
}

/// Bands joining ring `r` to ring `(r + 1) % segs`, for `r` in `0..k`.
pub open spec fn closed_bands(n: int, segs: int, k: nat) -> Seq<int>
    decreases k,
{
    if k == 0 {
        Seq::empty()
    } else {
        closed_bands(n, segs, (k - 1) as nat) + band(n, k - 1, (k as int) % segs, n as nat)
    }
}

/// Labels of a closed revolution: both triangles of a quad on edge `e`
/// carry face `e`, rings `0..k` in order.
pub open spec fn edge_labels(n: nat, e: nat) -> Seq<u64>
    decreases e,
{
    if e == 0 {
        Seq::empty()
    } else {
        edge_labels(n, (e - 1) as nat) + seq![(e - 1) as u64, (e - 1) as u64]
    }
}

pub open spec fn ring_labels(n: nat, k: nat) -> Seq<u64>
    decreases k,
{
    if k == 0 {
        Seq::empty()
    } else {
        ring_labels(n, (k - 1) as nat) + edge_labels(n, n)
    }
}

/// Index buffer of a profile of `n` points swept through `m` rings:
/// bottom cap, top cap, then the walls between consecutive rings.
pub open spec fn sweep_spec(n: nat, m: nat) -> Seq<int> {
    fan_down((n - 2) as nat) + fan_up((m - 1) * n, (n - 2) as nat) + open_bands(n as int, (m - 1) as nat)
}

/// Index buffer of a partial revolution in `s` segments (`s + 1` rings):
/// the walls, then the start cap and the end cap.
pub open spec fn revolve_partial_spec(n: nat, s: nat) -> Seq<int> {
    open_bands(n as int, s) + fan_down((n - 2) as nat) + fan_up((s * n) as int, (n - 2) as nat)
}

/// Index buffer of a full revolution in `s` segments (`s` rings, the last
/// joined back to the first); no caps.
pub open spec fn revolve_full_spec(n: nat, s: nat) -> Seq<int> {
    closed_bands(n as int, s as int, s)
}

pub open spec fn ints(v: Seq<u32>) -> Seq<int> {
    v.map_values(|x: u32| x as int)
}

/// Every index is below `bound`.
pub open spec fn all_below(s: Seq<int>, bound: int) -> bool {
    forall|i: int| 0 <= i < s.len() ==> 0 <= #[trigger] s[i] < bound
}

proof fn lemma_ints_push(v: Seq<u32>, x: u32)
    ensures
        ints(v.push(x)) == ints(v).push(x as int),
{
    assert(ints(v.push(x)) =~= ints(v).push(x as int));
}

proof fn lemma_all_below_concat(a: Seq<int>, b: Seq<int>, bound: int)
    requires
        all_below(a, bound),
        all_below(b, bound),
    ensures
        all_below(a + b, bound),
{
    assert forall|i: int| 0 <= i < (a + b).len() implies 0 <= #[trigger] (a + b)[i] < bound by {
        if i < a.len() {
            assert((a + b)[i] == a[i]);
        } else {
            assert((a + b)[i] == b[i - a.len()]);
        }
    }
}

proof fn lemma_fan_down(k: nat)
    ensures
        fan_down(k).len() == 3 * k,
        all_below(fan_down(k), (k + 2) as int),
    decreases k,
{
    if k > 0 {
        lemma_fan_down((k - 1) as nat);
        lemma_all_below_concat(fan_down((k - 1) as nat), seq![0int, (k + 1) as int, k as int], (k + 2) as int);
    }
}

proof fn lemma_fan_up(base: int, k: nat)
    requires
        base >= 0,
    ensures
        fan_up(base, k).len() == 3 * k,
        all_below(fan_up(base, k), base + k + 2),
    decreases k,
{
    if k > 0 {
        lemma_fan_up(base, (k - 1) as nat);
        lemma_all_below_concat(fan_up(base, (k - 1) as nat), seq![base, base + k, base + k + 1], base + k + 2);
    }
}

proof fn lemma_ring_vertex(n: int, r: int, e: int, rings: int)
    requires
        0 <= r < rings,
        0 <= e < n,
    ensures
        0 <= r * n + e < rings * n,
{
    assert(0 <= r * n) by (nonlinear_arith)
        requires
            0 <= r,
            0 < n,
    ;
    assert(r * n + n <= rings * n) by (nonlinear_arith)
        requires
            r + 1 <= rings,
            0 < n,
    ;
}

proof fn lemma_band(n: int, r: int, nr: int, k: nat, rings: int)
    requires
        n >= 1,
        k <= n,
        0 <= r < rings,
        0 <= nr < rings,
    ensures
        band(n, r, nr, k).len() == 6 * k,
        all_below(band(n, r, nr, k), rings * n),
    decreases k,
{
    if k > 0 {
        lemma_band(n, r, nr, (k - 1) as nat, rings);
        let e = k - 1;
        let e1 = (e + 1) % n;
        lemma_ring_vertex(n, r, e, rings);
        lemma_ring_vertex(n, r, e1, rings);
        lemma_ring_vertex(n, nr, e1, rings);
        lemma_ring_vertex(n, nr, e, rings);
        lemma_all_below_concat(band(n, r, nr, (k - 1) as nat), quad(n, r, nr, e), rings * n);
    }
}

proof fn lemma_open_bands(n: int, k: nat, rings: int)
    requires
        n >= 1,
        k < rings,
    ensures
        open_bands(n, k).len() == 6 * n * k,
        all_below(open_bands(n, k), rings * n),
    decreases k,
{
    if k > 0 {
        lemma_open_bands(n, (k - 1) as nat, rings);
        lemma_band(n, k - 1, k as int, n as nat, rings);
        lemma_all_below_concat(open_bands(n, (k - 1) as nat), band(n, k - 1, k as int, n as nat), rings * n);
        assert(6 * n * (k - 1) + 6 * n == 6 * n * k) by (nonlinear_arith);
    } else {
        assert(6 * n * k == 0) by (nonlinear_arith)
            requires
                k == 0,
        ;
    }
}

proof fn lemma_closed_bands(n: int, segs: int, k: nat)
    requires
        n >= 1,
        segs >= 1,
        k <= segs,
    ensures
        closed_bands(n, segs, k).len() == 6 * n * k,
        all_below(closed_bands(n, segs, k), segs * n),
    decreases k,
{
    if k > 0 {
        lemma_closed_bands(n, segs, (k - 1) as nat);
        lemma_band(n, k - 1, (k as int) % segs, n as nat, segs);
        lemma_all_below_concat(closed_bands(n, segs, (k - 1) as nat), band(n, k - 1, (k as int) % segs, n as nat), segs * n);
        assert(6 * n * (k - 1) + 6 * n == 6 * n * k) by (nonlinear_arith);
    } else {
        assert(6 * n * k == 0) by (nonlinear_arith)
            requires
                k == 0,
        ;
    }
}

proof fn lemma_ring_labels(n: nat, k: nat)
    ensures
        ring_labels(n, k).len() == 2 * n * k,
        forall|i: int| 0 <= i < ring_labels(n, k).len() ==> (#[trigger] ring_labels(n, k)[i]) < n,
    decreases k,
{
    if k > 0 {
        lemma_ring_labels(n, (k - 1) as nat);
        lemma_edge_labels(n, n);
        let a = ring_labels(n, (k - 1) as nat);
        let b = edge_labels(n, n);
        assert forall|i: int| 0 <= i < (a + b).len() implies (#[trigger] (a + b)[i]) < n by {
            if i < a.len() {
                assert((a + b)[i] == a[i]);
            } else {
                assert((a + b)[i] == b[i - a.len()]);
            }
        }
        assert(2 * n * (k - 1) + 2 * n == 2 * n * k) by (nonlinear_arith);
    } else {
        assert(2 * n * k == 0) by (nonlinear_arith)
            requires
                k == 0,
        ;
    }
}

proof fn lemma_edge_labels(n: nat, e: nat)
    requires
        e <= n,
    ensures
        edge_labels(n, e).len() == 2 * e,
        forall|i: int| 0 <= i < edge_labels(n, e).len() ==> (#[trigger] edge_labels(n, e)[i]) < n,
    decreases e,
{
    if e > 0 {
        lemma_edge_labels(n, (e - 1) as nat);
        let a = edge_labels(n, (e - 1) as nat);
        let b = seq![(e - 1) as u64, (e - 1) as u64];
        assert forall|i: int| 0 <= i < (a + b).len() implies (#[trigger] (a + b)[i]) < n by {
            if i < a.len() {
                assert((a + b)[i] == a[i]);
            } else {
                assert((a + b)[i] == b[i - a.len()]);
            }
        }
    }
}

fn push3(v: &mut Vec<u32>, a: u32, b: u32, c: u32)
    ensures
        ints(final(v)@) == ints(old(v)@) + seq![a as int, b as int, c as int],
{
    let ghost v0 = v@;
    v.push(a);
    v.push(b);
    v.push(c);
    proof {
        lemma_ints_push(v0, a);
        lemma_ints_push(v0.push(a), b);
        lemma_ints_push(v0.push(a).push(b), c);
        assert(ints(v0).push(a as int).push(b as int).push(c as int) =~= ints(v0) + seq![a as int, b as int, c as int]);
    }
}

/// Append the downward fan over ring 0 of an `n`-point profile.
fn push_fan_down(v: &mut Vec<u32>, n: u32)
    requires
        n >= 3,
    ensures
        ints(final(v)@) == ints(old(v)@) + fan_down((n - 2) as nat),
{
    let ghost v0 = ints(v@);
    let mut i: u32 = 1;
    while i < n - 1
        invariant
            1 <= i <= n - 1,
            n >= 3,
            ints(v@) == v0 + fan_down((i - 1) as nat),
        decreases n - 1 - i,
    {
        let ghost before = ints(v@);
        push3(v, 0, i + 1, i);
        proof {
            assert(fan_down(i as nat) == fan_down((i - 1) as nat) + seq![0, i + 1, i as int]);
            assert(ints(v@) =~= v0 + fan_down(i as nat));
        }
        i = i + 1;
    }
}

/// Append the upward fan over the ring starting at `base`.
fn push_fan_up(v: &mut Vec<u32>, base: u32, n: u32)
    requires
        n >= 3,
        base + n <= u32::MAX + 1,
    ensures
        ints(final(v)@) == ints(old(v)@) + fan_up(base as int, (n - 2) as nat),
{
    let ghost v0 = ints(v@);
    let mut i: u32 = 1;
    while i < n - 1
        invariant
            1 <= i <= n - 1,
            n >= 3,
            base + n <= u32::MAX + 1,
            ints(v@) == v0 + fan_up(base as int, (i - 1) as nat),
        decreases n - 1 - i,
    {
        push3(v, base, base + i, base + i + 1);
        proof {
            assert(fan_up(base as int, i as nat) == fan_up(base as int, (i - 1) as nat) + seq![base as int, base + i, base + i + 1]);
            assert(ints(v@) =~= v0 + fan_up(base as int, i as nat));
        }
        i = i + 1;
    }
}

/// Append the band of quads joining ring `r` to ring `nr`.
fn push_band(v: &mut Vec<u32>, n: u32, r: u32, nr: u32, rings: u32)
    requires
        n >= 1,
        r < rings,
        nr < rings,
        rings * n <= u32::MAX + 1,
    ensures
        ints(final(v)@) == ints(old(v)@) + band(n as int, r as int, nr as int, n as nat),
{
    let ghost v0 = ints(v@);
    proof {
        lemma_ring_vertex(n as int, r as int, 0, rings as int);
        lemma_ring_vertex(n as int, nr as int, 0, rings as int);
    }
    let bot = r * n;
    let top = nr * n;
    let mut e: u32 = 0;
    while e < n
        invariant
            0 <= e <= n,
            n >= 1,
            r < rings,
            nr < rings,
            rings * n <= u32::MAX + 1,
            bot == r * n,
            top == nr * n,
            ints(v@) == v0 + band(n as int, r as int, nr as int, e as nat),
        decreases n - e,
    {
        let e1 = (e + 1) % n;
        proof {
            lemma_ring_vertex(n as int, r as int, e as int, rings as int);
            lemma_ring_vertex(n as int, r as int, e1 as int, rings as int);
            lemma_ring_vertex(n as int, nr as int, e1 as int, rings as int);
            lemma_ring_vertex(n as int, nr as int, e as int, rings as int);
        }
        let ghost before = ints(v@);
        push3(v, bot + e, bot + e1, top + e1);
        push3(v, bot + e, top + e1, top + e);
        proof {
            let q = quad(n as int, r as int, nr as int, e as int);
            assert(seq![(bot + e) as int, (bot + e1) as int, (top + e1) as int] + seq![(bot + e) as int, (top + e1) as int, (top + e) as int] =~= q);
            assert(band(n as int, r as int, nr as int, (e + 1) as nat) == band(n as int, r as int, nr as int, e as nat) + q);
            assert(ints(v@) =~= v0 + band(n as int, r as int, nr as int, (e + 1) as nat));
        }
        e = e + 1;
    }
}

/// Index buffer of an `n`-point profile swept through `rings` rings (an
/// extrusion is the sweep through 2 rings): the downward cap over the
/// first ring, the upward cap over the last, then the walls joining each
/// ring to the next. Every index names one of the `n * rings` vertices.
pub fn sweep_indices(n: u32, rings: u32) -> (v: Vec<u32>)
    requires
        n >= 3,
        rings >= 2,
        n * rings <= u32::MAX,
    ensures
        ints(v@) == sweep_spec(n as nat, rings as nat),
        v@.len() == 3 * (2 * (n - 2) + 2 * n * (rings - 1)),
        buffers_check((n * rings) as nat, v@) is Ok,
{
    let mut v: Vec<u32> = Vec::new();
    proof {
        assert(ints(v@) =~= Seq::<int>::empty());
        assert(rings * n == n * rings) by (nonlinear_arith);
        lemma_ring_vertex(n as int, (rings - 1) as int, 0, rings as int);
    }
    push_fan_down(&mut v, n);
    let last = (rings - 1) * n;
    assert(last + n <= u32::MAX + 1) by (nonlinear_arith)
        requires
            last == (rings - 1) * n,
            n * rings <= u32::MAX,
    ;
    push_fan_up(&mut v, last, n);
    let ghost caps = ints(v@);
    let mut k: u32 = 0;
    while k < rings - 1
        invariant
            0 <= k <= rings - 1,
            n >= 3,
            rings >= 2,
            rings * n <= u32::MAX + 1,
            ints(v@) == caps + open_bands(n as int, k as nat),
        decreases rings - 1 - k,
    {
        push_band(&mut v, n, k, k + 1, rings);
        proof {
            assert(open_bands(n as int, (k + 1) as nat) == open_bands(n as int, k as nat) + band(n as int, k as int, (k + 1) as int, n as nat));
            assert(ints(v@) =~= caps + open_bands(n as int, (k + 1) as nat));
        }
        k = k + 1;
    }
    proof {
        let s = sweep_spec(n as nat, rings as nat);
        assert(ints(v@) =~= s);
        lemma_sweep_bounds(n as nat, rings as nat);
        lemma_buffers_ok(v@, (n * rings) as nat);
    }
    v
}

proof fn lemma_sweep_bounds(n: nat, m: nat)
    requires
        n >= 3,
        m >= 2,
    ensures
        sweep_spec(n, m).len() == 3 * (2 * (n - 2) + 2 * n * (m - 1)),
        all_below(sweep_spec(n, m), (n * m) as int),
{
    lemma_fan_down((n - 2) as nat);
    assert((m - 1) * n >= 0) by (nonlinear_arith)
        requires
            m >= 1,
    ;
    lemma_fan_up((m - 1) * n, (n - 2) as nat);
    lemma_open_bands(n as int, (m - 1) as nat, m as int);
    assert((m - 1) * n + n == n * m) by (nonlinear_arith);
    assert(m * n == n * m) by (nonlinear_arith);
    assert(n <= n * m) by (nonlinear_arith)
        requires
            m >= 1,
    ;
    let a = fan_down((n - 2) as nat);
    let b = fan_up((m - 1) * n, (n - 2) as nat);
    let c = open_bands(n as int, (m - 1) as nat);
    assert(all_below(a, (n * m) as int));
    assert(all_below(b, (n * m) as int));
    lemma_all_below_concat(a, b, (n * m) as int);
    lemma_all_below_concat(a + b, c, (n * m) as int);
    assert(3 * (n - 2) + 3 * (n - 2) + 6 * n * (m - 1) == 3 * (2 * (n - 2) + 2 * n * (m - 1))) by (nonlinear_arith);
}

/// A buffer of indices all below `n`, with a length that is a multiple of
/// 3, passes the buffer check against `n` vertices.
proof fn lemma_buffers_ok(v: Seq<u32>, n: nat)
    requires
        all_below(ints(v), n as int),
        v.len() % 3 == 0,
    ensures
        buffers_check(n, v) is Ok,
{
    assert forall|i: int| 0 <= i < v.len() implies #[trigger] v[i] < n by {
        assert(ints(v)[i] == v[i] as int);
    }
}

/// Index buffer of a partial revolution of an `n`-point profile in
/// `segments` steps, so `segments + 1` rings: the walls joining each ring
/// to the next, then the start cap over the first ring and the end cap over
/// the last. Every index names one of the `n * (segments + 1)` vertices.
pub fn revolve_partial_indices(n: u32, segments: u32) -> (v: Vec<u32>)
    requires
        n >= 3,
        segments >= 1,
        n * (segments + 1) <= u32::MAX,
    ensures
        ints(v@) == revolve_partial_spec(n as nat, segments as nat),
        v@.len() == 3 * (2 * n * segments + 2 * (n - 2)),
        buffers_check((n * (segments + 1)) as nat, v@) is Ok,
{
    assert(segments + 1 <= n * (segments + 1)) by (nonlinear_arith)
        requires
            n >= 3,
    ;
    let rings: u32 = segments + 1;
    let mut v: Vec<u32> = Vec::new();
    proof {
        assert(ints(v@) =~= Seq::<int>::empty());
        assert(rings * n == n * rings) by (nonlinear_arith);
    }
    let mut k: u32 = 0;
    while k < segments
        invariant
            0 <= k <= segments,
            rings == segments + 1,
            n >= 3,
            rings * n <= u32::MAX + 1,
            ints(v@) == open_bands(n as int, k as nat),
        decreases segments - k,
    {
        push_band(&mut v, n, k, k + 1, rings);
        proof {
            assert(open_bands(n as int, (k + 1) as nat) == open_bands(n as int, k as nat) + band(n as int, k as int, (k + 1) as int, n as nat));
            assert(ints(v@) =~= open_bands(n as int, (k + 1) as nat));
        }
        k = k + 1;
    }
    push_fan_down(&mut v, n);
    assert(segments * n + n <= u32::MAX + 1) by (nonlinear_arith)
        requires
            n * (segments + 1) <= u32::MAX,
    ;
    let end_base = segments * n;
    push_fan_up(&mut v, end_base, n);
    proof {
        assert(ints(v@) =~= revolve_partial_spec(n as nat, segments as nat));
        lemma_fan_down((n - 2) as nat);
        lemma_fan_up((segments * n) as int, (n - 2) as nat);
        lemma_open_bands(n as int, segments as nat, rings as int);
        let bound = (n * (segments + 1)) as int;
        assert(rings * n == bound) by (nonlinear_arith)
            requires
                rings == segments + 1,
                bound == n * (segments + 1),
        ;
        assert(segments * n + n == bound) by (nonlinear_arith)
            requires
                bound == n * (segments + 1),
        ;
        let a = open_bands(n as int, segments as nat);
        let b = fan_down((n - 2) as nat);
        let c = fan_up((segments * n) as int, (n - 2) as nat);
        lemma_all_below_concat(a, b, bound);
        lemma_all_below_concat(a + b, c, bound);
        assert(6 * n * segments + 3 * (n - 2) + 3 * (n - 2) == 3 * (2 * n * segments + 2 * (n - 2))) by (nonlinear_arith);
        lemma_buffers_ok(v@, bound as nat);
    }
    v
}

/// Index buffer and face labels of a full revolution of an `n`-point
/// profile in `segments` steps: `segments` rings, each joined to the next
/// and the last to the first; no caps. Both triangles of the quad on
/// profile edge `e` are labelled face `e`.
pub fn revolve_full_indices(n: u32, segments: u32) -> (r: (Vec<u32>, Vec<TopologyFaceId>))
    requires
        n >= 3,
        segments >= 1,
        n * segments <= u32::MAX,
    ensures
        ints(r.0@) == revolve_full_spec(n as nat, segments as nat),
        r.0@.len() == 6 * n * segments,
        r.1@.map_values(|f: TopologyFaceId| f.0) == ring_labels(n as nat, segments as nat),
        r.1@.len() == r.0@.len() / 3,
        buffers_check((n * segments) as nat, r.0@) is Ok,
{
    let mut v: Vec<u32> = Vec::new();
    let mut labels: Vec<TopologyFaceId> = Vec::new();
    proof {
        assert(ints(v@) =~= Seq::<int>::empty());
        assert(labels@.map_values(|f: TopologyFaceId| f.0) =~= Seq::<u64>::empty());
        assert(segments * n == n * segments) by (nonlinear_arith);
    }
    let mut k: u32 = 0;
    while k < segments
        invariant
            0 <= k <= segments,
            n >= 3,
            segments >= 1,
            segments * n <= u32::MAX + 1,
            ints(v@) == closed_bands(n as int, segments as int, k as nat),
            labels@.map_values(|f: TopologyFaceId| f.0) == ring_labels(n as nat, k as nat),
        decreases segments - k,
    {
        let next = (k + 1) % segments;
        push_band(&mut v, n, k, next, segments);
        proof {
            assert(closed_bands(n as int, segments as int, (k + 1) as nat) == closed_bands(n as int, segments as int, k as nat) + band(n as int, k as int, ((k + 1) as int) % (segments as int), n as nat));
            assert(ints(v@) =~= closed_bands(n as int, segments as int, (k + 1) as nat));
        }
        let ghost lbefore = labels@.map_values(|f: TopologyFaceId| f.0);
        let mut e: u32 = 0;
        while e < n
            invariant
                0 <= e <= n,
                labels@.map_values(|f: TopologyFaceId| f.0) == lbefore + edge_labels(n as nat, e as nat),
            decreases n - e,
        {
            let ghost l0 = labels@;
            labels.push(TopologyFaceId(e as u64));
            labels.push(TopologyFaceId(e as u64));
            proof {
                assert(labels@ == l0.push(TopologyFaceId(e as u64)).push(TopologyFaceId(e as u64)));
                assert(labels@.map_values(|f: TopologyFaceId| f.0) =~= l0.map_values(|f: TopologyFaceId| f.0) + seq![e as u64, e as u64]);
                assert(edge_labels(n as nat, (e + 1) as nat) == edge_labels(n as nat, e as nat) + seq![e as u64, e as u64]);
                assert(labels@.map_values(|f: TopologyFaceId| f.0) =~= lbefore + edge_labels(n as nat, (e + 1) as nat));
            }
            e = e + 1;
        }
        proof {
            assert(labels@.map_values(|f: TopologyFaceId| f.0) =~= ring_labels(n as nat, (k + 1) as nat));
        }
        k = k + 1;
    }
    proof {
        lemma_closed_bands(n as int, segments as int, segments as nat);
        lemma_ring_labels(n as nat, segments as nat);
        assert(labels@.len() == labels@.map_values(|f: TopologyFaceId| f.0).len());
        assert(6 * n * segments / 3 == 2 * n * segments) by (nonlinear_arith);
        assert(6 * n * segments == 3 * (2 * n * segments)) by (nonlinear_arith);
        lemma_buffers_ok(v@, (n * segments) as nat);
    }
    (v, labels)
}

/// `k` copies of label `f`.
pub open spec fn repeated(f: u64, k: nat) -> Seq<u64> {
    Seq::new(k, |i: int| f)
}

/// Labels of the walls of a prism: both triangles of the quad on profile
/// edge `e` carry face `2 + e`, for `e` in `0..k`.
pub open spec fn side_labels(k: nat) -> Seq<u64>
    decreases k,
{
    if k == 0 {
        Seq::empty()
    } else {
        side_labels((k - 1) as nat) + seq![(k + 1) as u64, (k + 1) as u64]
    }
}

/// Labels of an extruded prism over an `n`-point profile, triangle by
/// triangle: the bottom cap is face 0, the top cap face 1, and the wall on
/// profile edge `e` face `2 + e`.
pub open spec fn extrude_label_seq(n: nat) -> Seq<u64> {
    repeated(0, (n - 2) as nat) + repeated(1, (n - 2) as nat) + side_labels(n)
}

/// Index buffer and face labels of an extrusion of an `n`-point profile:
/// the sweep through two rings, with the bottom cap labelled face 0, the
/// top cap face 1, and the wall on profile edge `e` face `2 + e`.
pub fn extrude_indices(n: u32) -> (r: (Vec<u32>, Vec<TopologyFaceId>))
    requires
        n >= 3,
        n * 2 <= u32::MAX,
    ensures
        ints(r.0@) == sweep_spec(n as nat, 2),
        r.1@.map_values(|f: TopologyFaceId| f.0) == extrude_label_seq(n as nat),
        r.1@.len() == r.0@.len() / 3,
        buffers_check((n * 2) as nat, r.0@) is Ok,
{
    let v = sweep_indices(n, 2);
    let mut labels: Vec<TopologyFaceId> = Vec::new();
    let mut i: u32 = 0;
    assert(labels@.map_values(|f: TopologyFaceId| f.0) =~= repeated(0, 0));
    while i < n - 2
        invariant
            0 <= i <= n - 2,
            n >= 3,
            labels@.map_values(|f: TopologyFaceId| f.0) == repeated(0, i as nat),
        decreases n - 2 - i,
    {
        let ghost l0 = labels@;
        labels.push(TopologyFaceId(0));
        proof {
            assert(labels@.map_values(|f: TopologyFaceId| f.0) =~= l0.map_values(|f: TopologyFaceId| f.0).push(0u64));
            assert(labels@.map_values(|f: TopologyFaceId| f.0) =~= repeated(0, (i + 1) as nat));
        }
        i = i + 1;
    }
    let mut i: u32 = 0;
    assert(labels@.map_values(|f: TopologyFaceId| f.0) =~= repeated(0, (n - 2) as nat) + repeated(1, 0));
    while i < n - 2
        invariant
            0 <= i <= n - 2,
            n >= 3,
            labels@.map_values(|f: TopologyFaceId| f.0) == repeated(0, (n - 2) as nat) + repeated(1, i as nat),
        decreases n - 2 - i,
    {
        let ghost l0 = labels@;
        labels.push(TopologyFaceId(1));
        proof {
            assert(labels@.map_values(|f: TopologyFaceId| f.0) =~= l0.map_values(|f: TopologyFaceId| f.0).push(1u64));
            assert(labels@.map_values(|f: TopologyFaceId| f.0) =~= repeated(0, (n - 2) as nat) + repeated(1, (i + 1) as nat));
        }
        i = i + 1;
    }
    let ghost caps = repeated(0, (n - 2) as nat) + repeated(1, (n - 2) as nat);
    assert(labels@.map_values(|f: TopologyFaceId| f.0) =~= caps + side_labels(0));
    let mut e: u32 = 0;
    while e < n
        invariant
            0 <= e <= n,
            n >= 3,
            n * 2 <= u32::MAX,
            labels@.map_values(|f: TopologyFaceId| f.0) == caps + side_labels(e as nat),
        decreases n - e,
    {
        let ghost l0 = labels@;
        labels.push(TopologyFaceId((e + 2) as u64));
        labels.push(TopologyFaceId((e + 2) as u64));
        proof {
            assert(labels@.map_values(|f: TopologyFaceId| f.0) =~= l0.map_values(|f: TopologyFaceId| f.0) + seq![(e + 2) as u64, (e + 2) as u64]);
            assert(side_labels((e + 1) as nat) == side_labels(e as nat) + seq![(e + 2) as u64, (e + 2) as u64]);
            assert(labels@.map_values(|f: TopologyFaceId| f.0) =~= caps + side_labels((e + 1) as nat));
        }
        e = e + 1;
    }
    proof {
        lemma_side_labels_len(n as nat);
        assert(labels@.len() == labels@.map_values(|f: TopologyFaceId| f.0).len());
    }
    (v, labels)
}

proof fn lemma_side_labels_len(k: nat)
    ensures
        side_labels(k).len() == 2 * k,
    decreases k,
{
    if k > 0 {
        lemma_side_labels_len((k - 1) as nat);
    }
}

/// Some triangle carries label `f`.
pub open spec fn has_label(l: Seq<u64>, f: u64) -> bool {
    exists|i: int| 0 <= i < l.len() && l[i] == f
}

proof fn lemma_side_labels_at(k: nat, e: int)
    requires
        0 <= e < k,
        k <= u32::MAX,
    ensures
        side_labels(k).len() == 2 * k,
        side_labels(k)[2 * e] == e + 2,
        side_labels(k)[2 * e + 1] == e + 2,
    decreases k,
{
    lemma_side_labels_len(k);
    lemma_side_labels_len((k - 1) as nat);
    let a = side_labels((k - 1) as nat);
    let b = seq![(k + 1) as u64, (k + 1) as u64];
    assert(side_labels(k) == a + b);
    if e < k - 1 {
        lemma_side_labels_at((k - 1) as nat, e);
        assert((a + b)[2 * e] == a[2 * e]);
        assert((a + b)[2 * e + 1] == a[2 * e + 1]);
    } else {
        assert((a + b)[2 * e] == b[0]);
        assert((a + b)[2 * e + 1] == b[1]);
    }
}

/// The labels of a prism extruded from an `n`-point profile, triangle by
/// triangle: the `n - 2` triangles of the bottom cap are face 0, the next
/// `n - 2` (the top cap) face 1, and the two triangles of the wall on
/// profile edge `e` face `2 + e`; so the prism carries exactly the faces
/// `0 .. n + 2`, each wall its own.
pub proof fn law_extrude_labels(n: nat)
    requires
        n >= 3,
        n <= u32::MAX,
    ensures
        extrude_label_seq(n).len() == 4 * n - 4,
        forall|t: int| 0 <= t < n - 2 ==> #[trigger] extrude_label_seq(n)[t] == 0,
        forall|t: int| n - 2 <= t < 2 * (n - 2) ==> #[trigger] extrude_label_seq(n)[t] == 1,
        forall|e: int|
            0 <= e < n ==> #[trigger] extrude_label_seq(n)[2 * (n - 2) + 2 * e] == 2 + e
                && extrude_label_seq(n)[2 * (n - 2) + 2 * e + 1] == 2 + e,
        forall|f: u64| #[trigger] has_label(extrude_label_seq(n), f) <==> f < n + 2,
{
    let l = extrude_label_seq(n);
    let c = (n - 2) as nat;
    let caps = repeated(0, c) + repeated(1, c);
    lemma_side_labels_len(n);
    assert(l == caps + side_labels(n));
    assert forall|e: int| 0 <= e < n implies #[trigger] l[2 * (n - 2) + 2 * e] == 2 + e && l[2 * (n - 2) + 2 * e + 1] == 2 + e by {
        lemma_side_labels_at(n, e);
    }
    assert forall|f: u64| #[trigger] has_label(l, f) <==> f < n + 2 by {
        if exists|i: int| 0 <= i < l.len() && l[i] == f {
            let i = choose|i: int| 0 <= i < l.len() && l[i] == f;
            if i >= 2 * c {
                let j = i - 2 * c;
                let e = j / 2;
                lemma_side_labels_at(n, e);
                if j % 2 == 0 {
                    assert(j == 2 * e);
                } else {
                    assert(j == 2 * e + 1);
                }
                assert(l[i] == side_labels(n)[j]);
            }
        }
        if f < n + 2 {
            if f == 0 {
                assert(l[0] == 0);
            } else if f == 1 {
                assert(l[c as int] == 1);
            } else {
                let e = f - 2;
                lemma_side_labels_at(n, e);
                assert(l[2 * c + 2 * e] == f);
            }
        }
    }
}

proof fn lemma_fan_down_at(k: nat, t: int)
    requires
        0 <= t < k,
    ensures
        fan_down(k).len() == 3 * k,
        fan_down(k)[3 * t] == 0 && fan_down(k)[3 * t + 1] == t + 2 && fan_down(k)[3 * t + 2] == t + 1,
    decreases k,
{
    lemma_fan_down(k);
    lemma_fan_down((k - 1) as nat);
    let a = fan_down((k - 1) as nat);
    let b = seq![0int, (k + 1) as int, k as int];
    assert(fan_down(k) == a + b);
    if t < k - 1 {
        lemma_fan_down_at((k - 1) as nat, t);
        assert((a + b)[3 * t] == a[3 * t] && (a + b)[3 * t + 1] == a[3 * t + 1] && (a + b)[3 * t + 2] == a[3 * t + 2]);
    } else {
        assert((a + b)[3 * t] == b[0] && (a + b)[3 * t + 1] == b[1] && (a + b)[3 * t + 2] == b[2]);
    }
}

proof fn lemma_fan_up_at(base: int, k: nat, t: int)
    requires
        base >= 0,
        0 <= t < k,
    ensures
        fan_up(base, k).len() == 3 * k,
        fan_up(base, k)[3 * t] == base && fan_up(base, k)[3 * t + 1] == base + t + 1 && fan_up(base, k)[3 * t + 2]
            == base + t + 2,
    decreases k,
{
    lemma_fan_up(base, k);
    lemma_fan_up(base, (k - 1) as nat);
    let a = fan_up(base, (k - 1) as nat);
    let b = seq![base, base + k, base + k + 1];
    assert(fan_up(base, k) == a + b);
    if t < k - 1 {
        lemma_fan_up_at(base, (k - 1) as nat, t);
        assert((a + b)[3 * t] == a[3 * t] && (a + b)[3 * t + 1] == a[3 * t + 1] && (a + b)[3 * t + 2] == a[3 * t + 2]);
    } else {
        assert((a + b)[3 * t] == b[0] && (a + b)[3 * t + 1] == b[1] && (a + b)[3 * t + 2] == b[2]);
    }
}

/// The six indices at `w` are the quad joining profile edge `e` of ring
/// `r` to the same edge of ring `nr`, split along its diagonal.
pub open spec fn wall_at(s: Seq<int>, w: int, n: int, r: int, nr: int, e: int) -> bool {
    let e1 = (e + 1) % n;
    &&& s[w] == r * n + e
    &&& s[w + 1] == r * n + e1
    &&& s[w + 2] == nr * n + e1
    &&& s[w + 3] == r * n + e
    &&& s[w + 4] == nr * n + e1
    &&& s[w + 5] == nr * n + e
}

proof fn lemma_band_at(n: int, r: int, nr: int, k: nat, e: int)
    requires
        n >= 1,
        k <= n,
        0 <= e < k,
        r >= 0,
        nr >= 0,
    ensures
        band(n, r, nr, k).len() == 6 * k,
        wall_at(band(n, r, nr, k), 6 * e, n, r, nr, e),
    decreases k,
{
    lemma_band(n, r, nr, k, r + nr + 1);
    lemma_band(n, r, nr, (k - 1) as nat, r + nr + 1);
    let a = band(n, r, nr, (k - 1) as nat);
    let b = quad(n, r, nr, k - 1);
    assert(band(n, r, nr, k) == a + b);
    if e < k - 1 {
        lemma_band_at(n, r, nr, (k - 1) as nat, e);
        assert((a + b)[6 * e + 0] == a[6 * e + 0]); assert((a + b)[6 * e + 1] == a[6 * e + 1]); assert((a + b)[6 * e + 2] == a[6 * e + 2]); assert((a + b)[6 * e + 3] == a[6 * e + 3]); assert((a + b)[6 * e + 4] == a[6 * e + 4]); assert((a + b)[6 * e + 5] == a[6 * e + 5]);
    } else {
        assert((a + b)[6 * e + 0] == b[0]); assert((a + b)[6 * e + 1] == b[1]); assert((a + b)[6 * e + 2] == b[2]); assert((a + b)[6 * e + 3] == b[3]); assert((a + b)[6 * e + 4] == b[4]); assert((a + b)[6 * e + 5] == b[5]);
    }
}

proof fn lemma_open_bands_at(n: int, k: nat, r: int, e: int)
    requires
        n >= 1,
        0 <= r < k,
        0 <= e < n,
    ensures
        open_bands(n, k).len() == 6 * n * k,
        wall_at(open_bands(n, k), 6 * (r * n + e), n, r, r + 1, e),
    decreases k,
{
    lemma_open_bands(n, k, (k + 1) as int);
    lemma_open_bands(n, (k - 1) as nat, (k + 1) as int);
    let a = open_bands(n, (k - 1) as nat);
    let b = band(n, k - 1, k as int, n as nat);
    assert(open_bands(n, k) == a + b);
    let w = 6 * (r * n + e);
    if r < k - 1 {
        lemma_open_bands_at(n, (k - 1) as nat, r, e);
        assert(w + 6 <= 6 * n * (k - 1)) by (nonlinear_arith)
            requires
                w == 6 * (r * n + e),
                0 <= r < k - 1,
                0 <= e < n,
        ;
        assert((a + b)[w + 0] == a[w + 0]); assert((a + b)[w + 1] == a[w + 1]); assert((a + b)[w + 2] == a[w + 2]); assert((a + b)[w + 3] == a[w + 3]); assert((a + b)[w + 4] == a[w + 4]); assert((a + b)[w + 5] == a[w + 5]);
    } else {
        lemma_band_at(n, k - 1, k as int, n as nat, e);
        assert(w == 6 * n * (k - 1) + 6 * e) by (nonlinear_arith)
            requires
                w == 6 * (r * n + e),
                r == k - 1,
        ;
        assert((a + b)[w + 0] == b[6 * e + 0]); assert((a + b)[w + 1] == b[6 * e + 1]); assert((a + b)[w + 2] == b[6 * e + 2]); assert((a + b)[w + 3] == b[6 * e + 3]); assert((a + b)[w + 4] == b[6 * e + 4]); assert((a + b)[w + 5] == b[6 * e + 5]);
    }
}

/// Bottom-cap triangle `t` of a sweep: `(0, t + 2, t + 1)`, over ring 0.
pub open spec fn bottom_cap_at(s: Seq<int>, t: int) -> bool {
    s[3 * t] == 0 && s[3 * t + 1] == t + 2 && s[3 * t + 2] == t + 1
}

/// Top-cap triangle `t` of a sweep through `m` rings of `n` points:
/// `(L, L + t + 1, L + t + 2)` with `L = (m - 1) * n`, the first vertex of
/// the last ring.
pub open spec fn top_cap_at(s: Seq<int>, n: int, m: int, t: int) -> bool {
    let c = n - 2;
    let last = (m - 1) * n;
    s[3 * c + 3 * t] == last && s[3 * c + 3 * t + 1] == last + t + 1 && s[3 * c + 3 * t + 2] == last + t + 2
}

/// The layout of a sweep of an `n`-point profile through `m` rings, index
/// by index: `n - 2` bottom-cap triangles fanned over ring 0, facing down;
/// `n - 2` top-cap triangles fanned over ring `m - 1` (the last), facing
/// up; then, ring by ring and edge by edge, the quad joining edge `e` of
/// ring `r` to edge `e` of ring `r + 1`.
pub proof fn law_sweep_layout(n: nat, m: nat)
    requires
        n >= 3,
        m >= 2,
    ensures
        sweep_spec(n, m).len() == 6 * (n - 2) + 6 * n * (m - 1),
        forall|t: int| 0 <= t < n - 2 ==> #[trigger] bottom_cap_at(sweep_spec(n, m), t),
        forall|t: int| 0 <= t < n - 2 ==> #[trigger] top_cap_at(sweep_spec(n, m), n as int, m as int, t),
        forall|r: int, e: int|
            0 <= r < m - 1 && 0 <= e < n ==> #[trigger] wall_at(
                sweep_spec(n, m),
                6 * (n - 2) + 6 * (r * n + e),
                n as int,
                r,
                r + 1,
                e,
            ),
{
    let c = (n - 2) as nat;
    let last = (m - 1) * n;
    assert(last >= 0) by (nonlinear_arith)
        requires
            last == (m - 1) * n,
            m >= 1,
    ;
    let a = fan_down(c);
    let b = fan_up(last, c);
    let w = open_bands(n as int, (m - 1) as nat);
    lemma_fan_down(c);
    lemma_fan_up(last, c);
    lemma_open_bands(n as int, (m - 1) as nat, m as int);
    let s = sweep_spec(n, m);
    assert(s == a + b + w);
    assert forall|t: int| 0 <= t < n - 2 implies #[trigger] bottom_cap_at(s, t) by {
        lemma_fan_down_at(c, t);
        assert(s[3 * t] == a[3 * t] && s[3 * t + 1] == a[3 * t + 1] && s[3 * t + 2] == a[3 * t + 2]);
    }
    assert forall|t: int| 0 <= t < n - 2 implies #[trigger] top_cap_at(s, n as int, m as int, t) by {
        lemma_fan_up_at(last, c, t);
        assert(s[3 * c + 3 * t] == b[3 * t] && s[3 * c + 3 * t + 1] == b[3 * t + 1] && s[3 * c + 3 * t + 2] == b[3 * t + 2]);
    }
    assert forall|r: int, e: int| 0 <= r < m - 1 && 0 <= e < n implies #[trigger] wall_at(
        s,
        6 * (n - 2) + 6 * (r * n + e),
        n as int,
        r,
        r + 1,
        e,
    ) by {
        lemma_open_bands_at(n as int, (m - 1) as nat, r, e);
        let o = 6 * (r * n + e);
        assert(o + 6 <= 6 * n * (m - 1)) by (nonlinear_arith)
            requires
                o == 6 * (r * n + e),
                0 <= r < m - 1,
                0 <= e < n,
        ;
        assert(o >= 0) by (nonlinear_arith)
            requires
                o == 6 * (r * n + e),
                0 <= r,
                0 <= e,
                n >= 0,
        ;
        assert(s[6 * c + o + 0] == w[o + 0]); assert(s[6 * c + o + 1] == w[o + 1]); assert(s[6 * c + o + 2] == w[o + 2]); assert(s[6 * c + o + 3] == w[o + 3]); assert(s[6 * c + o + 4] == w[o + 4]); assert(s[6 * c + o + 5] == w[o + 5]);
    }
}

} // verus!
