//! Asset dependency graph: "consumer depends on producer" edges, so that a
//! content change to a producer can cascade-invalidate everything
//! downstream.
//!
//! Self-edges are refused. [`DepGraph::transitive_closure`] reports a cycle
//! through the queried asset; [`DepGraph::invalidation_cascade`] reports any
//! cycle reachable from it.
//! Query results come back sorted by [`AssetId`] (lexicographic byte order)
//! without duplicates.

use vstd::prelude::*;

use crate::asset_id::{lemma_lex_asymmetric, lemma_lex_irreflexive, lemma_lex_total, lemma_lex_transitive, lex_lt, AssetId};

verus! {

/// An edge as seen by specifications: `(consumer, producer)`.
pub type EdgeView = (Seq<u8>, Seq<u8>);

/// Errors emitted by [`DepGraph`].
#[derive(Debug, Clone, Copy, PartialEq, Eq)]
pub enum DepError {
    /// Tried to add a self-edge (`add_edge(a, a)`).
    SelfEdge(AssetId),
    /// A cycle runs through the listed asset.
    Cycle(AssetId),
}

/// One step along the edges: forward goes from consumer to producer
/// ("depends on"), backward from producer to consumer ("is used by").
pub open spec fn step(edges: Set<EdgeView>, forward: bool, a: Seq<u8>, b: Seq<u8>) -> bool {
    if forward {
        edges.contains((a, b))
    } else {
        edges.contains((b, a))
    }
}

/// A walk of at least one step.
pub open spec fn is_walk(edges: Set<EdgeView>, forward: bool, p: Seq<Seq<u8>>) -> bool {
    &&& p.len() >= 2
    &&& forall|i: int| 0 <= i < p.len() - 1 ==> step(edges, forward, #[trigger] p[i], p[i + 1])
}

/// `b` can be reached from `a` in one or more steps.
pub open spec fn reaches(edges: Set<EdgeView>, forward: bool, a: Seq<u8>, b: Seq<u8>) -> bool {
    exists|p: Seq<Seq<u8>>| #[trigger] is_walk(edges, forward, p) && p[0] == a && p.last() == b
}

/// Some asset reachable from `p` along "is used by" edges lies on a
/// cycle.
pub open spec fn cycle_downstream(edges: Set<EdgeView>, p: Seq<u8>) -> bool {
    exists|y: Seq<u8>| reaches(edges, false, p, y) && #[trigger] reaches(edges, false, y, y)
}

/// `x` is reachable from `p` along "is used by" edges, lies on a cycle,
/// and no such asset sorts before it.
pub open spec fn least_on_cycle(edges: Set<EdgeView>, p: Seq<u8>, x: Seq<u8>) -> bool {
    &&& reaches(edges, false, p, x)
    &&& reaches(edges, false, x, x)
    &&& forall|y: Seq<u8>| reaches(edges, false, p, y) && #[trigger] reaches(edges, false, y, y) ==> !lex_lt(y, x)
}

/// Strictly ascending in lexicographic byte order.
pub open spec fn sorted_ids(s: Seq<Seq<u8>>) -> bool {
    forall|i: int, j: int| 0 <= i < j < s.len() ==> lex_lt(#[trigger] s[i], #[trigger] s[j])
}

pub open spec fn id_views(v: Seq<AssetId>) -> Seq<Seq<u8>> {
    v.map_values(|a: AssetId| a@)
}

pub open spec fn edge_views(v: Seq<(AssetId, AssetId)>) -> Seq<EdgeView> {
    v.map_values(|e: (AssetId, AssetId)| (e.0@, e.1@))
}

/// The result of a reachability query: sorted, and exactly the ids
/// satisfying `member`.
pub open spec fn lists_exactly(v: Seq<Seq<u8>>, member: spec_fn(Seq<u8>) -> bool) -> bool {
    &&& sorted_ids(v)
    &&& forall|id: Seq<u8>| v.contains(id) <==> #[trigger] member(id)
}

proof fn lemma_walk_extend(edges: Set<EdgeView>, forward: bool, a: Seq<u8>, b: Seq<u8>, c: Seq<u8>)
    requires
        reaches(edges, forward, a, b),
        step(edges, forward, b, c),
    ensures
        reaches(edges, forward, a, c),
{
    let p = choose|p: Seq<Seq<u8>>| #[trigger] is_walk(edges, forward, p) && p[0] == a && p.last() == b;
    let q = p.push(c);
    assert forall|i: int| 0 <= i < q.len() - 1 implies step(edges, forward, #[trigger] q[i], q[i + 1]) by {
        if i < p.len() - 1 {
            assert(q[i] == p[i] && q[i + 1] == p[i + 1]);
        }
    }
    assert(is_walk(edges, forward, q));
}

proof fn lemma_one_step(edges: Set<EdgeView>, forward: bool, a: Seq<u8>, b: Seq<u8>)
    requires
        step(edges, forward, a, b),
    ensures
        reaches(edges, forward, a, b),
{
    let p = seq![a, b];
    assert(is_walk(edges, forward, p));
}

/// `e` is a step from `a` to `b` in the given direction.
pub open spec fn edge_steps(e: EdgeView, forward: bool, a: Seq<u8>, b: Seq<u8>) -> bool {
    if forward {
        e == (a, b)
    } else {
        e == (b, a)
    }
}

/// Number of set flags.
pub open spec fn count_true(s: Seq<bool>) -> nat
    decreases s.len(),
{
    if s.len() == 0 {
        0
    } else {
        count_true(s.drop_last()) + (if s.last() { 1nat } else { 0nat })
    }
}

proof fn lemma_count_true_bound(s: Seq<bool>)
    ensures
        count_true(s) <= s.len(),
    decreases s.len(),
{
    if s.len() > 0 {
        lemma_count_true_bound(s.drop_last());
    }
}

proof fn lemma_count_true_set(s: Seq<bool>, k: int)
    requires
        0 <= k < s.len(),
        !s[k],
    ensures
        count_true(s.update(k, true)) == count_true(s) + 1,
    decreases s.len(),
{
    if k < s.len() - 1 {
        lemma_count_true_set(s.drop_last(), k);
        assert(s.update(k, true).drop_last() =~= s.drop_last().update(k, true));
    } else {
        assert(s.update(k, true).drop_last() =~= s.drop_last());
    }
}

/// Position of `id` in a list of ids.
fn position(v: &Vec<AssetId>, id: &AssetId) -> (r: Option<usize>)
    ensures
        match r {
            Some(i) => i < v@.len() && id_views(v@)[i as int] == id@,
            None => !id_views(v@).contains(id@),
        },
{
    let mut i: usize = 0;
    while i < v.len()
        invariant
            0 <= i <= v@.len(),
            forall|j: int| 0 <= j < i ==> id_views(v@)[j] != id@,
        decreases v@.len() - i,
    {
        if v[i].same_as(id) {
            return Some(i);
        }
        i = i + 1;
    }
    None
}

/// Add `id` to a duplicate-free list unless it is already there.
fn add_unique(v: &mut Vec<AssetId>, id: AssetId)
    requires
        id_views(old(v)@).no_duplicates(),
    ensures
        id_views(final(v)@).no_duplicates(),
        forall|x: Seq<u8>| id_views(final(v)@).contains(x) <==> (id_views(old(v)@).contains(x) || x == id@),
{
    match position(v, &id) {
        Some(_) => {},
        None => {
            let ghost before = id_views(v@);
            v.push(id);
            proof {
                let after = id_views(v@);
                assert(after =~= before.push(id@));
                assert forall|x: Seq<u8>| after.contains(x) <==> (before.contains(x) || x == id@) by {
                    if after.contains(x) {
                        let k = choose|k: int| 0 <= k < after.len() && after[k] == x;
                        if k < before.len() {
                            assert(before[k] == x);
                        }
                    }
                    if before.contains(x) {
                        let k = choose|k: int| 0 <= k < before.len() && before[k] == x;
                        assert(after[k] == x);
                    }
                    if x == id@ {
                        assert(after[before.len() as int] == x);
                    }
                }
            }
        },
    }
}

proof fn lemma_walk_prefix(
    edges: Set<EdgeView>,
    forward: bool,
    start: Seq<u8>,
    ns: Seq<Seq<u8>>,
    vis: Seq<bool>,
    p: Seq<Seq<u8>>,
    t: int,
)
    requires
        vis.len() == ns.len(),
        is_walk(edges, forward, p),
        p[0] == start,
        1 <= t < p.len(),
        forall|e: EdgeView| edges.contains(e) ==> ns.contains(e.0) && ns.contains(e.1),
        forall|k: int| 0 <= k < ns.len() && step(edges, forward, start, ns[k]) ==> vis[k],
        forall|i: int, k: int|
            0 <= i < ns.len() && 0 <= k < ns.len() && vis[i] && step(edges, forward, ns[i], ns[k]) ==> vis[k],
    ensures
        exists|k: int| 0 <= k < ns.len() && ns[k] == p[t] && vis[k],
    decreases t,
{
    let e = if forward { (p[t - 1], p[t]) } else { (p[t], p[t - 1]) };
    assert(step(edges, forward, p[t - 1], p[t]));
    assert(edges.contains(e));
    assert(ns.contains(p[t]));
    let k = choose|k: int| 0 <= k < ns.len() && ns[k] == p[t];
    if t == 1 {
        assert(vis[k]);
    } else {
        lemma_walk_prefix(edges, forward, start, ns, vis, p, t - 1);
        let i = choose|i: int| 0 <= i < ns.len() && ns[i] == p[t - 1] && vis[i];
        assert(vis[k]);
    }
}

/// Every flagged node not waiting on the stack has all its successors flagged.
pub open spec fn closed_except(edges: Set<EdgeView>, forward: bool, ns: Seq<Seq<u8>>, vis: Seq<bool>, stack: Seq<usize>) -> bool {
    forall|i: int, k: int|
        0 <= i < ns.len() && 0 <= k < ns.len() && vis[i] && !stack.contains(i as usize) && step(edges, forward, #[trigger] ns[i], #[trigger] ns[k]) ==> vis[k]
}

fn all_false(n: usize) -> (v: Vec<bool>)
    ensures
        v@.len() == n,
        forall|k: int| 0 <= k < n ==> !v@[k],
        count_true(v@) == 0,
{
    let mut vis: Vec<bool> = Vec::new();
    let mut i: usize = 0;
    while i < n
        invariant
            0 <= i <= n,
            vis@.len() == i,
            forall|k: int| 0 <= k < i ==> !vis@[k],
            count_true(vis@) == 0,
        decreases n - i,
    {
        proof {
            assert(vis@.push(false).drop_last() =~= vis@);
        }
        vis.push(false);
        i = i + 1;
    }
    vis
}

proof fn lemma_pop_facts(stack_before: Seq<usize>, stack_popped: Seq<usize>, xi: usize, vis: Seq<bool>, n: int)
    requires
        stack_before.len() > 0,
        stack_popped == stack_before.drop_last(),
        xi == stack_before.last(),
        stack_before.no_duplicates(),
        forall|t: int| 0 <= t < stack_before.len() ==> (#[trigger] stack_before[t]) < n && vis[stack_before[t] as int],
    ensures
        !stack_popped.contains(xi),
        stack_popped.no_duplicates(),
        forall|t: int| 0 <= t < stack_popped.len() ==> (#[trigger] stack_popped[t]) < n && vis[stack_popped[t] as int],
        xi < n,
        vis[xi as int],
        stack_before == stack_popped.push(xi),
{
    assert(stack_before =~= stack_popped.push(xi));
    assert(stack_before[stack_popped.len() as int] == xi);
    if stack_popped.contains(xi) {
        let t = choose|t: int| 0 <= t < stack_popped.len() && stack_popped[t] == xi;
        assert(stack_before[t] == xi);
    }
    assert forall|t: int| 0 <= t < stack_popped.len() implies (#[trigger] stack_popped[t]) < n && vis[stack_popped[t] as int] by {
        assert(stack_before[t] == stack_popped[t]);
    }
    assert forall|a: int, b: int| 0 <= a < stack_popped.len() && 0 <= b < stack_popped.len() && a != b implies stack_popped[a] != stack_popped[b] by {
        assert(stack_before[a] == stack_popped[a]);
        assert(stack_before[b] == stack_popped[b]);
    }
}

proof fn lemma_closed_after_expand(
    edges: Set<EdgeView>,
    forward: bool,
    ns: Seq<Seq<u8>>,
    vis_before: Seq<bool>,
    vis: Seq<bool>,
    stack_before: Seq<usize>,
    stack_popped: Seq<usize>,
    stack: Seq<usize>,
    xi: int,
)
    requires
        0 <= xi < ns.len(),
        ns.len() <= usize::MAX,
        vis_before.len() == ns.len(),
        vis.len() == ns.len(),
        ns.no_duplicates(),
        closed_except(edges, forward, ns, vis_before, stack_before),
        stack_before == stack_popped.push(xi as usize),
        forall|k: int| 0 <= k < ns.len() && vis_before[k] ==> vis[k],
        forall|k: int| 0 <= k < ns.len() && step(edges, forward, ns[xi], #[trigger] ns[k]) ==> vis[k],
        stack.len() >= stack_popped.len(),
        stack.subrange(0, stack_popped.len() as int) == stack_popped,
        forall|k: int| 0 <= k < ns.len() && vis[k] && !vis_before[k] ==> stack.contains(k as usize),
    ensures
        closed_except(edges, forward, ns, vis, stack),
{
    assert forall|i: int, k: int|
        0 <= i < ns.len() && 0 <= k < ns.len() && vis[i] && !stack.contains(i as usize) && step(edges, forward, #[trigger] ns[i], #[trigger] ns[k]) implies vis[k] by {
        if i == xi {
        } else if vis_before[i] {
            assert(!stack_popped.contains(i as usize)) by {
                if stack_popped.contains(i as usize) {
                    let t = choose|t: int| 0 <= t < stack_popped.len() && stack_popped[t] == i as usize;
                    assert(stack.subrange(0, stack_popped.len() as int)[t] == i as usize);
                    assert(stack[t] == i as usize);
                }
            }
            assert(!stack_before.contains(i as usize)) by {
                if stack_before.contains(i as usize) {
                    let t = choose|t: int| 0 <= t < stack_before.len() && stack_before[t] == i as usize;
                    if t < stack_popped.len() {
                        assert(stack_popped[t] == i as usize);
                    } else {
                        assert(stack_before[t] == xi as usize);
                    }
                }
            }
            assert(vis_before[k]);
        }
    }
}

proof fn lemma_closed_all(edges: Set<EdgeView>, forward: bool, ns: Seq<Seq<u8>>, vis: Seq<bool>)
    requires
        vis.len() == ns.len(),
        closed_except(edges, forward, ns, vis, Seq::<usize>::empty()),
    ensures
        forall|i: int, k: int|
            0 <= i < ns.len() && 0 <= k < ns.len() && vis[i] && step(edges, forward, ns[i], ns[k]) ==> vis[k],
{
    assert forall|i: int, k: int|
        0 <= i < ns.len() && 0 <= k < ns.len() && vis[i] && step(edges, forward, ns[i], ns[k]) implies vis[k] by {
        assert(!Seq::<usize>::empty().contains(i as usize));
        assert(step(edges, forward, ns[i], ns[k]));
    }
}

proof fn lemma_reached_flagged(edges: Set<EdgeView>, forward: bool, start: Seq<u8>, ns: Seq<Seq<u8>>, vis: Seq<bool>, id: Seq<u8>)
    requires
        vis.len() == ns.len(),
        forall|e: EdgeView| edges.contains(e) ==> ns.contains(e.0) && ns.contains(e.1),
        forall|k: int| 0 <= k < ns.len() && step(edges, forward, start, #[trigger] ns[k]) ==> vis[k],
        forall|i: int, k: int|
            0 <= i < ns.len() && 0 <= k < ns.len() && vis[i] && step(edges, forward, ns[i], ns[k]) ==> vis[k],
        reaches(edges, forward, start, id),
    ensures
        exists|k: int| 0 <= k < ns.len() && ns[k] == id && vis[k],
{
    let p = choose|p: Seq<Seq<u8>>| #[trigger] is_walk(edges, forward, p) && p[0] == start && p.last() == id;
    lemma_walk_prefix(edges, forward, start, ns, vis, p, p.len() - 1);
}

proof fn lemma_walk_complete(edges: Set<EdgeView>, forward: bool, start: Seq<u8>, ns: Seq<Seq<u8>>, vis: Seq<bool>)
    requires
        vis.len() == ns.len(),
        ns.no_duplicates(),
        forall|e: EdgeView| edges.contains(e) ==> ns.contains(e.0) && ns.contains(e.1),
        forall|k: int| 0 <= k < ns.len() && vis[k] ==> reaches(edges, forward, start, #[trigger] ns[k]),
        forall|k: int| 0 <= k < ns.len() && step(edges, forward, start, #[trigger] ns[k]) ==> vis[k],
        closed_except(edges, forward, ns, vis, Seq::<usize>::empty()),
    ensures
        forall|k: int| 0 <= k < ns.len() ==> (vis[k] <==> reaches(edges, forward, start, #[trigger] ns[k])),
        forall|id: Seq<u8>| reaches(edges, forward, start, id) ==> ns.contains(id),
{
    lemma_closed_all(edges, forward, ns, vis);
    assert forall|id: Seq<u8>| reaches(edges, forward, start, id) implies ns.contains(id) by {
        lemma_reached_flagged(edges, forward, start, ns, vis, id);
        let k = choose|k: int| 0 <= k < ns.len() && ns[k] == id && vis[k];
        assert(ns[k] == id);
    }
    assert forall|k: int| 0 <= k < ns.len() implies (vis[k] <==> reaches(edges, forward, start, #[trigger] ns[k])) by {
        if reaches(edges, forward, start, ns[k]) {
            lemma_reached_flagged(edges, forward, start, ns, vis, ns[k]);
            let kk = choose|kk: int| 0 <= kk < ns.len() && ns[kk] == ns[k] && vis[kk];
            assert(kk == k);
        }
    }
}

// ---------------------------------------------------------------------------
// Laws
// ---------------------------------------------------------------------------

/// Removing an edge undoes adding it, when it was not there before.
pub proof fn law_remove_undoes_add(edges: Set<EdgeView>, consumer: Seq<u8>, producer: Seq<u8>)
    requires
        !edges.contains((consumer, producer)),
    ensures
        edges.insert((consumer, producer)).remove((consumer, producer)) == edges,
{
    assert(edges.insert((consumer, producer)).remove((consumer, producer)) =~= edges);
}

/// Reachability composes: what is reachable from something reachable is
/// reachable.
pub proof fn law_reaches_transitive(edges: Set<EdgeView>, forward: bool, a: Seq<u8>, b: Seq<u8>, c: Seq<u8>)
    requires
        reaches(edges, forward, a, b),
        reaches(edges, forward, b, c),
    ensures
        reaches(edges, forward, a, c),
{
    let p = choose|p: Seq<Seq<u8>>| #[trigger] is_walk(edges, forward, p) && p[0] == a && p.last() == b;
    let q = choose|q: Seq<Seq<u8>>| #[trigger] is_walk(edges, forward, q) && q[0] == b && q.last() == c;
    let r = p + q.drop_first();
    assert forall|i: int| 0 <= i < r.len() - 1 implies step(edges, forward, #[trigger] r[i], r[i + 1]) by {
        if i < p.len() - 1 {
            assert(r[i] == p[i] && r[i + 1] == p[i + 1]);
        } else if i == p.len() - 1 {
            assert(r[i] == q[0]);
            assert(r[i + 1] == q[1]);
        } else {
            let j = i - p.len() + 1;
            assert(r[i] == q[j] && r[i + 1] == q[j + 1]);
        }
    }
    assert(is_walk(edges, forward, r));
}

/// The invalidation cascade is the reverse of the transitive closure: `c`
/// is invalidated by a change to `p` exactly when `p` is among the
/// transitive dependencies of `c`.
pub proof fn law_cascade_reverses_closure(edges: Set<EdgeView>, p: Seq<u8>, c: Seq<u8>)
    ensures
        reaches(edges, false, p, c) <==> reaches(edges, true, c, p),
{
    if reaches(edges, false, p, c) {
        let w = choose|w: Seq<Seq<u8>>| #[trigger] is_walk(edges, false, w) && w[0] == p && w.last() == c;
        lemma_reverse_walk(edges, false, w);
    }
    if reaches(edges, true, c, p) {
        let w = choose|w: Seq<Seq<u8>>| #[trigger] is_walk(edges, true, w) && w[0] == c && w.last() == p;
        lemma_reverse_walk(edges, true, w);
    }
}

proof fn lemma_reverse_walk(edges: Set<EdgeView>, forward: bool, w: Seq<Seq<u8>>)
    requires
        is_walk(edges, forward, w),
    ensures
        is_walk(edges, !forward, w.reverse()),
        w.reverse()[0] == w.last(),
        w.reverse().last() == w[0],
{
    let r = w.reverse();
    assert forall|i: int| 0 <= i < r.len() - 1 implies step(edges, !forward, #[trigger] r[i], r[i + 1]) by {
        let j = w.len() - 2 - i;
        assert(step(edges, forward, w[j], w[j + 1]));
        assert(r[i] == w[j + 1]);
        assert(r[i + 1] == w[j]);
    }
}

/// Insert `x` into a sorted vector of ids that does not hold it.
fn insert_sorted(out: &mut Vec<AssetId>, x: AssetId)
    requires
        sorted_ids(id_views(old(out)@)),
        !id_views(old(out)@).contains(x@),
    ensures
        sorted_ids(id_views(final(out)@)),
        forall|id: Seq<u8>| id_views(final(out)@).contains(id) <==> (id_views(old(out)@).contains(id) || id == x@),
        final(out)@.len() == old(out)@.len() + 1,
{
    let ghost s = id_views(out@);
    let mut pos: usize = 0;
    while pos < out.len() && !x.lex_less(&out[pos])
        invariant
            0 <= pos <= out@.len(),
            s == id_views(out@),
            !s.contains(x@),
            forall|i: int| 0 <= i < pos ==> lex_lt(#[trigger] s[i], x@),
        decreases out@.len() - pos,
    {
        proof {
            assert(s[pos as int] == out@[pos as int]@);
            assert(s[pos as int] != x@);
            lemma_lex_total(s[pos as int], x@);
        }
        pos = pos + 1;
    }
    proof {
        if pos < out@.len() {
            assert(s[pos as int] == out@[pos as int]@);
        }
    }
    out.insert(pos, x);
    proof {
        let t = id_views(out@);
        assert(t =~= s.insert(pos as int, x@));
        assert forall|i: int, j: int| 0 <= i < j < t.len() implies lex_lt(#[trigger] t[i], #[trigger] t[j]) by {
            if j < pos {
            } else if j == pos {
            } else if i == pos {
                if j - 1 > pos {
                    lemma_lex_transitive(x@, s[pos as int], s[j - 1]);
                }
            } else if i < pos {
                // i < pos < j: s[i] < x < s[j - 1]
                if j - 1 > pos {
                    lemma_lex_transitive(x@, s[pos as int], s[j - 1]);
                }
                lemma_lex_transitive(s[i], x@, s[j - 1]);
            } else {
                assert(t[i] == s[i - 1] && t[j] == s[j - 1]);
            }
        }
        assert forall|id: Seq<u8>| t.contains(id) <==> (s.contains(id) || id == x@) by {
            if t.contains(id) {
                let k = choose|k: int| 0 <= k < t.len() && t[k] == id;
                if k < pos {
                    assert(s[k] == id);
                } else if k > pos {
                    assert(s[k - 1] == id);
                }
            }
            if s.contains(id) {
                let k = choose|k: int| 0 <= k < s.len() && s[k] == id;
                if k < pos {
                    assert(t[k] == id);
                } else {
                    assert(t[k + 1] == id);
                }
            }
            if id == x@ {
                assert(t[pos as int] == id);
            }
        }
    }
}

/// Directed graph of "consumer depends on producer" edges.
#[derive(Debug)]
pub struct DepGraph {
    edges: Vec<(AssetId, AssetId)>,
}

impl DepGraph {
    /// The edges, each `(consumer, producer)`, in insertion order.
    pub closed spec fn edges_view(&self) -> Seq<EdgeView> {
        edge_views(self.edges@)
    }

    /// The edges as a set.
    pub open spec fn edge_set(&self) -> Set<EdgeView> {
        self.edges_view().to_set()
    }

    #[verifier::type_invariant]
    closed spec fn inv(&self) -> bool {
        &&& self.edges_view().no_duplicates()
        &&& forall|i: int| 0 <= i < self.edges_view().len() ==> (#[trigger] self.edges_view()[i]).0 != self.edges_view()[i].1
    }

    /// Construct an empty dependency graph.
    pub fn new() -> (g: DepGraph)
        ensures
            g.edges_view() == Seq::<EdgeView>::empty(),
            g.edge_set() == Set::<EdgeView>::empty(),
    {
        let g = DepGraph { edges: Vec::new() };
        assert(g.edges_view() =~= Seq::<EdgeView>::empty());
        assert(g.edge_set() =~= Set::<EdgeView>::empty());
        g
    }

    /// Position of the edge `(consumer, producer)`, if present.
    fn edge_index(&self, consumer: &AssetId, producer: &AssetId) -> (r: Option<usize>)
        ensures
            match r {
                Some(i) => i < self.edges_view().len() && self.edges_view()[i as int] == (consumer@, producer@),
                None => !self.edge_set().contains((consumer@, producer@)),
            },
    {
        let mut i: usize = 0;
        while i < self.edges.len()
            invariant
                0 <= i <= self.edges@.len(),
                forall|j: int| 0 <= j < i ==> self.edges_view()[j] != (consumer@, producer@),
            decreases self.edges@.len() - i,
        {
            let a = self.edges[i].0.same_as(consumer);
            let b = self.edges[i].1.same_as(producer);
            assert(self.edges_view()[i as int] == (self.edges@[i as int].0@, self.edges@[i as int].1@));
            if a && b {
                return Some(i);
            }
            i = i + 1;
        }
        None
    }

    /// Record that `consumer` depends on `producer`. Idempotent.
    ///
    /// Errors with [`DepError::SelfEdge`] when `consumer == producer`, and
    /// then leaves the graph unchanged.
    pub fn add_edge(&mut self, consumer: AssetId, producer: AssetId) -> (r: Result<(), DepError>)
        ensures
            consumer@ == producer@ ==> r == Err::<(), DepError>(DepError::SelfEdge(consumer)) && final(self).edges_view() == old(self).edges_view(),
            consumer@ != producer@ ==> r is Ok && final(self).edge_set() == old(self).edge_set().insert((consumer@, producer@)),
            consumer@ != producer@ && old(self).edge_set().contains((consumer@, producer@)) ==> final(self).edges_view() == old(self).edges_view(),
            consumer@ != producer@ && !old(self).edge_set().contains((consumer@, producer@)) ==> final(self).edges_view() == old(self).edges_view().push((consumer@, producer@)),
    {
        if consumer.same_as(&producer) {
            return Err(DepError::SelfEdge(consumer));
        }
        proof { use_type_invariant(&*self); }
        match self.edge_index(&consumer, &producer) {
            Some(_) => {
                proof {
                    assert(self.edge_set() =~= self.edge_set().insert((consumer@, producer@)));
                }
                Ok(())
            },
            None => {
                let ghost before = self.edges_view();
                let mut edges: Vec<(AssetId, AssetId)> = Vec::new();
                std::mem::swap(&mut edges, &mut self.edges);
                edges.push((consumer, producer));
                proof {
                    let after = edge_views(edges@);
                    assert(after =~= before.push((consumer@, producer@)));
                    assert(!before.contains((consumer@, producer@)));
                    assert(after.no_duplicates());
                    before.lemma_push_to_set_commute((consumer@, producer@));
                }
                self.edges = edges;
                Ok(())
            },
        }
    }

    /// Remove the edge `(consumer, producer)`; no-op if absent.
    pub fn remove_edge(&mut self, consumer: AssetId, producer: AssetId)
        ensures
            final(self).edge_set() == old(self).edge_set().remove((consumer@, producer@)),
            final(self).edges_view().len() == old(self).edges_view().len()
                - (if old(self).edge_set().contains((consumer@, producer@)) { 1int } else { 0int }),
    {
        proof { use_type_invariant(&*self); }
        match self.edge_index(&consumer, &producer) {
            Some(i) => {
                let ghost before = self.edges_view();
                let mut edges: Vec<(AssetId, AssetId)> = Vec::new();
                std::mem::swap(&mut edges, &mut self.edges);
                edges.remove(i);
                proof {
                    let after = edge_views(edges@);
                    assert(after =~= before.remove(i as int));
                    assert(after.no_duplicates());
                    assert forall|e: EdgeView| after.to_set().contains(e) <==> before.to_set().remove((consumer@, producer@)).contains(e) by {
                        if after.contains(e) {
                            let k = choose|k: int| 0 <= k < after.len() && after[k] == e;
                            if k < i {
                                assert(before[k] == e);
                            } else {
                                assert(before[k + 1] == e);
                            }
                        }
                        if before.contains(e) && e != (consumer@, producer@) {
                            let k = choose|k: int| 0 <= k < before.len() && before[k] == e;
                            if k < i {
                                assert(after[k] == e);
                            } else {
                                assert(k != i);
                                assert(after[k - 1] == e);
                            }
                        }
                    }
                    assert(after.to_set() =~= before.to_set().remove((consumer@, producer@)));
                }
                self.edges = edges;
            },
            None => {
                proof {
                    assert(self.edge_set() =~= self.edge_set().remove((consumer@, producer@)));
                }
            },
        }
    }

    /// Every endpoint of every edge, once each.
    fn endpoints(&self) -> (nodes: Vec<AssetId>)
        ensures
            id_views(nodes@).no_duplicates(),
            forall|e: EdgeView| self.edge_set().contains(e) ==> id_views(nodes@).contains(e.0) && id_views(nodes@).contains(e.1),
    {
        let mut nodes: Vec<AssetId> = Vec::new();
        let mut i: usize = 0;
        while i < self.edges.len()
            invariant
                0 <= i <= self.edges@.len(),
                id_views(nodes@).no_duplicates(),
                forall|j: int| 0 <= j < i ==> id_views(nodes@).contains((#[trigger] self.edges_view()[j]).0) && id_views(nodes@).contains(self.edges_view()[j].1),
            decreases self.edges@.len() - i,
        {
            let e = self.edges[i];
            assert(self.edges_view()[i as int] == (e.0@, e.1@));
            add_unique(&mut nodes, e.0);
            add_unique(&mut nodes, e.1);
            i = i + 1;
        }
        proof {
            assert forall|e: EdgeView| self.edge_set().contains(e) implies id_views(nodes@).contains(e.0) && id_views(nodes@).contains(e.1) by {
                let j = choose|j: int| 0 <= j < self.edges_view().len() && self.edges_view()[j] == e;
                assert(self.edges_view()[j] == e);
            }
        }
        nodes
    }

    /// Mark every successor (in the given direction) of node `x` that is not
    /// marked yet, and push it on the work stack.
    fn expand(
        &self,
        x: &AssetId,
        start: Ghost<Seq<u8>>,
        forward: bool,
        nodes: &Vec<AssetId>,
        vis: &mut Vec<bool>,
        stack: &mut Vec<usize>,
    )
        requires
            old(vis)@.len() == nodes@.len(),
            id_views(nodes@).no_duplicates(),
            forall|e: EdgeView| self.edge_set().contains(e) ==> id_views(nodes@).contains(e.0) && id_views(nodes@).contains(e.1),
            x@ == start@ || reaches(self.edge_set(), forward, start@, x@),
            forall|k: int| 0 <= k < nodes@.len() && old(vis)@[k] ==> reaches(self.edge_set(), forward, start@, #[trigger] id_views(nodes@)[k]),
            old(stack)@.no_duplicates(),
            forall|t: int| 0 <= t < old(stack)@.len() ==> (#[trigger] old(stack)@[t]) < nodes@.len() && old(vis)@[old(stack)@[t] as int],
        ensures
            final(vis)@.len() == nodes@.len(),
            forall|k: int| 0 <= k < nodes@.len() && old(vis)@[k] ==> final(vis)@[k],
            forall|k: int| 0 <= k < nodes@.len() && final(vis)@[k] ==> reaches(self.edge_set(), forward, start@, #[trigger] id_views(nodes@)[k]),
            forall|k: int| 0 <= k < nodes@.len() && step(self.edge_set(), forward, x@, #[trigger] id_views(nodes@)[k]) ==> final(vis)@[k],
            final(stack)@.len() >= old(stack)@.len(),
            final(stack)@.subrange(0, old(stack)@.len() as int) == old(stack)@,
            forall|t: int| old(stack)@.len() <= t < final(stack)@.len() ==> !old(vis)@[#[trigger] final(stack)@[t] as int],
            forall|k: int| 0 <= k < nodes@.len() && final(vis)@[k] && !old(vis)@[k] ==> final(stack)@.contains(k as usize),
            final(stack)@.no_duplicates(),
            forall|t: int| 0 <= t < final(stack)@.len() ==> (#[trigger] final(stack)@[t]) < nodes@.len() && final(vis)@[final(stack)@[t] as int],
            count_true(final(vis)@) == count_true(old(vis)@) + (final(stack)@.len() - old(stack)@.len()),
    {
        proof { use_type_invariant(self); }
        let ghost ns = id_views(nodes@);
        let ghost vis0 = vis@;
        let ghost stack0 = stack@;
        let ghost es = self.edges_view();
        let mut j: usize = 0;
        while j < self.edges.len()
            invariant
                0 <= j <= self.edges@.len(),
                es == self.edges_view(),
                ns == id_views(nodes@),
                ns.no_duplicates(),
                vis@.len() == ns.len(),
                forall|e: EdgeView| self.edge_set().contains(e) ==> ns.contains(e.0) && ns.contains(e.1),
                x@ == start@ || reaches(self.edge_set(), forward, start@, x@),
                forall|k: int| 0 <= k < ns.len() && vis0[k] ==> vis@[k],
                forall|k: int| 0 <= k < ns.len() && vis@[k] ==> reaches(self.edge_set(), forward, start@, #[trigger] ns[k]),
                forall|jj: int, k: int| 0 <= jj < j && 0 <= k < ns.len() && edge_steps(#[trigger] es[jj], forward, x@, #[trigger] ns[k]) ==> vis@[k],
                stack@.len() >= stack0.len(),
                stack@.subrange(0, stack0.len() as int) == stack0,
                forall|t: int| stack0.len() <= t < stack@.len() ==> !vis0[#[trigger] stack@[t] as int],
                forall|k: int| 0 <= k < ns.len() && vis@[k] && !vis0[k] ==> stack@.contains(k as usize),
                stack@.no_duplicates(),
                forall|t: int| 0 <= t < stack@.len() ==> (#[trigger] stack@[t]) < ns.len() && vis@[stack@[t] as int],
                count_true(vis@) == count_true(vis0) + (stack@.len() - stack0.len()),
            decreases self.edges@.len() - j,
        {
            let e = self.edges[j];
            assert(es[j as int] == (e.0@, e.1@));
            let (from, to) = if forward { (e.0, e.1) } else { (e.1, e.0) };
            if from.same_as(x) {
                assert(self.edge_set().contains(es[j as int]));
                assert(step(self.edge_set(), forward, x@, to@));
                let k = match position(nodes, &to) {
                    Some(k) => k,
                    None => {
                        proof { assert(ns.contains(to@)); }
                        return;
                    },
                };
                if !vis[k] {
                    proof {
                        if x@ == start@ {
                            lemma_one_step(self.edge_set(), forward, start@, to@);
                        } else {
                            lemma_walk_extend(self.edge_set(), forward, start@, x@, to@);
                        }
                        lemma_count_true_set(vis@, k as int);
                    }
                    let ghost sprev = stack@;
                    vis.set(k, true);
                    stack.push(k);
                    proof {
                        assert(!sprev.contains(k)) by {
                            if sprev.contains(k) {
                                let t = choose|t: int| 0 <= t < sprev.len() && sprev[t] == k;
                                assert(vis@[k as int]);
                            }
                        }
                        assert(stack@.subrange(0, stack0.len() as int) =~= sprev.subrange(0, stack0.len() as int));
                        assert forall|a: int, b: int| 0 <= a < stack@.len() && 0 <= b < stack@.len() && a != b implies stack@[a] != stack@[b] by {
                            if a == sprev.len() {
                                assert(sprev.contains(stack@[b]));
                            } else if b == sprev.len() {
                                assert(sprev.contains(stack@[a]));
                            }
                        }
                        assert forall|kk: int| 0 <= kk < ns.len() && vis@[kk] && !vis0[kk] implies stack@.contains(kk as usize) by {
                            if kk != k {
                                let t = choose|t: int| 0 <= t < sprev.len() && sprev[t] == kk as usize;
                                assert(stack@[t] == kk as usize);
                            } else {
                                assert(stack@[sprev.len() as int] == k);
                            }
                        }
                        assert(!vis0[k as int]);
                    }
                }
                proof {
                    assert forall|jj: int, kk: int| 0 <= jj < j + 1 && 0 <= kk < ns.len() && edge_steps(#[trigger] es[jj], forward, x@, #[trigger] ns[kk]) implies vis@[kk] by {
                        if jj == j {
                            assert(ns[kk] == to@);
                            assert(ns[k as int] == to@);
                            assert(kk == k);
                        }
                    }
                }
            } else {
                proof {
                    assert forall|jj: int, kk: int| 0 <= jj < j + 1 && 0 <= kk < ns.len() && edge_steps(#[trigger] es[jj], forward, x@, #[trigger] ns[kk]) implies vis@[kk] by {
                        if jj == j {
                            assert(from@ != x@);
                        }
                    }
                }
            }
            j = j + 1;
        }
        proof {
            assert forall|k: int| 0 <= k < ns.len() && step(self.edge_set(), forward, x@, #[trigger] ns[k]) implies vis@[k] by {
                let e = if forward { (x@, ns[k]) } else { (ns[k], x@) };
                assert(self.edge_set().contains(e));
                let jj = choose|jj: int| 0 <= jj < es.len() && es[jj] == e;
                assert(edge_steps(es[jj], forward, x@, ns[k]));
            }
        }
    }

    /// Every node, with a flag telling whether it can be reached from
    /// `start` in one or more steps in the given direction.
    /// Every node, with a flag telling whether it can be reached from
    /// `start` in one or more steps in the given direction.
    fn walk(&self, start: &AssetId, forward: bool) -> (r: (Vec<AssetId>, Vec<bool>))
        ensures
            r.0@.len() == r.1@.len(),
            id_views(r.0@).no_duplicates(),
            forall|k: int| 0 <= k < r.0@.len() ==> (r.1@[k] <==> reaches(self.edge_set(), forward, start@, #[trigger] id_views(r.0@)[k])),
            forall|id: Seq<u8>| reaches(self.edge_set(), forward, start@, id) ==> id_views(r.0@).contains(id),
    {
        let nodes = self.endpoints();
        let ghost ns = id_views(nodes@);
        let n = nodes.len();
        let mut vis = all_false(n);
        let mut stack: Vec<usize> = Vec::new();
        proof {
            assert(stack@.no_duplicates());
        }
        self.expand(start, Ghost(start@), forward, &nodes, &mut vis, &mut stack);
        proof {
            lemma_count_true_bound(vis@);
        }
        while stack.len() > 0
            invariant
                n == nodes@.len(),
                ns == id_views(nodes@),
                ns.no_duplicates(),
                vis@.len() == n,
                forall|e: EdgeView| self.edge_set().contains(e) ==> ns.contains(e.0) && ns.contains(e.1),
                forall|k: int| 0 <= k < n && vis@[k] ==> reaches(self.edge_set(), forward, start@, #[trigger] ns[k]),
                forall|k: int| 0 <= k < n && step(self.edge_set(), forward, start@, #[trigger] ns[k]) ==> vis@[k],
                closed_except(self.edge_set(), forward, ns, vis@, stack@),
                stack@.no_duplicates(),
                forall|t: int| 0 <= t < stack@.len() ==> (#[trigger] stack@[t]) < n && vis@[stack@[t] as int],
                count_true(vis@) <= n,
            decreases 2 * (n - count_true(vis@)) + stack@.len(),
        {
            let ghost vis_before = vis@;
            let ghost stack_before = stack@;
            let xi = stack.pop().unwrap();
            let ghost stack_popped = stack@;
            proof {
                lemma_pop_facts(stack_before, stack_popped, xi, vis@, n as int);
            }
            let x = nodes[xi];
            assert(ns[xi as int] == x@);
            self.expand(&x, Ghost(start@), forward, &nodes, &mut vis, &mut stack);
            proof {
                lemma_count_true_bound(vis@);
                assert(n <= usize::MAX);
                lemma_closed_after_expand(
                    self.edge_set(), forward, ns, vis_before, vis@, stack_before, stack_popped, stack@, xi as int,
                );
            }
        }
        proof {
            assert(stack@ =~= Seq::<usize>::empty());
            lemma_walk_complete(self.edge_set(), forward, start@, ns, vis@);
        }
        (nodes, vis)
    }

    /// Collect, sorted, the nodes whose flag is set.
    fn sorted_marked(nodes: &Vec<AssetId>, vis: &Vec<bool>) -> (out: Vec<AssetId>)
        requires
            nodes@.len() == vis@.len(),
            id_views(nodes@).no_duplicates(),
        ensures
            sorted_ids(id_views(out@)),
            forall|id: Seq<u8>| id_views(out@).contains(id) <==> (exists|k: int| 0 <= k < nodes@.len() && vis@[k] && #[trigger] id_views(nodes@)[k] == id),
    {
        let ghost ns = id_views(nodes@);
        let mut out: Vec<AssetId> = Vec::new();
        let mut i: usize = 0;
        while i < nodes.len()
            invariant
                0 <= i <= nodes@.len(),
                nodes@.len() == vis@.len(),
                ns == id_views(nodes@),
                ns.no_duplicates(),
                sorted_ids(id_views(out@)),
                forall|id: Seq<u8>| id_views(out@).contains(id) <==> (exists|k: int| 0 <= k < i && vis@[k] && #[trigger] ns[k] == id),
            decreases nodes@.len() - i,
        {
            if vis[i] {
                proof {
                    assert(!id_views(out@).contains(ns[i as int])) by {
                        if id_views(out@).contains(ns[i as int]) {
                            let k = choose|k: int| 0 <= k < i && vis@[k] && #[trigger] ns[k] == ns[i as int];
                        }
                    }
                }
                insert_sorted(&mut out, nodes[i]);
                proof {
                    assert forall|id: Seq<u8>| id_views(out@).contains(id) <==> (exists|k: int| 0 <= k < i + 1 && vis@[k] && #[trigger] ns[k] == id) by {
                        if id == ns[i as int] {
                            assert(vis@[i as int] && ns[i as int] == id);
                        }
                    }
                }
            } else {
                proof {
                    assert forall|id: Seq<u8>| id_views(out@).contains(id) <==> (exists|k: int| 0 <= k < i + 1 && vis@[k] && #[trigger] ns[k] == id) by {
                        if exists|k: int| 0 <= k < i + 1 && vis@[k] && #[trigger] ns[k] == id {
                            let k = choose|k: int| 0 <= k < i + 1 && vis@[k] && #[trigger] ns[k] == id;
                            assert(k != i);
                        }
                    }
                }
            }
            i = i + 1;
        }
        out
    }

    fn closure_in(&self, start: &AssetId, forward: bool) -> (r: Result<Vec<AssetId>, DepError>)
        ensures
            reaches(self.edge_set(), forward, start@, start@) ==> r == Err::<Vec<AssetId>, DepError>(DepError::Cycle(*start)),
            !reaches(self.edge_set(), forward, start@, start@) ==> r is Ok && lists_exactly(
                id_views(r->Ok_0@),
                |id: Seq<u8>| reaches(self.edge_set(), forward, start@, id),
            ),
    {
        let (nodes, vis) = self.walk(start, forward);
        match position(&nodes, start) {
            Some(si) => {
                if vis[si] {
                    return Err(DepError::Cycle(*start));
                }
            },
            None => {},
        }
        let out = Self::sorted_marked(&nodes, &vis);
        proof {
            assert forall|id: Seq<u8>| id_views(out@).contains(id) <==> reaches(self.edge_set(), forward, start@, id) by {
                if reaches(self.edge_set(), forward, start@, id) {
                    assert(id_views(nodes@).contains(id));
                    let k = choose|k: int| 0 <= k < id_views(nodes@).len() && id_views(nodes@)[k] == id;
                    assert(vis@[k]);
                }
            }
        }
        Ok(out)
    }

    /// All assets transitively reachable from `consumer` along
    /// "depends on" edges, sorted by id; `consumer` itself is not included.
    ///
    /// Errors with [`DepError::Cycle`] naming `consumer` exactly when
    /// `consumer` depends on itself transitively.
    pub fn transitive_closure(&self, consumer: &AssetId) -> (r: Result<Vec<AssetId>, DepError>)
        ensures
            reaches(self.edge_set(), true, consumer@, consumer@) ==> r == Err::<Vec<AssetId>, DepError>(DepError::Cycle(*consumer)),
            !reaches(self.edge_set(), true, consumer@, consumer@) ==> r is Ok && lists_exactly(
                id_views(r->Ok_0@),
                |id: Seq<u8>| reaches(self.edge_set(), true, consumer@, id),
            ),
    {
        self.closure_in(consumer, true)
    }

    /// All assets that transitively depend on `producer` (the invalidation
    /// cascade), sorted by id; `producer` itself is not included.
    ///
    /// Errors with [`DepError::Cycle`] when a cycle is reachable from
    /// `producer` along "is used by" edges: naming `producer` when the
    /// cycle runs through it, otherwise the least asset of the cascade
    /// that lies on a cycle.
    pub fn invalidation_cascade(&self, producer: &AssetId) -> (r: Result<Vec<AssetId>, DepError>)
        ensures
            reaches(self.edge_set(), false, producer@, producer@) ==> r == Err::<Vec<AssetId>, DepError>(
                DepError::Cycle(*producer),
            ),
            !reaches(self.edge_set(), false, producer@, producer@) && cycle_downstream(self.edge_set(), producer@)
                ==> (r matches Err(DepError::Cycle(x)) && least_on_cycle(self.edge_set(), producer@, x@)),
            !reaches(self.edge_set(), false, producer@, producer@) && !cycle_downstream(self.edge_set(), producer@)
                ==> r is Ok && lists_exactly(
                id_views(r->Ok_0@),
                |id: Seq<u8>| reaches(self.edge_set(), false, producer@, id),
            ),
    {
        let out = match self.closure_in(producer, false) {
            Err(e) => {
                return Err(e);
            },
            Ok(v) => v,
        };
        let ghost e = self.edge_set();
        let ghost ov = id_views(out@);
        proof {
            assert(lists_exactly(ov, |id: Seq<u8>| reaches(e, false, producer@, id)));
            assert forall|id: Seq<u8>| ov.contains(id) <==> reaches(e, false, producer@, id) by {
                assert(ov.contains(id) <==> (|id: Seq<u8>| reaches(e, false, producer@, id))(id));
            }
        }
        let mut i: usize = 0;
        while i < out.len()
            invariant
                0 <= i <= out@.len(),
                e == self.edge_set(),
                !reaches(e, false, producer@, producer@),
                ov == id_views(out@),
                sorted_ids(ov),
                forall|id: Seq<u8>| ov.contains(id) <==> reaches(e, false, producer@, id),
                forall|k: int| 0 <= k < i ==> !reaches(e, false, #[trigger] ov[k], ov[k]),
            decreases out@.len() - i,
        {
            let x = out[i];
            assert(ov[i as int] == x@);
            if self.closure_in(&x, false).is_err() {
                proof {
                    assert(ov.contains(x@));
                    assert forall|y: Seq<u8>| reaches(e, false, producer@, y) && reaches(e, false, y, y) implies !lex_lt(y, x@) by {
                        assert(ov.contains(y));
                        let k = choose|k: int| 0 <= k < ov.len() && ov[k] == y;
                        if k > i {
                            assert(lex_lt(ov[i as int], ov[k]));
                            lemma_lex_asymmetric(x@, y);
                        } else if k == i {
                            lemma_lex_irreflexive(y);
                        }
                    }
                }
                return Err(DepError::Cycle(x));
            }
            i = i + 1;
        }
        proof {
            assert(!cycle_downstream(e, producer@)) by {
                if cycle_downstream(e, producer@) {
                    let y = choose|y: Seq<u8>| reaches(e, false, producer@, y) && reaches(e, false, y, y);
                    assert(ov.contains(y));
                    let k = choose|k: int| 0 <= k < ov.len() && ov[k] == y;
                    assert(!reaches(e, false, ov[k], ov[k]));
                }
            }
        }
        Ok(out)
    }

    fn direct_in(&self, node: &AssetId, forward: bool) -> (out: Vec<AssetId>)
        ensures
            lists_exactly(id_views(out@), |id: Seq<u8>| step(self.edge_set(), forward, node@, id)),
    {
        proof { use_type_invariant(self); }
        let ghost es = self.edges_view();
        let mut out: Vec<AssetId> = Vec::new();
        let mut j: usize = 0;
        while j < self.edges.len()
            invariant
                0 <= j <= self.edges@.len(),
                es == self.edges_view(),
                es.no_duplicates(),
                sorted_ids(id_views(out@)),
                forall|id: Seq<u8>| id_views(out@).contains(id) <==> (exists|jj: int| 0 <= jj < j && edge_steps(#[trigger] es[jj], forward, node@, id)),
            decreases self.edges@.len() - j,
        {
            let e = self.edges[j];
            assert(es[j as int] == (e.0@, e.1@));
            let (from, to) = if forward { (e.0, e.1) } else { (e.1, e.0) };
            if from.same_as(node) {
                proof {
                    assert(edge_steps(es[j as int], forward, node@, to@));
                    assert(!id_views(out@).contains(to@)) by {
                        if id_views(out@).contains(to@) {
                            let jj = choose|jj: int| 0 <= jj < j && edge_steps(#[trigger] es[jj], forward, node@, to@);
                            assert(es[jj] == es[j as int]);
                        }
                    }
                }
                insert_sorted(&mut out, to);
                proof {
                    assert forall|id: Seq<u8>| id_views(out@).contains(id) <==> (exists|jj: int| 0 <= jj < j + 1 && edge_steps(#[trigger] es[jj], forward, node@, id)) by {
                        if id == to@ {
                            assert(edge_steps(es[j as int], forward, node@, id));
                        }
                        if exists|jj: int| 0 <= jj < j + 1 && edge_steps(#[trigger] es[jj], forward, node@, id) {
                            let jj = choose|jj: int| 0 <= jj < j + 1 && edge_steps(#[trigger] es[jj], forward, node@, id);
                            if jj == j {
                                assert(id == to@);
                            }
                        }
                    }
                }
            } else {
                proof {
                    assert forall|id: Seq<u8>| id_views(out@).contains(id) <==> (exists|jj: int| 0 <= jj < j + 1 && edge_steps(#[trigger] es[jj], forward, node@, id)) by {
                        if exists|jj: int| 0 <= jj < j + 1 && edge_steps(#[trigger] es[jj], forward, node@, id) {
                            let jj = choose|jj: int| 0 <= jj < j + 1 && edge_steps(#[trigger] es[jj], forward, node@, id);
                            assert(jj != j);
                        }
                    }
                }
            }
            j = j + 1;
        }
        proof {
            assert forall|id: Seq<u8>| id_views(out@).contains(id) <==> step(self.edge_set(), forward, node@, id) by {
                if step(self.edge_set(), forward, node@, id) {
                    let e = if forward { (node@, id) } else { (id, node@) };
                    let jj = choose|jj: int| 0 <= jj < es.len() && es[jj] == e;
                    assert(edge_steps(es[jj], forward, node@, id));
                }
                if id_views(out@).contains(id) {
                    let jj = choose|jj: int| 0 <= jj < es.len() && edge_steps(#[trigger] es[jj], forward, node@, id);
                    assert(self.edge_set().contains(es[jj]));
                }
            }
        }
        out
    }

    /// The assets that `consumer` directly depends on, sorted by id.
    pub fn direct_dependencies(&self, consumer: &AssetId) -> (out: Vec<AssetId>)
        ensures
            lists_exactly(id_views(out@), |id: Seq<u8>| self.edge_set().contains((consumer@, id))),
    {
        let out = self.direct_in(consumer, true);
        proof {
            let f = |id: Seq<u8>| step(self.edge_set(), true, consumer@, id);
            let g = |id: Seq<u8>| self.edge_set().contains((consumer@, id));
            assert(f =~= g);
        }
        out
    }

    /// The assets that directly depend on `producer`, sorted by id.
    pub fn direct_dependents(&self, producer: &AssetId) -> (out: Vec<AssetId>)
        ensures
            lists_exactly(id_views(out@), |id: Seq<u8>| self.edge_set().contains((id, producer@))),
    {
        let out = self.direct_in(producer, false);
        proof {
            let f = |id: Seq<u8>| step(self.edge_set(), false, producer@, id);
            let g = |id: Seq<u8>| self.edge_set().contains((id, producer@));
            assert(f =~= g);
        }
        out
    }

    /// Total number of edges.
    pub fn edge_count(&self) -> (n: usize)
        ensures
            n == self.edge_set().len(),
            n == self.edges_view().len(),
    {
        proof {
            use_type_invariant(self);
            self.edges_view().unique_seq_to_set();
        }
        self.edges.len()
    }

    /// Whether the graph has no edge.
    pub fn is_empty(&self) -> (b: bool)
        ensures
            b == (self.edge_set().len() == 0),
    {
        self.edge_count() == 0
    }

    /// Drop every edge that mentions `id`, as consumer or producer.
    pub fn forget(&mut self, id: &AssetId)
        ensures
            final(self).edge_set() == old(self).edge_set().filter(|e: EdgeView| e.0 != id@ && e.1 != id@),
    {
        proof { use_type_invariant(&*self); }
        let ghost before = self.edges_view();
        let mut kept: Vec<(AssetId, AssetId)> = Vec::new();
        let mut i: usize = 0;
        while i < self.edges.len()
            invariant
                0 <= i <= self.edges@.len(),
                before == self.edges_view(),
                before.no_duplicates(),
                forall|k: int| 0 <= k < before.len() ==> (#[trigger] before[k]).0 != before[k].1,
                forall|e: EdgeView| edge_views(kept@).contains(e) <==> (before.take(i as int).contains(e) && e.0 != id@ && e.1 != id@),
                edge_views(kept@).no_duplicates(),
                forall|k: int| 0 <= k < edge_views(kept@).len() ==> (#[trigger] edge_views(kept@)[k]).0 != edge_views(kept@)[k].1,
            decreases self.edges@.len() - i,
        {
            let e = self.edges[i];
            let ghost ev = (e.0@, e.1@);
            assert(before[i as int] == ev);
            let mentions = e.0.same_as(id) || e.1.same_as(id);
            let ghost k0 = edge_views(kept@);
            if !mentions {
                kept.push(e);
            }
            proof {
                assert(before.take(i + 1) =~= before.take(i as int).push(ev));
                let k1 = edge_views(kept@);
                if !mentions {
                    assert(k1 =~= k0.push(ev));
                    assert(!before.take(i as int).contains(ev)) by {
                        if before.take(i as int).contains(ev) {
                            let t = choose|t: int| 0 <= t < i && #[trigger] before.take(i as int)[t] == ev;
                            assert(before[t] == before[i as int]);
                        }
                    }
                    assert(!k0.contains(ev));
                    assert forall|a: int, b: int| 0 <= a < k1.len() && 0 <= b < k1.len() && a != b implies k1[a] != k1[b] by {
                        if a == k0.len() {
                            assert(k0.contains(k1[b]));
                        } else if b == k0.len() {
                            assert(k0.contains(k1[a]));
                        }
                    }
                } else {
                    assert(k1 == k0);
                }
                assert(mentions == (ev.0 == id@ || ev.1 == id@));
                assert forall|e2: EdgeView| k1.contains(e2) <==> (before.take(i + 1).contains(e2) && e2.0 != id@ && e2.1 != id@) by {
                    if k1.contains(e2) {
                        if k0.contains(e2) {
                            assert(before.take(i as int).contains(e2));
                            let t = choose|t: int| 0 <= t < i && #[trigger] before.take(i as int)[t] == e2;
                            assert(before.take(i + 1)[t] == e2);
                        } else {
                            let t = choose|t: int| 0 <= t < k1.len() && k1[t] == e2;
                            assert(t == k0.len());
                            assert(e2 == ev);
                            assert(before.take(i + 1)[i as int] == e2);
                        }
                    }
                    if before.take(i + 1).contains(e2) && e2.0 != id@ && e2.1 != id@ {
                        let t = choose|t: int| 0 <= t < i + 1 && #[trigger] before.take(i + 1)[t] == e2;
                        if t < i {
                            assert(before.take(i as int)[t] == e2);
                            assert(k0.contains(e2));
                            let u = choose|u: int| 0 <= u < k0.len() && k0[u] == e2;
                            assert(k1[u] == e2);
                        } else {
                            assert(e2 == ev);
                            assert(k1[k0.len() as int] == e2);
                        }
                    }
                }
            }
            i = i + 1;
        }
        proof {
            assert(before.take(i as int) =~= before);
            assert(edge_views(kept@).to_set() =~= before.to_set().filter(|e: EdgeView| e.0 != id@ && e.1 != id@));
        }
        self.edges = kept;
    }
}

} // verus!
