//! Recency bookkeeping shared by the caches: records with an id, a size and
//! a last-touch tick; least-recently-used eviction order; and the
//! sequence facts that eviction proofs rest on.

use vstd::prelude::*;

use crate::asset_id::{lemma_lex_asymmetric, lemma_lex_irreflexive, lemma_lex_total, lemma_lex_transitive, lex_lt};

verus! {

/// A record that takes part in least-recently-used eviction.
pub trait Recency {
    /// The record's id (distinct within a cache).
    spec fn key(&self) -> Seq<u8>;

    /// The number of bytes the record accounts for.
    spec fn weight(&self) -> nat;

    /// The tick of the record's last touch.
    spec fn stamp(&self) -> u64;
}

/// Sum of the payload sizes of a sequence of entries.
/// Ids strictly ascending in lexicographic byte order.
pub open spec fn keys_sorted<E: Recency>(s: Seq<E>) -> bool {
    forall|i: int, j: int| 0 <= i < j < s.len() ==> lex_lt((#[trigger] s[i]).key(), (#[trigger] s[j]).key())
}

pub proof fn lemma_sorted_distinct<E: Recency>(s: Seq<E>)
    requires
        keys_sorted(s),
    ensures
        ids_distinct(s),
{
    assert forall|i: int, j: int| 0 <= i < s.len() && 0 <= j < s.len() && i != j implies (#[trigger] s[i]).key() != (#[trigger] s[j]).key() by {
        if i < j {
            lemma_lex_irreflexive(s[i].key());
        } else {
            assert(lex_lt(s[j].key(), s[i].key()));
            lemma_lex_irreflexive(s[j].key());
        }
    }
}

pub open spec fn total_bytes<E: Recency>(s: Seq<E>) -> nat
    decreases s.len(),
{
    if s.len() == 0 {
        0
    } else {
        total_bytes(s.drop_last()) + s.last().weight()
    }
}

/// Whether some entry carries this id.
pub open spec fn has_id<E: Recency>(s: Seq<E>, id: Seq<u8>) -> bool {
    exists|i: int| 0 <= i < s.len() && (#[trigger] s[i]).key() == id
}

/// No two entries share an id.
pub open spec fn ids_distinct<E: Recency>(s: Seq<E>) -> bool {
    forall|i: int, j: int| 0 <= i < s.len() && 0 <= j < s.len() && i != j ==> (#[trigger] s[i]).key() != (#[trigger] s[j]).key()
}

/// Eviction order: `a` is less recently used than `b`; ties on the tick are
/// broken by id order.
pub open spec fn older<E: Recency>(a: E, b: E) -> bool {
    a.stamp() < b.stamp() || (a.stamp() == b.stamp() && lex_lt(a.key(), b.key()))
}

/// The entries of `s`, in order, leaving out those whose id is in `gone`.
pub open spec fn without_ids<E: Recency>(s: Seq<E>, gone: Set<Seq<u8>>) -> Seq<E>
    decreases s.len(),
{
    if s.len() == 0 {
        s
    } else {
        let rest = without_ids(s.drop_last(), gone);
        if gone.contains(s.last().key()) {
            rest
        } else {
            rest.push(s.last())
        }
    }
}

/// Ids present in `before` and absent from `after`.
pub open spec fn dropped_ids<E: Recency>(before: Seq<E>, after: Seq<E>) -> Set<Seq<u8>> {
    Set::new(|id: Seq<u8>| has_id(before, id) && !has_id(after, id))
}

/// What eviction to `max` leaves of `before`: `after` is `before` without the
/// dropped entries, fits in `max`, every dropped entry is older than every
/// kept one, and the youngest dropped entry was needed to get under `max`.
pub open spec fn evicted_to<E: Recency>(before: Seq<E>, after: Seq<E>, max: nat) -> bool {
    &&& after == without_ids(before, dropped_ids(before, after))
    &&& total_bytes(after) <= max
    &&& (total_bytes(before) <= max ==> after == before)
    &&& forall|i: int, j: int|
        0 <= i < before.len() && 0 <= j < before.len() && !has_id(after, (#[trigger] before[i]).key())
            && has_id(after, (#[trigger] before[j]).key()) ==> older(before[i], before[j])
    &&& forall|i: int|
        0 <= i < before.len() && !has_id(after, (#[trigger] before[i]).key()) && (forall|j: int|
            0 <= j < before.len() && j != i && !has_id(after, (#[trigger] before[j]).key()) ==> older(
                before[j],
                before[i],
            )) ==> total_bytes(after) + before[i].weight() > max
}

// ---------------------------------------------------------------------------
// Lemmas over entry sequences
// ---------------------------------------------------------------------------

pub proof fn lemma_total_bytes_remove<E: Recency>(s: Seq<E>, m: int)
    requires
        0 <= m < s.len(),
    ensures
        total_bytes(s.remove(m)) + s[m].weight() == total_bytes(s),
    decreases s.len(),
{
    if m == s.len() - 1 {
        assert(s.remove(m) =~= s.drop_last());
    } else {
        lemma_total_bytes_remove(s.drop_last(), m);
        assert(s.remove(m).drop_last() =~= s.drop_last().remove(m));
        assert(s.remove(m).last() == s.last());
    }
}

pub proof fn lemma_total_bytes_push<E: Recency>(s: Seq<E>, e: E)
    ensures
        total_bytes(s.push(e)) == total_bytes(s) + e.weight(),
{
    assert(s.push(e).drop_last() =~= s);
}

pub proof fn lemma_total_bytes_update_same_size<E: Recency>(s: Seq<E>, m: int, e: E)
    requires
        0 <= m < s.len(),
        e.weight() == s[m].weight(),
    ensures
        total_bytes(s.update(m, e)) == total_bytes(s),
{
    lemma_total_bytes_remove(s, m);
    lemma_total_bytes_remove(s.update(m, e), m);
    assert(s.update(m, e).remove(m) =~= s.remove(m));
}

pub proof fn lemma_total_bytes_bound<E: Recency>(s: Seq<E>, bound: nat)
    requires
        forall|i: int| 0 <= i < s.len() ==> (#[trigger] s[i]).weight() <= bound,
    ensures
        total_bytes(s) <= s.len() * bound,
    decreases s.len(),
{
    if s.len() > 0 {
        lemma_total_bytes_bound(s.drop_last(), bound);
        assert(total_bytes(s) <= (s.len() - 1) * bound + bound);
        assert((s.len() - 1) * bound + bound == s.len() * bound) by (nonlinear_arith);
    }
}

pub proof fn lemma_total_bytes_positive<E: Recency>(s: Seq<E>)
    requires
        total_bytes(s) > 0,
    ensures
        s.len() > 0,
{
}

pub proof fn lemma_without_ids_has_id<E: Recency>(s: Seq<E>, gone: Set<Seq<u8>>, id: Seq<u8>)
    ensures
        has_id(without_ids(s, gone), id) == (has_id(s, id) && !gone.contains(id)),
    decreases s.len(),
{
    if s.len() > 0 {
        let rest = without_ids(s.drop_last(), gone);
        lemma_without_ids_has_id(s.drop_last(), gone, id);
        if has_id(s, id) && !gone.contains(id) {
            let i = choose|i: int| 0 <= i < s.len() && (#[trigger] s[i]).key() == id;
            if i < s.len() - 1 {
                assert(s.drop_last()[i].key() == id);
                let k = choose|k: int| 0 <= k < rest.len() && (#[trigger] rest[k]).key() == id;
                if !gone.contains(s.last().key()) {
                    assert(rest.push(s.last())[k].key() == id);
                }
            } else {
                assert(rest.push(s.last())[rest.len() as int].key() == id);
            }
        }
        if has_id(without_ids(s, gone), id) {
            let w = without_ids(s, gone);
            let k = choose|k: int| 0 <= k < w.len() && (#[trigger] w[k]).key() == id;
            if gone.contains(s.last().key()) {
                assert(rest[k].key() == id);
                let i = choose|i: int| 0 <= i < s.drop_last().len() && (#[trigger] s.drop_last()[i]).key() == id;
                assert(s[i].key() == id);
            } else if k < rest.len() {
                assert(rest[k].key() == id);
                let i = choose|i: int| 0 <= i < s.drop_last().len() && (#[trigger] s.drop_last()[i]).key() == id;
                assert(s[i].key() == id);
            } else {
                assert(s[s.len() - 1].key() == id);
            }
        }
    }
}

pub proof fn lemma_without_ids_contains<E: Recency>(s: Seq<E>, gone: Set<Seq<u8>>, k: int)
    requires
        0 <= k < without_ids(s, gone).len(),
    ensures
        exists|i: int| 0 <= i < s.len() && s[i] == (#[trigger] without_ids(s, gone)[k]),
        !gone.contains(without_ids(s, gone)[k].key()),
    decreases s.len(),
{
    let rest = without_ids(s.drop_last(), gone);
    if s.len() > 0 {
        if gone.contains(s.last().key()) || k < rest.len() {
            lemma_without_ids_contains(s.drop_last(), gone, k);
            let i = choose|i: int| 0 <= i < s.drop_last().len() && s.drop_last()[i] == (#[trigger] rest[k]);
            assert(s[i] == without_ids(s, gone)[k]);
        } else {
            assert(s[s.len() - 1] == without_ids(s, gone)[k]);
        }
    }
}

pub proof fn lemma_without_ids_distinct<E: Recency>(s: Seq<E>, gone: Set<Seq<u8>>)
    requires
        ids_distinct(s),
    ensures
        ids_distinct(without_ids(s, gone)),
    decreases s.len(),
{
    if s.len() > 0 {
        let rest = without_ids(s.drop_last(), gone);
        assert(ids_distinct(s.drop_last()));
        lemma_without_ids_distinct(s.drop_last(), gone);
        if !gone.contains(s.last().key()) {
            let w = rest.push(s.last());
            assert forall|i: int, j: int| 0 <= i < w.len() && 0 <= j < w.len() && i != j implies (#[trigger] w[i]).key() != (#[trigger] w[j]).key() by {
                if i == rest.len() || j == rest.len() {
                    let o = if i == rest.len() { j } else { i };
                    lemma_without_ids_contains(s.drop_last(), gone, o);
                    let t = choose|t: int| 0 <= t < s.drop_last().len() && s.drop_last()[t] == (#[trigger] rest[o]);
                    assert(s[t] == w[o]);
                    assert(s[s.len() - 1] == w[rest.len() as int]);
                }
            }
        }
    }
}

/// Removing, from the kept entries, the one with id `id` is the same as
/// adding `id` to the dropped set.
pub proof fn lemma_without_ids_remove<E: Recency>(s: Seq<E>, gone: Set<Seq<u8>>, m: int)
    requires
        ids_distinct(s),
        0 <= m < without_ids(s, gone).len(),
    ensures
        without_ids(s, gone).remove(m) == without_ids(s, gone.insert(without_ids(s, gone)[m].key())),
    decreases s.len(),
{
    let id = without_ids(s, gone)[m].key();
    let rest = without_ids(s.drop_last(), gone);
    let gone2 = gone.insert(id);
    assert(ids_distinct(s.drop_last()));
    if gone.contains(s.last().key()) {
        lemma_without_ids_remove(s.drop_last(), gone, m);
    } else if m == rest.len() {
        // The removed entry is the last one of `s`; nothing before it has its id.
        assert(without_ids(s, gone).remove(m) =~= rest);
        lemma_without_ids_same(s.drop_last(), gone, gone2);
    } else {
        lemma_without_ids_remove(s.drop_last(), gone, m);
        lemma_without_ids_contains(s.drop_last(), gone, m);
        let t = choose|t: int| 0 <= t < s.drop_last().len() && s.drop_last()[t] == (#[trigger] rest[m]);
        assert(s[t].key() == id);
        assert(s[s.len() - 1].key() != id);
        assert(without_ids(s, gone).remove(m) =~= rest.remove(m).push(s.last()));
    }
}

/// If no entry of `s` has the one id on which `a` and `b` differ, dropping by
/// either set keeps the same entries.
proof fn lemma_without_ids_same<E: Recency>(s: Seq<E>, gone: Set<Seq<u8>>, gone2: Set<Seq<u8>>)
    requires
        forall|i: int| 0 <= i < s.len() ==> (gone.contains((#[trigger] s[i]).key()) == gone2.contains(s[i].key())),
    ensures
        without_ids(s, gone) == without_ids(s, gone2),
    decreases s.len(),
{
    if s.len() > 0 {
        assert(gone.contains(s[s.len() - 1].key()) == gone2.contains(s[s.len() - 1].key()));
        lemma_without_ids_same(s.drop_last(), gone, gone2);
    }
}

pub proof fn lemma_without_ids_empty<E: Recency>(s: Seq<E>)
    ensures
        without_ids(s, Set::empty()) == s,
    decreases s.len(),
{
    if s.len() > 0 {
        lemma_without_ids_empty(s.drop_last());
        assert(s.drop_last().push(s.last()) =~= s);
    }
}

pub proof fn lemma_older_total<E: Recency>(a: E, b: E)
    requires
        a.key() != b.key(),
    ensures
        older(a, b) || older(b, a),
        !(older(a, b) && older(b, a)),
{
    lemma_lex_total(a.key(), b.key());
    lemma_lex_asymmetric(a.key(), b.key());
}

pub proof fn lemma_older_transitive<E: Recency>(a: E, b: E, c: E)
    requires
        older(a, b),
        older(b, c),
    ensures
        older(a, c),
{
    if a.stamp() == b.stamp() && b.stamp() == c.stamp() {
        lemma_lex_transitive(a.key(), b.key(), c.key());
    }
}

} // verus!
