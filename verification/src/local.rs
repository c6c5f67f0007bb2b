//! The recency index of the filesystem-backed cache.
//!
//! The cache keeps one payload file per asset under
//! `<root>/<2-char-prefix>/<64-hex>` and a plain-text recency index at
//! `<root>/.index`, one line `<tick> <64-hex> <size>` per asset, in id order.
//! This module holds the index and every decision the cache makes on it:
//! which entries survive a reopen, how reads and writes touch recency, which
//! payloads eviction deletes, and the exact text of the index file. Reading
//! and writing files is left to the caller, which hands the outcomes back as
//! plain values.

use vstd::prelude::*;

use crate::asset_id::{hex_of, lemma_lex_asymmetric, lemma_lex_irreflexive, lemma_lex_total, lemma_lex_transitive, lex_lt, AssetId};
use crate::layout::{join_onto, join_path, path_for, shard_name};
use crate::recency::{
    dropped_ids, evicted_to, has_id, ids_distinct, keys_sorted, lemma_older_total, lemma_older_transitive,
    lemma_sorted_distinct, lemma_total_bytes_bound, lemma_total_bytes_positive, lemma_total_bytes_remove,
    lemma_without_ids_contains, lemma_without_ids_distinct, lemma_without_ids_empty, lemma_without_ids_has_id,
    lemma_without_ids_remove, older, total_bytes, without_ids, Recency,
};
use crate::text::{decimal, push_decimal};

verus! {

/// One recency-index row: last-touch tick and payload size in bytes.
#[derive(Debug, Clone, Copy, PartialEq, Eq)]
pub struct IndexEntry {
    pub tick: u64,
    pub size: u64,
}

/// An index row as seen by specifications: `(id, tick, size)`.
pub type IndexView = (Seq<u8>, u64, u64);

impl Recency for (Seq<u8>, u64, u64) {
    open spec fn key(&self) -> Seq<u8> {
        self.0
    }

    open spec fn weight(&self) -> nat {
        self.2 as nat
    }

    open spec fn stamp(&self) -> u64 {
        self.1
    }
}

pub open spec fn index_views(v: Seq<(AssetId, IndexEntry)>) -> Seq<IndexView> {
    v.map_values(|e: (AssetId, IndexEntry)| (e.0@, e.1.tick, e.1.size))
}

/// Position of the row with this id.
pub open spec fn row_of(s: Seq<IndexView>, id: Seq<u8>) -> int {
    choose|i: int| 0 <= i < s.len() && (#[trigger] s[i]).0 == id
}

/// The index as a map from id to `(tick, size)`.
pub open spec fn as_map(s: Seq<IndexView>) -> Map<Seq<u8>, (u64, u64)> {
    Map::new(|id: Seq<u8>| has_id(s, id), |id: Seq<u8>| (s[row_of(s, id)].1, s[row_of(s, id)].2))
}

/// Rows read in order, a later row for the same id replacing an earlier one.
pub open spec fn rows_map(s: Seq<IndexView>) -> Map<Seq<u8>, (u64, u64)>
    decreases s.len(),
{
    if s.len() == 0 {
        Map::empty()
    } else {
        rows_map(s.drop_last()).insert(s.last().0, (s.last().1, s.last().2))
    }
}

/// Largest tick among the rows (0 when there is none).
pub open spec fn max_tick(s: Seq<IndexView>) -> u64
    decreases s.len(),
{
    if s.len() == 0 {
        0
    } else {
        let m = max_tick(s.drop_last());
        if s.last().1 > m { s.last().1 } else { m }
    }
}

/// The text of one index line.
pub open spec fn index_line(r: IndexView) -> Seq<char> {
    decimal(r.1 as nat) + seq![' '] + hex_of(r.0) + seq![' '] + decimal(r.2 as nat) + seq!['\n']
}

/// The text of the index file: one line per row, in order.
pub open spec fn index_text_of(s: Seq<IndexView>) -> Seq<char>
    decreases s.len(),
{
    if s.len() == 0 {
        Seq::empty()
    } else {
        index_text_of(s.drop_last()) + index_line(s.last())
    }
}

pub open spec fn saturated(n: nat) -> u64 {
    if n <= u64::MAX { n as u64 } else { u64::MAX }
}

/// The rows whose flag is set, in order.
pub open spec fn keep_flagged(s: Seq<IndexView>, flags: Seq<bool>) -> Seq<IndexView>
    decreases s.len(),
{
    if s.len() == 0 || flags.len() != s.len() {
        Seq::empty()
    } else {
        let rest = keep_flagged(s.drop_last(), flags.drop_last());
        if flags.last() {
            rest.push(s.last())
        } else {
            rest
        }
    }
}

proof fn lemma_keep_flagged_members(s: Seq<IndexView>, flags: Seq<bool>, k: int)
    requires
        flags.len() == s.len(),
        0 <= k < keep_flagged(s, flags).len(),
    ensures
        exists|i: int| 0 <= i < s.len() && flags[i] && s[i] == #[trigger] keep_flagged(s, flags)[k],
    decreases s.len(),
{
    let rest = keep_flagged(s.drop_last(), flags.drop_last());
    if flags.last() && k == rest.len() {
        assert(s[s.len() - 1] == keep_flagged(s, flags)[k]);
    } else {
        lemma_keep_flagged_members(s.drop_last(), flags.drop_last(), k);
        let i = choose|i: int| 0 <= i < s.drop_last().len() && flags.drop_last()[i] && s.drop_last()[i] == #[trigger] rest[k];
        assert(s[i] == keep_flagged(s, flags)[k]);
    }
}

proof fn lemma_keep_flagged_sorted(s: Seq<IndexView>, flags: Seq<bool>)
    requires
        flags.len() == s.len(),
        keys_sorted(s),
    ensures
        keys_sorted(keep_flagged(s, flags)),
    decreases s.len(),
{
    if s.len() > 0 {
        let rest = keep_flagged(s.drop_last(), flags.drop_last());
        assert(keys_sorted(s.drop_last())) by {
            assert forall|i: int, j: int| 0 <= i < j < s.drop_last().len() implies lex_lt((#[trigger] s.drop_last()[i]).key(), (#[trigger] s.drop_last()[j]).key()) by {
                assert(s.drop_last()[i] == s[i] && s.drop_last()[j] == s[j]);
            }
        }
        lemma_keep_flagged_sorted(s.drop_last(), flags.drop_last());
        if flags.last() {
            let t = rest.push(s.last());
            assert forall|i: int, j: int| 0 <= i < j < t.len() implies lex_lt((#[trigger] t[i]).key(), (#[trigger] t[j]).key()) by {
                if j == rest.len() {
                    lemma_keep_flagged_members(s.drop_last(), flags.drop_last(), i);
                    let a = choose|a: int| 0 <= a < s.drop_last().len() && flags.drop_last()[a] && s.drop_last()[a] == #[trigger] rest[i];
                    assert(s[a] == t[i]);
                    assert(s[s.len() - 1] == t[j]);
                } else {
                    assert(t[i] == rest[i] && t[j] == rest[j]);
                }
            }
        }
    }
}

proof fn lemma_row_of(s: Seq<IndexView>, i: int)
    requires
        ids_distinct(s),
        0 <= i < s.len(),
    ensures
        has_id(s, s[i].0),
        row_of(s, s[i].0) == i,
        as_map(s).contains_key(s[i].0),
        as_map(s)[s[i].0] == (s[i].1, s[i].2),
{
    assert(s[i].key() == s[i].0);
    let k = row_of(s, s[i].0);
    assert(s[k].0 == s[i].0);
    assert(s[k].key() == s[i].key());
}

proof fn lemma_as_map_update(s: Seq<IndexView>, pos: int, x: IndexView)
    requires
        ids_distinct(s),
        0 <= pos < s.len(),
        s[pos].0 == x.0,
    ensures
        ids_distinct(s.update(pos, x)),
        as_map(s.update(pos, x)) == as_map(s).insert(x.0, (x.1, x.2)),
{
    let t = s.update(pos, x);
    assert forall|i: int, j: int| 0 <= i < t.len() && 0 <= j < t.len() && i != j implies (#[trigger] t[i]).key() != (#[trigger] t[j]).key() by {
        assert(t[i].0 == s[i].0);
        assert(t[j].0 == s[j].0);
        assert(s[i].key() != s[j].key());
    }
    assert forall|k: Seq<u8>| has_id(t, k) <==> (has_id(s, k) || k == x.0) by {
        if has_id(t, k) {
            let i = choose|i: int| 0 <= i < t.len() && (#[trigger] t[i]).key() == k;
            assert(s[i].key() == k);
        }
        if has_id(s, k) {
            let i = choose|i: int| 0 <= i < s.len() && (#[trigger] s[i]).key() == k;
            assert(t[i].key() == k);
        }
        if k == x.0 {
            assert(t[pos].key() == k);
        }
    }
    assert forall|k: Seq<u8>| #[trigger] as_map(t).contains_key(k) implies as_map(t)[k] == as_map(s).insert(x.0, (x.1, x.2))[k] by {
        let i = choose|i: int| 0 <= i < t.len() && (#[trigger] t[i]).key() == k;
        lemma_row_of(t, i);
        if i != pos {
            lemma_row_of(s, i);
        }
    }
    assert(as_map(t) =~= as_map(s).insert(x.0, (x.1, x.2)));
}

proof fn lemma_as_map_insert(s: Seq<IndexView>, pos: int, x: IndexView)
    requires
        ids_distinct(s),
        0 <= pos <= s.len(),
        !has_id(s, x.0),
    ensures
        ids_distinct(s.insert(pos, x)),
        as_map(s.insert(pos, x)) == as_map(s).insert(x.0, (x.1, x.2)),
{
    let t = s.insert(pos, x);
    assert forall|i: int, j: int| 0 <= i < t.len() && 0 <= j < t.len() && i != j implies (#[trigger] t[i]).key() != (#[trigger] t[j]).key() by {
        let si = if i < pos { i } else { i - 1 };
        let sj = if j < pos { j } else { j - 1 };
        if i == pos {
            assert(t[j] == s[sj]);
            assert(s[sj].key() != x.0);
        } else if j == pos {
            assert(t[i] == s[si]);
            assert(s[si].key() != x.0);
        } else {
            assert(t[i] == s[si]);
            assert(t[j] == s[sj]);
        }
    }
    assert forall|k: Seq<u8>| has_id(t, k) <==> (has_id(s, k) || k == x.0) by {
        if has_id(t, k) {
            let i = choose|i: int| 0 <= i < t.len() && (#[trigger] t[i]).key() == k;
            if i < pos {
                assert(s[i].key() == k);
            } else if i > pos {
                assert(s[i - 1].key() == k);
            }
        }
        if has_id(s, k) {
            let i = choose|i: int| 0 <= i < s.len() && (#[trigger] s[i]).key() == k;
            if i < pos {
                assert(t[i].key() == k);
            } else {
                assert(t[i + 1].key() == k);
            }
        }
        if k == x.0 {
            assert(t[pos].key() == k);
        }
    }
    assert forall|k: Seq<u8>| #[trigger] as_map(t).contains_key(k) implies as_map(t)[k] == as_map(s).insert(x.0, (x.1, x.2))[k] by {
        let i = choose|i: int| 0 <= i < t.len() && (#[trigger] t[i]).key() == k;
        lemma_row_of(t, i);
        if i < pos {
            lemma_row_of(s, i);
        } else if i > pos {
            lemma_row_of(s, i - 1);
        }
    }
    assert(as_map(t) =~= as_map(s).insert(x.0, (x.1, x.2)));
}

/// With distinct ids, reading the rows in order and letting later rows win
/// is the plain map of the rows.
pub(crate) proof fn lemma_rows_map_distinct(s: Seq<IndexView>)
    requires
        ids_distinct(s),
    ensures
        rows_map(s) == as_map(s),
    decreases s.len(),
{
    if s.len() == 0 {
        assert(as_map(s) =~= Map::<Seq<u8>, (u64, u64)>::empty());
    } else {
        let t = s.drop_last();
        assert(ids_distinct(t));
        lemma_rows_map_distinct(t);
        assert(!has_id(t, s.last().0)) by {
            if has_id(t, s.last().0) {
                let k = choose|k: int| 0 <= k < t.len() && (#[trigger] t[k]).0 == s.last().0;
                assert(s[k].0 == s[s.len() - 1].0);
            }
        }
        lemma_as_map_insert(t, t.len() as int, s.last());
        assert(t.insert(t.len() as int, s.last()) =~= s);
    }
}

proof fn lemma_as_map_remove(s: Seq<IndexView>, pos: int)
    requires
        ids_distinct(s),
        0 <= pos < s.len(),
    ensures
        ids_distinct(s.remove(pos)),
        as_map(s.remove(pos)) == as_map(s).remove(s[pos].0),
{
    let t = s.remove(pos);
    assert forall|i: int, j: int| 0 <= i < t.len() && 0 <= j < t.len() && i != j implies (#[trigger] t[i]).key() != (#[trigger] t[j]).key() by {
        let si = if i < pos { i } else { i + 1 };
        let sj = if j < pos { j } else { j + 1 };
        assert(t[i] == s[si]);
        assert(t[j] == s[sj]);
    }
    assert forall|k: Seq<u8>| has_id(t, k) <==> (has_id(s, k) && k != s[pos].0) by {
        if has_id(t, k) {
            let i = choose|i: int| 0 <= i < t.len() && (#[trigger] t[i]).key() == k;
            let si = if i < pos { i } else { i + 1 };
            assert(s[si].key() == k);
            assert(si != pos);
        }
        if has_id(s, k) && k != s[pos].0 {
            let i = choose|i: int| 0 <= i < s.len() && (#[trigger] s[i]).key() == k;
            if i < pos {
                assert(t[i].key() == k);
            } else {
                assert(i != pos);
                assert(t[i - 1].key() == k);
            }
        }
    }
    assert forall|k: Seq<u8>| #[trigger] as_map(t).contains_key(k) implies as_map(t)[k] == as_map(s)[k] by {
        let i = choose|i: int| 0 <= i < t.len() && (#[trigger] t[i]).key() == k;
        lemma_row_of(t, i);
        if i < pos {
            lemma_row_of(s, i);
        } else {
            lemma_row_of(s, i + 1);
        }
    }
    assert(as_map(t) =~= as_map(s).remove(s[pos].0));
}

/// Where `id` is, or where it belongs, in sorted rows.
fn locate(entries: &Vec<(AssetId, IndexEntry)>, id: &AssetId) -> (r: (bool, usize))
    requires
        keys_sorted(index_views(entries@)),
    ensures
        r.1 <= entries@.len(),
        r.0 ==> r.1 < entries@.len() && index_views(entries@)[r.1 as int].0 == id@,
        !r.0 ==> !has_id(index_views(entries@), id@),
        !r.0 ==> forall|i: int| 0 <= i < r.1 ==> lex_lt((#[trigger] index_views(entries@)[i]).0, id@),
        !r.0 ==> forall|i: int| r.1 <= i < entries@.len() ==> lex_lt(id@, (#[trigger] index_views(entries@)[i]).0),
{
    let ghost s = index_views(entries@);
    let mut pos: usize = 0;
    while pos < entries.len() && entries[pos].0.lex_less(id)
        invariant
            0 <= pos <= entries@.len(),
            s == index_views(entries@),
            forall|i: int| 0 <= i < pos ==> lex_lt((#[trigger] s[i]).0, id@),
        decreases entries@.len() - pos,
    {
        assert(s[pos as int].0 == entries@[pos as int].0@);
        pos = pos + 1;
    }
    if pos < entries.len() && entries[pos].0.same_as(id) {
        assert(s[pos as int].0 == entries@[pos as int].0@);
        return (true, pos);
    }
    proof {
        if pos < entries@.len() {
            assert(s[pos as int].0 == entries@[pos as int].0@);
            lemma_lex_total(s[pos as int].0, id@);
        }
        assert forall|i: int| pos <= i < entries@.len() implies lex_lt(id@, (#[trigger] s[i]).0) by {
            if i > pos {
                assert(lex_lt(s[pos as int].key(), s[i].key()));
                lemma_lex_transitive(id@, s[pos as int].0, s[i].0);
            }
        }
        if has_id(s, id@) {
            let i = choose|i: int| 0 <= i < s.len() && (#[trigger] s[i]).key() == id@;
            if i < pos {
                lemma_lex_irreflexive(id@);
            } else {
                lemma_lex_irreflexive(id@);
            }
        }
    }
    (false, pos)
}

/// Set the row for `id` to `entry`, keeping the rows sorted.
fn upsert(entries: &mut Vec<(AssetId, IndexEntry)>, id: &AssetId, entry: IndexEntry)
    requires
        keys_sorted(index_views(old(entries)@)),
    ensures
        keys_sorted(index_views(final(entries)@)),
        as_map(index_views(final(entries)@)) == as_map(index_views(old(entries)@)).insert(id@, (entry.tick, entry.size)),
        forall|i: int| 0 <= i < final(entries)@.len() ==> (#[trigger] index_views(final(entries)@)[i]).1 == entry.tick
            || exists|j: int| 0 <= j < old(entries)@.len() && index_views(final(entries)@)[i] == #[trigger] index_views(old(entries)@)[j],
{
    let ghost s = index_views(entries@);
    proof { lemma_sorted_distinct(s); }
    let (found, pos) = locate(entries, id);
    let x = (*id, entry);
    let ghost xv = (id@, entry.tick, entry.size);
    if found {
        entries.set(pos, x);
        proof {
            assert(index_views(entries@) =~= s.update(pos as int, xv));
            lemma_as_map_update(s, pos as int, xv);
            let t = index_views(entries@);
            assert forall|i: int, j: int| 0 <= i < j < t.len() implies lex_lt((#[trigger] t[i]).key(), (#[trigger] t[j]).key()) by {
                assert(t[i].0 == s[i].0);
                assert(t[j].0 == s[j].0);
                assert(lex_lt(s[i].key(), s[j].key()));
            }
            assert forall|i: int| 0 <= i < t.len() && t[i].1 != entry.tick implies exists|j: int| 0 <= j < s.len() && t[i] == #[trigger] s[j] by {
                assert(i != pos);
                assert(t[i] == s[i]);
            }
        }
    } else {
        entries.insert(pos, x);
        proof {
            assert(index_views(entries@) =~= s.insert(pos as int, xv));
            lemma_as_map_insert(s, pos as int, xv);
            let t = index_views(entries@);
            assert forall|i: int, j: int| 0 <= i < j < t.len() implies lex_lt((#[trigger] t[i]).key(), (#[trigger] t[j]).key()) by {
                if j < pos {
                    assert(t[i] == s[i] && t[j] == s[j]);
                    assert(lex_lt(s[i].key(), s[j].key()));
                } else if j == pos {
                    assert(t[i] == s[i]);
                } else if i == pos {
                    assert(t[j] == s[j - 1]);
                } else if i < pos {
                    assert(t[i] == s[i] && t[j] == s[j - 1]);
                    lemma_lex_transitive(s[i].0, id@, s[j - 1].0);
                } else {
                    assert(t[i] == s[i - 1] && t[j] == s[j - 1]);
                    assert(lex_lt(s[i - 1].key(), s[j - 1].key()));
                }
            }
            assert forall|i: int| 0 <= i < t.len() && t[i].1 != entry.tick implies exists|j: int| 0 <= j < s.len() && t[i] == #[trigger] s[j] by {
                if i < pos {
                    assert(t[i] == s[i]);
                } else {
                    assert(i != pos);
                    assert(t[i] == s[i - 1]);
                }
            }
        }
    }
}

pub open spec fn victim_ids(v: Seq<AssetId>) -> Seq<Seq<u8>> {
    v.map_values(|a: AssetId| a@)
}

/// Index of the least recently used row (ties broken by id order).
fn oldest_row(rows: &Vec<(AssetId, IndexEntry)>) -> (m: usize)
    requires
        rows@.len() > 0,
        ids_distinct(index_views(rows@)),
    ensures
        m < rows@.len(),
        forall|j: int| 0 <= j < rows@.len() && j != m ==> older(index_views(rows@)[m as int], #[trigger] index_views(rows@)[j]),
{
    let ghost s = index_views(rows@);
    let mut best: usize = 0;
    let mut i: usize = 1;
    while i < rows.len()
        invariant
            1 <= i <= rows@.len(),
            best < i,
            s == index_views(rows@),
            ids_distinct(s),
            forall|j: int| 0 <= j < i && j != best ==> older(s[best as int], #[trigger] s[j]),
        decreases rows@.len() - i,
    {
        let a = rows[i];
        let b = rows[best];
        assert(s[i as int] == (a.0@, a.1.tick, a.1.size));
        assert(s[best as int] == (b.0@, b.1.tick, b.1.size));
        let a_older = a.1.tick < b.1.tick || (a.1.tick == b.1.tick && a.0.lex_less(&b.0));
        proof {
            lemma_older_total(s[i as int], s[best as int]);
        }
        if a_older {
            proof {
                assert forall|j: int| 0 <= j < i + 1 && j != i implies older(s[i as int], #[trigger] s[j]) by {
                    if j != best {
                        lemma_older_transitive(s[i as int], s[best as int], s[j]);
                    }
                }
            }
            best = i;
        }
        i = i + 1;
    }
    best
}

proof fn lemma_row_of_distinct(s: Seq<IndexView>, i: int)
    requires
        ids_distinct(s),
        0 <= i < s.len(),
    ensures
        row_of(s, s[i].0) == i,
        has_id(s, s[i].0),
{
    lemma_row_of(s, i);
}

/// Every row kept so far is younger than the oldest kept row `cur[m]`
/// (which is `before[kx]`).
proof fn lemma_younger_than_oldest(before: Seq<IndexView>, gone: Set<Seq<u8>>, cur: Seq<IndexView>, m: int, kx: int, j: int)
    requires
        ids_distinct(before),
        cur == without_ids(before, gone),
        0 <= m < cur.len(),
        0 <= kx < before.len(),
        before[kx] == cur[m],
        0 <= j < before.len(),
        !gone.contains(before[j].0),
        before[j].0 != cur[m].0,
        forall|t: int| 0 <= t < cur.len() && t != m ==> older(cur[m], #[trigger] cur[t]),
    ensures
        older(before[kx], before[j]),
{
    lemma_without_ids_has_id(before, gone, before[j].key());
    assert(before[j].key() == before[j].0);
    assert(has_id(before, before[j].key()));
    let jj = choose|t: int| 0 <= t < cur.len() && (#[trigger] cur[t]).key() == before[j].key();
    assert(jj != m);
    lemma_without_ids_contains(before, gone, jj);
    let kj = choose|k: int| 0 <= k < before.len() && before[k] == (#[trigger] without_ids(before, gone)[jj]);
    assert(before[kj].key() == before[j].key());
    assert(kj == j);
    assert(older(cur[m], cur[jj]));
}

/// The filesystem-backed cache's state: its root directory, its recency
/// counter and its recency index, sorted by id.
#[derive(Debug)]
pub struct LocalCache {
    root: String,
    tick: u64,
    entries: Vec<(AssetId, IndexEntry)>,
}

impl LocalCache {
    /// The index rows, sorted by id.
    pub closed spec fn index_view(&self) -> Seq<IndexView> {
        index_views(self.entries@)
    }

    /// The recency counter.
    pub closed spec fn tick_view(&self) -> u64 {
        self.tick
    }

    /// The root directory.
    pub closed spec fn root_view(&self) -> Seq<char> {
        self.root@
    }

    #[verifier::type_invariant]
    closed spec fn inv(&self) -> bool {
        &&& keys_sorted(self.index_view())
        &&& forall|i: int| 0 <= i < self.index_view().len() ==> (#[trigger] self.index_view()[i]).1 <= self.tick
    }

    /// Build the cache state from the rows of an index file, read in order:
    /// a later row for the same id replaces an earlier one. The recency
    /// counter starts at the largest tick among the rows.
    pub fn open_index(root: String, rows: Vec<(AssetId, IndexEntry)>) -> (c: LocalCache)
        ensures
            c.root_view() == root@,
            keys_sorted(c.index_view()),
            as_map(c.index_view()) == rows_map(index_views(rows@)),
            c.tick_view() == max_tick(index_views(rows@)),
    {
        let ghost input = index_views(rows@);
        let mut entries: Vec<(AssetId, IndexEntry)> = Vec::new();
        let mut tick: u64 = 0;
        let mut i: usize = 0;
        proof {
            assert(index_views(entries@) =~= Seq::<IndexView>::empty());
            assert(as_map(index_views(entries@)) =~= Map::<Seq<u8>, (u64, u64)>::empty());
            assert(input.take(0) =~= Seq::<IndexView>::empty());
        }
        while i < rows.len()
            invariant
                0 <= i <= rows@.len(),
                input == index_views(rows@),
                keys_sorted(index_views(entries@)),
                as_map(index_views(entries@)) == rows_map(input.take(i as int)),
                tick == max_tick(input.take(i as int)),
                forall|k: int| 0 <= k < index_views(entries@).len() ==> (#[trigger] index_views(entries@)[k]).1 <= tick,
            decreases rows@.len() - i,
        {
            let (id, e) = rows[i];
            assert(input[i as int] == (id@, e.tick, e.size));
            let ghost before = index_views(entries@);
            upsert(&mut entries, &id, e);
            proof {
                assert(input.take(i + 1).drop_last() =~= input.take(i as int));
                assert(input.take(i + 1).last() == input[i as int]);
            }
            if e.tick > tick {
                tick = e.tick;
            }
            proof {
                let after = index_views(entries@);
                assert forall|k: int| 0 <= k < after.len() implies (#[trigger] after[k]).1 <= tick by {
                    if after[k].1 != e.tick {
                        let j = choose|j: int| 0 <= j < before.len() && after[k] == #[trigger] before[j];
                        assert(before[j].1 <= tick);
                    }
                }
            }
            i = i + 1;
        }
        proof {
            assert(input.take(i as int) =~= input);
        }
        LocalCache { root, tick, entries }
    }

    /// Keep exactly the rows whose flag is set (`present[i]` is for the
    /// `i`-th row in id order): payloads found missing on disk drop out.
    pub fn retain_rows(&mut self, present: &Vec<bool>)
        requires
            present@.len() == old(self).index_view().len(),
        ensures
            final(self).index_view() == keep_flagged(old(self).index_view(), present@),
            keys_sorted(final(self).index_view()),
            final(self).tick_view() == old(self).tick_view(),
            final(self).root_view() == old(self).root_view(),
    {
        proof { use_type_invariant(&*self); }
        let ghost s = self.index_view();
        let mut kept: Vec<(AssetId, IndexEntry)> = Vec::new();
        let mut i: usize = 0;
        proof {
            assert(s.take(0) =~= Seq::<IndexView>::empty());
            assert(present@.take(0) =~= Seq::<bool>::empty());
            assert(index_views(kept@) =~= Seq::<IndexView>::empty());
        }
        while i < self.entries.len()
            invariant
                0 <= i <= self.entries@.len(),
                s == self.index_view(),
                present@.len() == s.len(),
                index_views(kept@) == keep_flagged(s.take(i as int), present@.take(i as int)),
            decreases self.entries@.len() - i,
        {
            let ghost before = index_views(kept@);
            if present[i] {
                kept.push(self.entries[i]);
            }
            proof {
                assert(s.take(i + 1).drop_last() =~= s.take(i as int));
                assert(present@.take(i + 1).drop_last() =~= present@.take(i as int));
                assert(s.take(i + 1).last() == s[i as int]);
                assert(present@.take(i + 1).last() == present@[i as int]);
                if present@[i as int] {
                    assert(index_views(kept@) =~= before.push(s[i as int]));
                }
            }
            i = i + 1;
        }
        proof {
            assert(s.take(i as int) =~= s);
            assert(present@.take(i as int) =~= present@);
            lemma_keep_flagged_sorted(s, present@);
            let t = index_views(kept@);
            assert forall|k: int| 0 <= k < t.len() implies (#[trigger] t[k]).1 <= self.tick by {
                lemma_keep_flagged_members(s, present@, k);
                let a = choose|a: int| 0 <= a < s.len() && present@[a] && s[a] == #[trigger] keep_flagged(s, present@)[k];
                assert(s[a].1 <= self.tick);
            }
        }
        self.entries = kept;
    }

    /// A payload of `size` bytes was found on disk for `id`: add it with tick
    /// 0 (least recent) unless the index already has a row for it.
    pub fn adopt(&mut self, id: &AssetId, size: u64)
        ensures
            as_map(old(self).index_view()).contains_key(id@) ==> final(self).index_view() == old(self).index_view(),
            !as_map(old(self).index_view()).contains_key(id@) ==> as_map(final(self).index_view()) == as_map(old(self).index_view()).insert(id@, (0, size)),
            keys_sorted(final(self).index_view()),
            final(self).tick_view() == old(self).tick_view(),
            final(self).root_view() == old(self).root_view(),
    {
        proof { use_type_invariant(&*self); }
        if self.contains(id) {
            return;
        }
        let mut entries: Vec<(AssetId, IndexEntry)> = Vec::new();
        std::mem::swap(&mut entries, &mut self.entries);
        let ghost before = index_views(entries@);
        upsert(&mut entries, id, IndexEntry { tick: 0, size });
        proof {
            let after = index_views(entries@);
            assert forall|k: int| 0 <= k < after.len() implies (#[trigger] after[k]).1 <= self.tick by {
                if after[k].1 != 0 {
                    let j = choose|j: int| 0 <= j < before.len() && after[k] == #[trigger] before[j];
                }
            }
        }
        self.entries = entries;
    }

    /// Reset the recency counter to the largest tick in the index (0 when
    /// empty), as on opening.
    pub fn rewind_tick(&mut self)
        ensures
            final(self).tick_view() == max_tick(final(self).index_view()),
            final(self).index_view() == old(self).index_view(),
            final(self).root_view() == old(self).root_view(),
    {
        let ghost s = self.index_view();
        let mut m: u64 = 0;
        let mut i: usize = 0;
        proof {
            assert(s.take(0) =~= Seq::<IndexView>::empty());
        }
        while i < self.entries.len()
            invariant
                0 <= i <= self.entries@.len(),
                s == self.index_view(),
                m == max_tick(s.take(i as int)),
                forall|k: int| 0 <= k < i ==> (#[trigger] s[k]).1 <= m,
            decreases self.entries@.len() - i,
        {
            let t = self.entries[i].1.tick;
            assert(s[i as int].1 == t);
            proof {
                assert(s.take(i + 1).drop_last() =~= s.take(i as int));
                assert(s.take(i + 1).last() == s[i as int]);
            }
            if t > m {
                m = t;
            }
            i = i + 1;
        }
        proof {
            assert(s.take(i as int) =~= s);
            use_type_invariant(&*self);
        }
        self.tick = m;
    }

    /// The cache root directory.
    pub fn root(&self) -> (r: &str)
        ensures
            r@ == self.root_view(),
    {
        self.root.as_str()
    }

    /// Path of the recency index file: `<root>/.index`.
    pub fn index_path(&self) -> (p: String)
        ensures
            p@ == join_path(self.root_view(), ".index"@),
    {
        let mut p = self.root.clone();
        join_onto(&mut p, ".index");
        p
    }

    /// Path of an asset's payload file under the root.
    pub fn payload_path(&self, id: &AssetId) -> (p: String)
        ensures
            p@ == join_path(join_path(self.root_view(), shard_name(id@)), hex_of(id@)),
    {
        path_for(self.root.as_str(), id)
    }

    /// The ids in the index, in id order.
    pub fn ids(&self) -> (v: Vec<AssetId>)
        ensures
            v@.len() == self.index_view().len(),
            forall|i: int| 0 <= i < v@.len() ==> (#[trigger] v@[i])@ == self.index_view()[i].0,
    {
        let mut v: Vec<AssetId> = Vec::new();
        let mut i: usize = 0;
        while i < self.entries.len()
            invariant
                0 <= i <= self.entries@.len(),
                v@.len() == i,
                forall|k: int| 0 <= k < i ==> (#[trigger] v@[k])@ == self.index_view()[k].0,
            decreases self.entries@.len() - i,
        {
            v.push(self.entries[i].0);
            i = i + 1;
        }
        v
    }

    /// A use begins: bump the recency counter (saturating) and return the
    /// new tick, which the use records once it succeeds.
    pub fn touch(&mut self) -> (t: u64)
        ensures
            t == crate::cache::next_tick(old(self).tick_view()),
            final(self).tick_view() == t,
            final(self).index_view() == old(self).index_view(),
            final(self).root_view() == old(self).root_view(),
    {
        proof { use_type_invariant(&*self); }
        self.tick = self.tick.saturating_add(1);
        self.tick
    }

    /// A read or write found the payload of `id` with `size` bytes on disk:
    /// bump the counter and record the new tick and size for `id`.
    pub fn record_access(&mut self, id: &AssetId, size: u64)
        ensures
            final(self).tick_view() == crate::cache::next_tick(old(self).tick_view()),
            as_map(final(self).index_view()) == as_map(old(self).index_view()).insert(id@, (final(self).tick_view(), size)),
            keys_sorted(final(self).index_view()),
            final(self).root_view() == old(self).root_view(),
    {
        let now = self.touch();
        self.record_at(id, size, now);
    }

    /// A use that began at tick `now` (from `touch`) succeeded: record `now`
    /// and `size` for `id`.
    pub fn record_at(&mut self, id: &AssetId, size: u64, now: u64)
        requires
            now <= old(self).tick_view(),
        ensures
            final(self).tick_view() == old(self).tick_view(),
            as_map(final(self).index_view()) == as_map(old(self).index_view()).insert(id@, (now, size)),
            keys_sorted(final(self).index_view()),
            final(self).root_view() == old(self).root_view(),
    {
        proof { use_type_invariant(&*self); }
        let mut entries: Vec<(AssetId, IndexEntry)> = Vec::new();
        std::mem::swap(&mut entries, &mut self.entries);
        let ghost before = index_views(entries@);
        upsert(&mut entries, id, IndexEntry { tick: now, size });
        proof {
            let after = index_views(entries@);
            assert forall|k: int| 0 <= k < after.len() implies (#[trigger] after[k]).1 <= self.tick by {
                if after[k].1 != now {
                    let j = choose|j: int| 0 <= j < before.len() && after[k] == #[trigger] before[j];
                }
            }
        }
        self.entries = entries;
    }

    /// Drop the row for `id`, if any (its payload is gone).
    pub fn forget(&mut self, id: &AssetId)
        ensures
            as_map(final(self).index_view()) == as_map(old(self).index_view()).remove(id@),
            keys_sorted(final(self).index_view()),
            final(self).tick_view() == old(self).tick_view(),
            final(self).root_view() == old(self).root_view(),
    {
        proof { use_type_invariant(&*self); }
        let ghost before = self.index_view();
        proof { lemma_sorted_distinct(before); }
        let (found, pos) = locate(&self.entries, id);
        if found {
            let mut entries: Vec<(AssetId, IndexEntry)> = Vec::new();
            std::mem::swap(&mut entries, &mut self.entries);
            entries.remove(pos);
            proof {
                let after = index_views(entries@);
                assert(after =~= before.remove(pos as int));
                lemma_as_map_remove(before, pos as int);
                assert forall|i: int, j: int| 0 <= i < j < after.len() implies lex_lt((#[trigger] after[i]).key(), (#[trigger] after[j]).key()) by {
                    let si = if i < pos { i } else { i + 1 };
                    let sj = if j < pos { j } else { j + 1 };
                    assert(after[i] == before[si] && after[j] == before[sj]);
                    assert(lex_lt(before[si].key(), before[sj].key()));
                }
                assert forall|k: int| 0 <= k < after.len() implies (#[trigger] after[k]).1 <= self.tick by {
                    let sk = if k < pos { k } else { k + 1 };
                    assert(after[k] == before[sk]);
                }
            }
            self.entries = entries;
        } else {
            proof {
                assert(as_map(before) =~= as_map(before).remove(id@));
            }
        }
    }

    /// Whether the index has a row for `id`.
    pub fn contains(&self, id: &AssetId) -> (b: bool)
        ensures
            b == as_map(self.index_view()).contains_key(id@),
    {
        proof { use_type_invariant(self); }
        let (found, _) = locate(&self.entries, id);
        found
    }

    /// Number of rows in the index.
    pub fn len(&self) -> (n: usize)
        ensures
            n == self.index_view().len(),
    {
        self.entries.len()
    }

    /// Whether the index is empty.
    pub fn is_empty(&self) -> (b: bool)
        ensures
            b == (self.index_view().len() == 0),
    {
        self.entries.len() == 0
    }

    /// Exact sum of the recorded sizes.
    fn stored_bytes(&self) -> (total: u128)
        ensures
            total == total_bytes(self.index_view()),
    {
        let ghost s = self.index_view();
        let mut total: u128 = 0;
        let mut i: usize = 0;
        while i < self.entries.len()
            invariant
                0 <= i <= self.entries@.len(),
                s == self.index_view(),
                total == total_bytes(s.take(i as int)),
            decreases self.entries@.len() - i,
        {
            let ghost t = s.take(i + 1);
            proof {
                assert(t.drop_last() =~= s.take(i as int));
                assert forall|k: int| 0 <= k < t.len() implies (#[trigger] t[k]).weight() <= u64::MAX by {}
                lemma_total_bytes_bound(t, u64::MAX as nat);
                assert(t.len() * (u64::MAX as nat) <= (usize::MAX as nat) * (u64::MAX as nat)) by (nonlinear_arith)
                    requires t.len() <= usize::MAX;
                assert(t.last() == s[i as int]);
            }
            total = total + self.entries[i].1.size as u128;
            i = i + 1;
        }
        assert(s.take(i as int) =~= s);
        total
    }

    /// Total recorded size, saturating at `u64::MAX`.
    pub fn total_size(&self) -> (n: u64)
        ensures
            n == saturated(total_bytes(self.index_view())),
    {
        let t = self.stored_bytes();
        if t <= u64::MAX as u128 {
            t as u64
        } else {
            u64::MAX
        }
    }

    /// The payloads eviction to `max_bytes` deletes, least recently used
    /// first (ties broken by id order): none when the recorded total is
    /// already within the cap, else the shortest such prefix that brings the
    /// total within it. The caller deletes each payload and then calls
    /// [`LocalCache::forget`] for it.
    pub fn evict_plan(&self, max_bytes: u64) -> (victims: Vec<AssetId>)
        ensures
            victim_ids(victims@).no_duplicates(),
            forall|k: int| 0 <= k < victims@.len() ==> has_id(self.index_view(), (#[trigger] victims@[k])@),
            forall|a: int, b: int| 0 <= a < b < victims@.len() ==> older(
                self.index_view()[row_of(self.index_view(), (#[trigger] victims@[a])@)],
                self.index_view()[row_of(self.index_view(), (#[trigger] victims@[b])@)],
            ),
            evicted_to(self.index_view(), without_ids(self.index_view(), victim_ids(victims@).to_set()), max_bytes as nat),
    {
        proof { use_type_invariant(self); }
        let ghost before = self.index_view();
        proof { lemma_sorted_distinct(before); }
        let mut victims: Vec<AssetId> = Vec::new();
        let total0 = self.stored_bytes();
        if total0 <= max_bytes as u128 {
            proof {
                lemma_without_ids_empty(before);
                assert(victim_ids(victims@).to_set() =~= Set::<Seq<u8>>::empty());
                assert(dropped_ids(before, before) =~= Set::<Seq<u8>>::empty());
            }
            return victims;
        }
        let mut rows: Vec<(AssetId, IndexEntry)> = Vec::new();
        let mut i: usize = 0;
        while i < self.entries.len()
            invariant
                0 <= i <= self.entries@.len(),
                before == self.index_view(),
                rows@ == self.entries@.take(i as int),
            decreases self.entries@.len() - i,
        {
            rows.push(self.entries[i]);
            proof {
                assert(self.entries@.take(i + 1) =~= self.entries@.take(i as int).push(self.entries@[i as int]));
            }
            i = i + 1;
        }
        proof {
            assert(self.entries@.take(i as int) =~= self.entries@);
            lemma_without_ids_empty(before);
        }
        let mut total: u128 = total0;
        let ghost mut gone: Set<Seq<u8>> = Set::empty();
        let ghost mut last: IndexView = before[0];
        proof {
            assert(victim_ids(victims@).to_set() =~= gone);
        }
        while total > max_bytes as u128
            invariant
                index_views(rows@) == without_ids(before, gone),
                ids_distinct(before),
                total == total_bytes(index_views(rows@)),
                total0 == total_bytes(before),
                total0 > max_bytes,
                gone == victim_ids(victims@).to_set(),
                victim_ids(victims@).no_duplicates(),
                forall|k: int| 0 <= k < victims@.len() ==> has_id(before, (#[trigger] victims@[k])@),
                forall|a: int, b: int| 0 <= a < b < victims@.len() ==> older(
                    before[row_of(before, (#[trigger] victims@[a])@)],
                    before[row_of(before, (#[trigger] victims@[b])@)],
                ),
                forall|a: int, k: int| 0 <= a < victims@.len() && 0 <= k < before.len() && !gone.contains((#[trigger] before[k]).0) ==> older(
                    before[row_of(before, (#[trigger] victims@[a])@)],
                    before[k],
                ),
                forall|i: int, j: int|
                    0 <= i < before.len() && 0 <= j < before.len() && gone.contains((#[trigger] before[i]).0)
                        && !gone.contains((#[trigger] before[j]).0) ==> older(before[i], before[j]),
                forall|id: Seq<u8>| gone.contains(id) ==> has_id(before, id),
                gone.is_empty() ==> total == total0,
                !gone.is_empty() ==> {
                    &&& has_id(before, last.0)
                    &&& gone.contains(last.0)
                    &&& (exists|k: int| 0 <= k < before.len() && before[k] == last)
                    &&& total + last.weight() > max_bytes
                    &&& forall|i: int| 0 <= i < before.len() && gone.contains((#[trigger] before[i]).0) && before[i].0 != last.0 ==> older(before[i], last)
                },
            decreases rows@.len(),
        {
            let ghost cur = index_views(rows@);
            proof {
                lemma_total_bytes_positive(cur);
                lemma_without_ids_distinct(before, gone);
            }
            let m = oldest_row(&rows);
            let x = rows.remove(m);
            let ghost xv = cur[m as int];
            proof {
                assert(xv == (x.0@, x.1.tick, x.1.size));
                lemma_total_bytes_remove(cur, m as int);
                lemma_without_ids_remove(before, gone, m as int);
                assert(index_views(rows@) =~= cur.remove(m as int));
                lemma_without_ids_contains(before, gone, m as int);
                let kx = choose|k: int| 0 <= k < before.len() && before[k] == (#[trigger] without_ids(before, gone)[m as int]);
                assert(before[kx] == xv);
                lemma_row_of_distinct(before, kx);
                assert forall|i: int, j: int|
                    0 <= i < before.len() && 0 <= j < before.len() && gone.insert(xv.0).contains((#[trigger] before[i]).0)
                        && !gone.insert(xv.0).contains((#[trigger] before[j]).0) implies older(before[i], before[j]) by {
                    if before[i].0 == xv.0 {
                        lemma_younger_than_oldest(before, gone, cur, m as int, kx, j);
                        assert(before[i].key() == before[kx].key());
                        assert(i == kx);
                    }
                }
                if !gone.is_empty() {
                    assert(older(last, xv)) by {
                        let kl = choose|k: int| 0 <= k < before.len() && before[k] == last;
                        assert(gone.contains(before[kl].0));
                        assert(!gone.contains(before[kx].0));
                    }
                }
                assert forall|i: int| 0 <= i < before.len() && gone.insert(xv.0).contains((#[trigger] before[i]).0) && before[i].0 != xv.0 implies older(before[i], xv) by {
                    assert(!gone.contains(before[kx].0));
                }
            }
            let ghost vprev = victims@;
            victims.push(x.0);
            proof {
                let vv = victim_ids(victims@);
                assert(vv =~= victim_ids(vprev).push(xv.0));
                assert(!victim_ids(vprev).contains(xv.0)) by {
                    if victim_ids(vprev).contains(xv.0) {
                        let t = choose|t: int| 0 <= t < victim_ids(vprev).len() && victim_ids(vprev)[t] == xv.0;
                        assert(gone.contains(xv.0));
                        lemma_without_ids_contains(before, gone, m as int);
                    }
                }
                assert(vv.to_set() =~= gone.insert(xv.0)) by {
                    victim_ids(vprev).lemma_push_to_set_commute(xv.0);
                }
                assert forall|a: int, b: int| 0 <= a < vv.len() && 0 <= b < vv.len() && a != b implies vv[a] != vv[b] by {
                    if a == vprev.len() {
                        assert(victim_ids(vprev).contains(vv[b]));
                    } else if b == vprev.len() {
                        assert(victim_ids(vprev).contains(vv[a]));
                    } else {
                        assert(vv[a] == victim_ids(vprev)[a] && vv[b] == victim_ids(vprev)[b]);
                    }
                }
                let kx = choose|k: int| 0 <= k < before.len() && before[k] == xv;
                lemma_row_of_distinct(before, kx);
                assert forall|k: int| 0 <= k < victims@.len() implies has_id(before, (#[trigger] victims@[k])@) by {
                    if k < vprev.len() {
                        assert(victims@[k] == vprev[k]);
                    } else {
                        assert(victims@[k]@ == xv.0);
                        assert(before[kx].key() == xv.0);
                    }
                }
                assert forall|a: int, b: int| 0 <= a < b < victims@.len() implies older(
                    before[row_of(before, (#[trigger] victims@[a])@)],
                    before[row_of(before, (#[trigger] victims@[b])@)],
                ) by {
                    assert(victims@[a] == vprev[a]);
                    if b < vprev.len() {
                        assert(victims@[b] == vprev[b]);
                    } else {
                        assert(victims@[b]@ == xv.0);
                        assert(!gone.contains(before[kx].0));
                        assert(older(before[row_of(before, vprev[a]@)], before[kx]));
                    }
                }
                assert forall|a: int, k: int| 0 <= a < victims@.len() && 0 <= k < before.len() && !gone.insert(xv.0).contains((#[trigger] before[k]).0) implies older(
                    before[row_of(before, (#[trigger] victims@[a])@)],
                    before[k],
                ) by {
                    if a < vprev.len() {
                        assert(victims@[a] == vprev[a]);
                    } else {
                        assert(victims@[a]@ == xv.0);
                        assert(before[k].0 != xv.0);
                        lemma_younger_than_oldest(before, gone, cur, m as int, kx, k);
                    }
                }
            }
            total = total - x.1.size as u128;
            proof {
                gone = gone.insert(xv.0);
                last = xv;
            }
        }
        proof {
            let after = without_ids(before, gone);
            assert forall|id: Seq<u8>| #![auto] has_id(before, id) implies (gone.contains(id) == !has_id(after, id)) by {
                lemma_without_ids_has_id(before, gone, id);
            }
            assert(dropped_ids(before, after) =~= gone);
            assert(!gone.is_empty()) by {
                if gone.is_empty() {
                    assert(total == total0);
                }
            }
            assert forall|i: int| 0 <= i < before.len() implies (!has_id(after, (#[trigger] before[i]).0) == gone.contains(before[i].0)) by {
                assert(before[i].key() == before[i].0);
                assert(has_id(before, before[i].0));
            }
            assert forall|i: int|
                0 <= i < before.len() && !has_id(after, (#[trigger] before[i]).key()) && (forall|j: int|
                    0 <= j < before.len() && j != i && !has_id(after, (#[trigger] before[j]).key()) ==> older(
                        before[j],
                        before[i],
                    )) implies total_bytes(after) + before[i].weight() > max_bytes by {
                let kl = choose|k: int| 0 <= k < before.len() && before[k] == last;
                if kl != i {
                    assert(!has_id(after, before[kl].key()));
                    assert(older(before[kl], before[i]));
                    assert(gone.contains(before[i].0));
                    assert(older(before[i], last));
                    lemma_older_total(before[i], last);
                }
            }
            assert(total_bytes(before) > max_bytes);
        }
        victims
    }

    /// The text of the index file: `<tick> <64-hex> <size>` per row, in id
    /// order, each line ending in a newline.
    pub fn index_text(&self) -> (t: String)
        ensures
            t@ == index_text_of(self.index_view()),
    {
        let ghost s = self.index_view();
        let mut t = String::new();
        let mut i: usize = 0;
        proof {
            assert(s.take(0) =~= Seq::<IndexView>::empty());
        }
        while i < self.entries.len()
            invariant
                0 <= i <= self.entries@.len(),
                s == self.index_view(),
                t@ == index_text_of(s.take(i as int)),
            decreases self.entries@.len() - i,
        {
            let (id, e) = self.entries[i];
            assert(s[i as int] == (id@, e.tick, e.size));
            let ghost before = t@;
            push_decimal(&mut t, e.tick);
            proof { reveal_strlit(" "); reveal_strlit("\n"); }
            t.append(" ");
            let h = id.hex();
            t.append(h.as_str());
            t.append(" ");
            push_decimal(&mut t, e.size);
            t.append("\n");
            proof {
                assert(s.take(i + 1).drop_last() =~= s.take(i as int));
                assert(s.take(i + 1).last() == s[i as int]);
                assert(t@ =~= before + index_line(s[i as int]));
            }
            i = i + 1;
        }
        assert(s.take(i as int) =~= s);
        t
    }

    /// What persisting the index writes: the index file's path and its
    /// full text.
    pub fn flush_index(&self) -> (w: (String, String))
        ensures
            w.0@ == join_path(self.root_view(), ".index"@),
            w.1@ == index_text_of(self.index_view()),
    {
        (self.index_path(), self.index_text())
    }
}

} // verus!
