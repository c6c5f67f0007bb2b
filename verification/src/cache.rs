//! The [`Cache`] trait and [`InMemoryCache`], a deterministic in-memory
//! implementation with least-recently-used eviction.
//!
//! Recency is a monotonic tick counter bumped on every use (`get` of a
//! stored id, or `put`); eviction drops
//! entries in ascending `(tick, id)` order until the stored size is within
//! the cap.

use vstd::prelude::*;

use crate::asset_id::{blake3_digest, AssetId};
use crate::recency::{
    dropped_ids, evicted_to, has_id, ids_distinct, lemma_older_total, lemma_older_transitive,
    lemma_total_bytes_bound, lemma_total_bytes_positive, lemma_total_bytes_push, lemma_total_bytes_remove,
    lemma_total_bytes_update_same_size, lemma_without_ids_contains, lemma_without_ids_distinct,
    lemma_without_ids_empty, lemma_without_ids_has_id, lemma_without_ids_remove, older, total_bytes,
    without_ids, Recency,
};
use crate::error::CacheError;

verus! {

/// Owned byte payload.
pub type Bytes = Vec<u8>;

/// One stored entry as seen by specifications: `(id, bytes, last-touch tick)`.
pub type EntryView = (Seq<u8>, Seq<u8>, u64);

impl Recency for (Seq<u8>, Seq<u8>, u64) {
    open spec fn key(&self) -> Seq<u8> {
        self.0
    }

    open spec fn weight(&self) -> nat {
        self.1.len()
    }

    open spec fn stamp(&self) -> u64 {
        self.2
    }
}

/// The tick after one more touch (saturating).
pub open spec fn next_tick(t: u64) -> u64 {
    if t == u64::MAX {
        t
    } else {
        (t + 1) as u64
    }
}

/// Index of the entry with the given id, if any.
pub open spec fn index_of(s: Seq<EntryView>, id: Seq<u8>) -> int {
    choose|i: int| 0 <= i < s.len() && (#[trigger] s[i]).0 == id
}

/// The bytes stored under `id`, if any.
pub open spec fn get_spec(s: Seq<EntryView>, id: Seq<u8>) -> Option<Seq<u8>> {
    if has_id(s, id) {
        Some(s[index_of(s, id)].1)
    } else {
        None
    }
}

/// The entries after putting `bytes` (content id `id`) at tick `now`: a new
/// id is appended; an id already present keeps its bytes and gets `now`.
pub open spec fn put_spec(s: Seq<EntryView>, now: u64, id: Seq<u8>, bytes: Seq<u8>) -> Seq<EntryView> {
    if has_id(s, id) {
        let i = index_of(s, id);
        s.update(i, (s[i].0, s[i].1, now))
    } else {
        s.push((id, bytes, now))
    }
}

/// The entries after a use of `id` at tick `now`: a stored id gets `now`;
/// nothing changes when `id` is not stored.
pub open spec fn use_spec(s: Seq<EntryView>, now: u64, id: Seq<u8>) -> Seq<EntryView> {
    if has_id(s, id) {
        let i = index_of(s, id);
        s.update(i, (s[i].0, s[i].1, now))
    } else {
        s
    }
}

/// Every entry is stored under the digest of its own bytes.
pub open spec fn content_addressed(s: Seq<EntryView>) -> bool {
    forall|i: int| 0 <= i < s.len() ==> (#[trigger] s[i]).0 == blake3_digest(s[i].1)
}

// ---------------------------------------------------------------------------
// Laws
// ---------------------------------------------------------------------------

/// Round trip: after putting `bytes`, getting their id yields bytes with the
/// same digest; exactly `bytes` when the id was not stored before.
pub proof fn law_put_then_get(s: Seq<EntryView>, now: u64, bytes: Seq<u8>)
    requires
        ids_distinct(s),
        content_addressed(s),
    ensures
        ({
            let id = blake3_digest(bytes);
            let got = get_spec(put_spec(s, now, id, bytes), id);
            &&& got is Some
            &&& blake3_digest(got.unwrap()) == id
            &&& !has_id(s, id) ==> got == Some(bytes)
        }),
{
    let id = blake3_digest(bytes);
    let t = put_spec(s, now, id, bytes);
    if has_id(s, id) {
        let i = index_of(s, id);
        assert(t[i].0 == id);
        let k = index_of(t, id);
        assert(t[k].0 == id);
        assert(k == i);
    } else {
        assert(t[s.len() as int].0 == id);
        let k = index_of(t, id);
        assert(t[k].0 == id);
        if k < s.len() {
            assert(s[k].0 == id);
        }
    }
}

/// Recency: after a put or a successful get of `id` at a tick later than
/// every stored tick, `id` is stored with that tick, and every other entry
/// is strictly older, so eviction drops it only after all of them.
pub proof fn law_use_makes_most_recent(s: Seq<EntryView>, now: u64, id: Seq<u8>, bytes: Seq<u8>)
    requires
        ids_distinct(s),
        forall|i: int| 0 <= i < s.len() ==> (#[trigger] s[i]).2 < now,
    ensures
        ({
            let t = put_spec(s, now, id, bytes);
            &&& has_id(t, id) && t[index_of(t, id)].2 == now
            &&& forall|j: int| 0 <= j < t.len() && (#[trigger] t[j]).0 != id ==> t[j].2 < now
        }),
        has_id(s, id) ==> ({
            let u = use_spec(s, now, id);
            &&& has_id(u, id) && u[index_of(u, id)].2 == now
            &&& forall|j: int| 0 <= j < u.len() && (#[trigger] u[j]).0 != id ==> u[j].2 < now
        }),
{
    let t = put_spec(s, now, id, bytes);
    if has_id(s, id) {
        let i = index_of(s, id);
        assert(t[i].0 == id);
        let k = index_of(t, id);
        assert(t[k].0 == id);
        if k != i {
            assert(s[k].0 == s[i].0);
        }
        let u = use_spec(s, now, id);
        assert(u[i].0 == id);
        let ku = index_of(u, id);
        assert(u[ku].0 == id);
        if ku != i {
            assert(s[ku].0 == s[i].0);
        }
    } else {
        assert(t[s.len() as int].0 == id);
        let k = index_of(t, id);
        assert(t[k].0 == id);
        if k < s.len() {
            assert(s[k].0 == id);
        }
    }
}

/// Idempotence: putting the same bytes twice leaves one logical entry; the
/// second put changes only the recency of that entry.
pub proof fn law_put_twice_one_entry(s: Seq<EntryView>, now1: u64, now2: u64, bytes: Seq<u8>)
    requires
        ids_distinct(s),
    ensures
        ({
            let id = blake3_digest(bytes);
            let once = put_spec(s, now1, id, bytes);
            let twice = put_spec(once, now2, id, bytes);
            &&& twice.len() == once.len()
            &&& once.len() == s.len() + (if has_id(s, id) { 0int } else { 1int })
            &&& forall|i: int| 0 <= i < once.len() ==> (#[trigger] twice[i]).0 == once[i].0 && twice[i].1 == once[i].1
        }),
{
    let id = blake3_digest(bytes);
    let once = put_spec(s, now1, id, bytes);
    if has_id(s, id) {
        let i = index_of(s, id);
        assert(once[i].0 == id);
    } else {
        assert(once[s.len() as int].0 == id);
    }
    assert(has_id(once, id));
}

/// Stored sizes: putting new bytes adds their length; putting bytes that are
/// already stored keeps the total.
pub proof fn law_put_total(s: Seq<EntryView>, now: u64, bytes: Seq<u8>)
    requires
        ids_distinct(s),
        content_addressed(s),
    ensures
        ({
            let id = blake3_digest(bytes);
            total_bytes(put_spec(s, now, id, bytes)) == total_bytes(s) + (if has_id(s, id) { 0 } else { bytes.len() })
        }),
{
    let id = blake3_digest(bytes);
    if has_id(s, id) {
        let i = index_of(s, id);
        lemma_total_bytes_update_same_size(s, i, (s[i].0, s[i].1, now));
    } else {
        lemma_total_bytes_push(s, (id, bytes, now));
    }
}

// ---------------------------------------------------------------------------
// The Cache trait
// ---------------------------------------------------------------------------

/// Content-addressed cache contract.
///
/// Implementations store byte payloads under the [`AssetId`] of their
/// content: putting the same bytes twice yields the same id and one logical
/// entry; getting an id back yields the stored bytes; eviction drops
/// least-recently-used entries until the stored size is within a cap.
pub trait Cache {
    /// Look up an asset by its content id; `Ok(None)` when it is not stored.
    /// A successful lookup counts as a use for least-recently-used eviction.
    fn get(&mut self, id: &AssetId) -> Result<Option<Bytes>, CacheError>;

    /// Store the given bytes and return their content id. Storing bytes that
    /// are already present only refreshes their recency.
    fn put(&mut self, bytes: Bytes) -> Result<AssetId, CacheError>;

    /// Evict least-recently-used entries until the stored size is
    /// `<= max_bytes`.
    fn evict_lru(&mut self, max_bytes: u64) -> Result<(), CacheError>;

    /// Total size in bytes of all stored payloads.
    fn total_size(&self) -> u64;

    /// Number of stored entries.
    fn len(&self) -> usize;

    /// Whether no entry is stored: whether `len` gives 0.
    fn is_empty(&self) -> (b: bool)
        ensures
            exists|n: usize| call_ensures(Self::len, (self,), n) && b == (n == 0),
    {
        self.len() == 0
    }
}

// ---------------------------------------------------------------------------
// InMemoryCache
// ---------------------------------------------------------------------------

/// One stored payload with its last-touch tick.
#[derive(Debug)]
pub struct CacheEntry {
    id: AssetId,
    bytes: Bytes,
    tick: u64,
}

impl View for CacheEntry {
    type V = EntryView;

    closed spec fn view(&self) -> EntryView {
        (self.id@, self.bytes@, self.tick)
    }
}

/// In-memory [`Cache`] with deterministic least-recently-used eviction.
///
/// Recency is a monotonic counter bumped on every use (a `get` that finds
/// its id, or a `put`), so eviction order
/// does not depend on wall-clock time.
#[derive(Debug)]
pub struct InMemoryCache {
    tick: u64,
    entries: Vec<CacheEntry>,
}

pub open spec fn entry_views(v: Seq<CacheEntry>) -> Seq<EntryView> {
    v.map_values(|e: CacheEntry| e@)
}

fn find_entry(entries: &Vec<CacheEntry>, id: &AssetId) -> (r: Option<usize>)
    ensures
        match r {
            Some(i) => i < entries@.len() && entry_views(entries@)[i as int].0 == id@,
            None => !has_id(entry_views(entries@), id@),
        },
{
    let mut i: usize = 0;
    while i < entries.len()
        invariant
            0 <= i <= entries@.len(),
            forall|j: int| 0 <= j < i ==> (#[trigger] entry_views(entries@)[j]).0 != id@,
        decreases entries@.len() - i,
    {
        if entries[i].id.same_as(id) {
            return Some(i);
        }
        i = i + 1;
    }
    None
}

impl InMemoryCache {
    /// The stored entries, in insertion order.
    pub closed spec fn entries_view(&self) -> Seq<EntryView> {
        entry_views(self.entries@)
    }

    /// The recency counter.
    pub closed spec fn tick_view(&self) -> u64 {
        self.tick
    }

    #[verifier::type_invariant]
    closed spec fn inv(&self) -> bool {
        &&& ids_distinct(self.entries_view())
        &&& content_addressed(self.entries_view())
        &&& forall|i: int| 0 <= i < self.entries@.len() ==> (#[trigger] self.entries@[i]).tick <= self.tick
        &&& forall|i: int| 0 <= i < self.entries@.len() ==> (#[trigger] self.entries@[i]).id@.len() == 32
    }

    /// Construct an empty cache.
    pub fn new() -> (c: Self)
        ensures
            c.entries_view() == Seq::<EntryView>::empty(),
            c.tick_view() == 0,
    {
        let c = InMemoryCache { tick: 0, entries: Vec::new() };
        assert(c.entries_view() =~= Seq::<EntryView>::empty());
        c
    }

    /// Bump the recency counter and return the new tick.
    fn touch(&mut self) -> (t: u64)
        ensures
            t == next_tick(old(self).tick_view()),
            final(self).tick_view() == t,
            final(self).entries_view() == old(self).entries_view(),
    {
        proof { use_type_invariant(&*self); }
        self.tick = self.tick.saturating_add(1);
        self.tick
    }

    /// Position of the entry with this id, if stored.
    fn find(&self, id: &AssetId) -> (r: Option<usize>)
        ensures
            match r {
                Some(i) => i < self.entries_view().len() && self.entries_view()[i as int].0 == id@,
                None => !has_id(self.entries_view(), id@),
            },
    {
        find_entry(&self.entries, id)
    }

    /// Exact sum of the stored payload sizes.
    fn stored_bytes(&self) -> (total: u128)
        ensures
            total == total_bytes(self.entries_view()),
    {
        let mut total: u128 = 0;
        let mut i: usize = 0;
        while i < self.entries.len()
            invariant
                0 <= i <= self.entries@.len(),
                total == total_bytes(self.entries_view().take(i as int)),
            decreases self.entries@.len() - i,
        {
            let ghost s = self.entries_view().take(i + 1);
            proof {
                assert(s.drop_last() =~= self.entries_view().take(i as int));
                assert forall|k: int| 0 <= k < s.len() implies (#[trigger] s[k]).1.len() <= usize::MAX by {
                    assert(s[k] == self.entries@[k]@);
                    assert(self.entries@[k].bytes@.len() == self.entries@[k].bytes.len());
                }
                lemma_total_bytes_bound(s, usize::MAX as nat);
                assert(s.len() * (usize::MAX as nat) <= (usize::MAX as nat) * (usize::MAX as nat)) by (nonlinear_arith)
                    requires s.len() <= usize::MAX;
            }
            assert(self.entries_view()[i as int] == self.entries@[i as int]@);
            assert(s.last() == self.entries_view()[i as int]);
            total = total + self.entries[i].bytes.len() as u128;
            i = i + 1;
        }
        assert(self.entries_view().take(i as int) =~= self.entries_view());
        total
    }

    /// Index of the least recently used entry (ties broken by id order).
    fn oldest_index(entries: &Vec<CacheEntry>) -> (m: usize)
        requires
            entries@.len() > 0,
            ids_distinct(entry_views(entries@)),
        ensures
            m < entries@.len(),
            forall|j: int| 0 <= j < entries@.len() && j != m ==> older(
                entry_views(entries@)[m as int],
                #[trigger] entry_views(entries@)[j],
            ),
    {
        let ghost s = entry_views(entries@);
        let mut best: usize = 0;
        let mut i: usize = 1;
        while i < entries.len()
            invariant
                1 <= i <= entries@.len(),
                best < i,
                s == entry_views(entries@),
                ids_distinct(s),
                forall|j: int| 0 <= j < i && j != best ==> older(s[best as int], #[trigger] s[j]),
            decreases entries@.len() - i,
        {
            let a = &entries[i];
            let b = &entries[best];
            assert(s[i as int] == a@);
            assert(s[best as int] == b@);
            let a_older = a.tick < b.tick || (a.tick == b.tick && a.id.lex_less(&b.id));
            proof {
                lemma_older_total(s[i as int], s[best as int]);
            }
            if a_older {
                proof {
                    assert forall|j: int| 0 <= j < i + 1 && j != i implies older(s[i as int], #[trigger] s[j]) by {
                        if j != best {
                            lemma_older_transitive(s[i as int], s[best as int], s[j]);
                        }
                    }
                }
                best = i;
            }
            i = i + 1;
        }
        best
    }
}

impl Cache for InMemoryCache {
    /// The stored bytes for `id`, which counts as a use: the entry gets the
    /// next tick. `Ok(None)`, with nothing changed, when absent. Never fails.
    fn get(&mut self, id: &AssetId) -> (r: Result<Option<Bytes>, CacheError>)
        ensures
            match r {
                Ok(Some(b)) => {
                    &&& get_spec(old(self).entries_view(), id@) == Some(b@)
                    &&& blake3_digest(b@) == id@
                    &&& final(self).tick_view() == next_tick(old(self).tick_view())
                    &&& final(self).entries_view() == use_spec(
                        old(self).entries_view(),
                        final(self).tick_view(),
                        id@,
                    )
                },
                Ok(None) => {
                    &&& get_spec(old(self).entries_view(), id@) is None
                    &&& *final(self) == *old(self)
                },
                Err(_) => false,
            },
    {
        proof { use_type_invariant(&*self); }
        match self.find(id) {
            None => Ok(None),
            Some(k) => {
                let ghost s = self.entries_view();
                proof {
                    let idx = index_of(s, id@);
                    assert(s[k as int].0 == id@);
                    assert(s[idx].0 == id@);
                }
                let b = self.entries[k].bytes.clone();
                proof {
                    assert(b@ =~= self.entries@[k as int].bytes@);
                }
                let now = self.touch();
                proof { use_type_invariant(&*self); }
                let ghost pre = self.entries@;
                let ghost before = self.entries_view();
                proof {
                    assert forall|j: int| 0 <= j < self.entries@.len() implies (#[trigger] self.entries@[j]).tick <= now by {
                    }
                }
                let mut entries: Vec<CacheEntry> = Vec::new();
                std::mem::swap(&mut entries, &mut self.entries);
                assert(entry_views(entries@) == before);
                let mut e = entries.remove(k);
                e.tick = now;
                entries.insert(k, e);
                proof {
                    assert(entries@ =~= pre.update(k as int, entries@[k as int]));
                    assert(entries@[k as int].id == pre[k as int].id);
                    let idx = index_of(before, id@);
                    assert(before[k as int].0 == id@);
                    assert(before[idx].0 == id@);
                    assert(idx == k);
                    assert(entry_views(entries@) =~= before.update(k as int, (before[k as int].0, before[k as int].1, now)));
                    let after = entry_views(entries@);
                    assert forall|a: int, c: int| 0 <= a < after.len() && 0 <= c < after.len() && a != c implies (#[trigger] after[a]).0 != (#[trigger] after[c]).0 by {
                        assert(after[a].0 == before[a].0);
                        assert(after[c].0 == before[c].0);
                    }
                    assert forall|j: int| 0 <= j < entries@.len() implies (#[trigger] entries@[j]).tick <= now && entries@[j].id@.len() == 32 by {
                        assert(pre[j].tick <= now);
                    }
                    assert forall|j: int| 0 <= j < after.len() implies (#[trigger] after[j]).0 == blake3_digest(after[j].1) by {
                        assert(before[j].0 == blake3_digest(before[j].1));
                    }
                }
                self.entries = entries;
                Ok(Some(b))
            },
        }
    }

    /// Store `bytes` under their content id. A new id is appended with the
    /// next tick; an id already present keeps its bytes and gets the next
    /// tick. Never fails.
    fn put(&mut self, bytes: Bytes) -> (r: Result<AssetId, CacheError>)
        ensures
            match r {
                Ok(id) => {
                    &&& id@ == blake3_digest(bytes@)
                    &&& final(self).tick_view() == next_tick(old(self).tick_view())
                    &&& final(self).entries_view() == put_spec(old(self).entries_view(), final(self).tick_view(), id@, bytes@)
                },
                Err(_) => false,
            },
    {
        let id = AssetId::from_bytes(bytes.as_slice());
        let now = self.touch();
        proof { use_type_invariant(&*self); }
        let ghost before = self.entries_view();
        proof {
            assert forall|j: int| 0 <= j < self.entries@.len() implies (#[trigger] self.entries@[j]).tick <= now && self.entries@[j].id@.len() == 32 by {
            }
        }
        let ghost pre = self.entries@;
        let mut entries: Vec<CacheEntry> = Vec::new();
        std::mem::swap(&mut entries, &mut self.entries);
        assert(entry_views(entries@) == before);
        let found = find_entry(&entries, &id);
        match found {
            Some(k) => {
                let mut e = entries.remove(k);
                e.tick = now;
                entries.insert(k, e);
                proof {
                    assert(entries@ =~= pre.update(k as int, entries@[k as int]));
                    assert(entries@[k as int].id == pre[k as int].id);
                    let idx = index_of(before, id@);
                    assert(before[k as int].0 == id@);
                    assert(before[idx].0 == id@);
                    assert(idx == k);
                    assert(entry_views(entries@) =~= before.update(k as int, (before[k as int].0, before[k as int].1, now)));
                }
            },
            None => {
                assert(!has_id(before, id@));
                let e = CacheEntry { id, bytes, tick: now };
                entries.push(e);
                assert(entries@ =~= pre.push(entries@[pre.len() as int]));
                assert(entry_views(entries@) =~= before.push((id@, bytes@, now)));
            },
        }
        proof {
            let after = entry_views(entries@);
            assert forall|a: int, b: int| 0 <= a < after.len() && 0 <= b < after.len() && a != b implies (#[trigger] after[a]).0 != (#[trigger] after[b]).0 by {
                if a < before.len() && b < before.len() {
                    assert(after[a].0 == before[a].0);
                    assert(after[b].0 == before[b].0);
                }
            }
            assert forall|j: int| 0 <= j < entries@.len() implies (#[trigger] entries@[j]).tick <= now && entries@[j].id@.len() == 32 by {
                if j < pre.len() {
                    assert(pre[j].tick <= now);
                }
            }
            assert forall|j: int| 0 <= j < after.len() implies (#[trigger] after[j]).0 == blake3_digest(after[j].1) by {
                if j < before.len() {
                    assert(before[j].0 == blake3_digest(before[j].1));
                }
            }
        }
        self.entries = entries;
        Ok(id)
    }

    fn evict_lru(&mut self, max_bytes: u64) -> (r: Result<(), CacheError>)
        ensures
            r is Ok,
            final(self).tick_view() == old(self).tick_view(),
            evicted_to(old(self).entries_view(), final(self).entries_view(), max_bytes as nat),
    {
        proof { use_type_invariant(&*self); }
        let ghost before = self.entries_view();
        let total0 = self.stored_bytes();
        if total0 <= max_bytes as u128 {
            proof {
                lemma_without_ids_empty(before);
                assert(dropped_ids(before, before) =~= Set::<Seq<u8>>::empty());
            }
            return Ok(());
        }
        let mut entries: Vec<CacheEntry> = Vec::new();
        std::mem::swap(&mut entries, &mut self.entries);
        let mut total: u128 = total0;
        let ghost mut gone: Set<Seq<u8>> = Set::empty();
        let ghost mut last: EntryView = before[0];
        proof {
            lemma_without_ids_empty(before);
        }
        while total > max_bytes as u128
            invariant
                entry_views(entries@) == without_ids(before, gone),
                ids_distinct(before),
                total == total_bytes(entry_views(entries@)),
                total0 == total_bytes(before),
                total0 > max_bytes,
                forall|j: int| 0 <= j < entries@.len() ==> (#[trigger] entries@[j]).tick <= self.tick && entries@[j].id@.len() == 32,
                forall|i: int, j: int|
                    0 <= i < before.len() && 0 <= j < before.len() && gone.contains((#[trigger] before[i]).0)
                        && !gone.contains((#[trigger] before[j]).0) ==> older(before[i], before[j]),
                forall|id: Seq<u8>| gone.contains(id) ==> has_id(before, id),
                gone.is_empty() ==> total == total0,
                !gone.is_empty() ==> {
                    &&& has_id(before, last.0)
                    &&& gone.contains(last.0)
                    &&& (exists|k: int| 0 <= k < before.len() && before[k] == last)
                    &&& total + last.1.len() > max_bytes
                    &&& forall|i: int| 0 <= i < before.len() && gone.contains((#[trigger] before[i]).0) && before[i].0 != last.0 ==> older(before[i], last)
                },
            decreases entries@.len(),
        {
            let ghost cur = entry_views(entries@);
            proof {
                lemma_total_bytes_positive(cur);
                lemma_without_ids_distinct(before, gone);
            }
            let m = Self::oldest_index(&entries);
            let e = entries.remove(m);
            proof {
                let x = cur[m as int];
                assert(x == e@);
                lemma_total_bytes_remove(cur, m as int);
                lemma_without_ids_remove(before, gone, m as int);
                assert(entry_views(entries@) =~= cur.remove(m as int));
                lemma_without_ids_contains(before, gone, m as int);
                let kx = choose|k: int| 0 <= k < before.len() && before[k] == (#[trigger] without_ids(before, gone)[m as int]);
                assert(before[kx] == x);
                // every entry still kept is younger than the one removed now
                assert forall|i: int, j: int|
                    0 <= i < before.len() && 0 <= j < before.len() && gone.insert(x.0).contains((#[trigger] before[i]).0)
                        && !gone.insert(x.0).contains((#[trigger] before[j]).0) implies older(before[i], before[j]) by {
                    if before[i].0 == x.0 {
                        assert(i == kx);
                        lemma_without_ids_has_id(before, gone, before[j].0);
                        assert(has_id(before, before[j].0));
                        let jj = choose|t: int| 0 <= t < cur.len() && (#[trigger] cur[t]).0 == before[j].0;
                        assert(jj != m);
                        lemma_without_ids_contains(before, gone, jj);
                        let kj = choose|k: int| 0 <= k < before.len() && before[k] == (#[trigger] without_ids(before, gone)[jj]);
                        assert(before[kj].0 == before[j].0);
                        assert(kj == j);
                        assert(older(cur[m as int], cur[jj]));
                    }
                }
                if !gone.is_empty() {
                    assert(older(last, x)) by {
                        let kl = choose|k: int| 0 <= k < before.len() && before[k] == last;
                        assert(gone.contains(before[kl].0));
                        assert(!gone.contains(before[kx].0));
                    }
                }
                assert forall|i: int| 0 <= i < before.len() && gone.insert(x.0).contains((#[trigger] before[i]).0) && before[i].0 != x.0 implies older(before[i], x) by {
                    assert(!gone.contains(before[kx].0));
                }
            }
            total = total - e.bytes.len() as u128;
            proof {
                gone = gone.insert(e@.0);
                last = e@;
            }
        }
        proof {
            let after = entry_views(entries@);
            assert forall|id: Seq<u8>| #![auto] has_id(before, id) implies (gone.contains(id) == !has_id(after, id)) by {
                lemma_without_ids_has_id(before, gone, id);
            }
            assert(dropped_ids(before, after) =~= gone);
            assert(!gone.is_empty()) by {
                if gone.is_empty() {
                    assert(total == total0);
                }
            }
            assert forall|i: int| 0 <= i < before.len() implies (!has_id(after, (#[trigger] before[i]).0) == gone.contains(before[i].0)) by {
                assert(has_id(before, before[i].0));
            }
            assert forall|i: int|
                0 <= i < before.len() && !has_id(after, (#[trigger] before[i]).0) && (forall|j: int|
                    0 <= j < before.len() && j != i && !has_id(after, (#[trigger] before[j]).0) ==> older(
                        before[j],
                        before[i],
                    )) implies total_bytes(after) + before[i].1.len() > max_bytes by {
                let kl = choose|k: int| 0 <= k < before.len() && before[k] == last;
                if kl != i {
                    assert(!has_id(after, before[kl].0));
                    assert(older(before[kl], before[i]));
                    assert(gone.contains(before[i].0));
                    assert(older(before[i], last));
                    lemma_older_total(before[i], last);
                }
            }
            assert(total_bytes(before) > max_bytes);
            lemma_without_ids_distinct(before, gone);
            assert forall|k: int| 0 <= k < after.len() implies (#[trigger] after[k]).0 == blake3_digest(after[k].1) by {
                lemma_without_ids_contains(before, gone, k);
                let i = choose|i: int| 0 <= i < before.len() && before[i] == (#[trigger] without_ids(before, gone)[k]);
                assert(before[i].0 == blake3_digest(before[i].1));
            }
        }
        self.entries = entries;
        Ok(())
    }
    /// Total stored size, saturating at `u64::MAX`.
    fn total_size(&self) -> (n: u64)
        ensures
            n as int == if total_bytes(self.entries_view()) <= u64::MAX { total_bytes(self.entries_view()) as int } else { u64::MAX as int },
    {
        let t = self.stored_bytes();
        if t <= u64::MAX as u128 {
            t as u64
        } else {
            u64::MAX
        }
    }

    fn len(&self) -> (n: usize)
        ensures
            n == self.entries_view().len(),
    {
        self.entries.len()
    }

    fn is_empty(&self) -> (b: bool)
        ensures
            b == (self.entries_view().len() == 0),
    {
        let n = self.len();
        n == 0
    }
}

} // verus!
