//! The tessellation cache: meshes keyed by an operator's structural hash
//! and the tolerance they were tessellated at, with hit and miss counters.
//! The tolerance enters the key already quantized to an integer, so that
//! two tolerances that quantize alike share an entry.

use std::sync::Arc;

use vstd::prelude::*;

verus! {

/// A cache key: the 32-byte structural hash and the quantized tolerance.
#[derive(Clone, Copy, Debug)]
pub struct CacheKey {
    pub structural_hash: [u8; 32],
    pub tolerance: u64,
}

/// A key as specifications see it.
pub type KeyView = (Seq<u8>, u64);

impl View for CacheKey {
    type V = KeyView;

    open spec fn view(&self) -> KeyView {
        (self.structural_hash@, self.tolerance)
    }
}

impl CacheKey {
    /// Whether two keys are the same key.
    pub fn same_as(&self, other: &CacheKey) -> (r: bool)
        ensures
            r == (self@ == other@),
    {
        if self.tolerance != other.tolerance {
            return false;
        }
        let mut i: usize = 0;
        while i < 32
            invariant
                0 <= i <= 32,
                self.structural_hash@.len() == 32,
                other.structural_hash@.len() == 32,
                forall|j: int| 0 <= j < i ==> self.structural_hash@[j] == other.structural_hash@[j],
            decreases 32 - i,
        {
            if self.structural_hash[i] != other.structural_hash[i] {
                return false;
            }
            i = i + 1;
        }
        assert(self.structural_hash@ =~= other.structural_hash@);
        true
    }
}

/// The keys of the entries are distinct.
pub open spec fn keys_distinct<V>(s: Seq<(CacheKey, V)>) -> bool {
    forall|i: int, j: int| 0 <= i < s.len() && 0 <= j < s.len() && i != j ==> (#[trigger] s[i]).0@ != (#[trigger] s[j]).0@
}

/// The entries as a map from key to value.
pub open spec fn entries_map<V>(s: Seq<(CacheKey, V)>) -> Map<KeyView, V> {
    Map::new(
        |k: KeyView| exists|i: int| 0 <= i < s.len() && (#[trigger] s[i]).0@ == k,
        |k: KeyView| s[choose|i: int| 0 <= i < s.len() && (#[trigger] s[i]).0@ == k].1,
    )
}

/// Calls `Arc::clone`, which std documents as making another pointer to
/// the same allocation: the value behind the new handle is the same value.
#[verifier::external_body]
fn share<V>(a: &Arc<V>) -> (r: Arc<V>)
    ensures
        r == *a,
{
    Arc::clone(a)
}

/// Meshes (or anything else) cached by key, with hit and miss counters.
/// Values are held behind `Arc`, so a lookup hands out a shared handle.
#[derive(Debug)]
pub struct TessellationCache<V> {
    entries: Vec<(CacheKey, Arc<V>)>,
    hits: u64,
    misses: u64,
}

impl<V> TessellationCache<V> {
    pub closed spec fn map_view(&self) -> Map<KeyView, Arc<V>> {
        entries_map(self.entries@)
    }

    pub closed spec fn hits_view(&self) -> u64 {
        self.hits
    }

    pub closed spec fn misses_view(&self) -> u64 {
        self.misses
    }

    #[verifier::type_invariant]
    closed spec fn inv(&self) -> bool {
        keys_distinct(self.entries@)
    }

    /// An empty cache with both counters at zero.
    pub fn new() -> (c: Self)
        ensures
            c.map_view() == Map::<KeyView, Arc<V>>::empty(),
            c.hits_view() == 0,
            c.misses_view() == 0,
    {
        let c = TessellationCache { entries: Vec::new(), hits: 0, misses: 0 };
        assert(entries_map(c.entries@) =~= Map::<KeyView, Arc<V>>::empty());
        c
    }

    fn position(&self, key: &CacheKey) -> (r: Option<usize>)
        ensures
            match r {
                Some(i) => i < self.entries@.len() && self.entries@[i as int].0@ == key@,
                None => forall|i: int| 0 <= i < self.entries@.len() ==> (#[trigger] self.entries@[i]).0@ != key@,
            },
    {
        let mut i: usize = 0;
        while i < self.entries.len()
            invariant
                0 <= i <= self.entries@.len(),
                forall|j: int| 0 <= j < i ==> (#[trigger] self.entries@[j]).0@ != key@,
            decreases self.entries@.len() - i,
        {
            if self.entries[i].0.same_as(key) {
                return Some(i);
            }
            i = i + 1;
        }
        None
    }

    /// A handle to the value cached under `key`, if any.
    pub fn get(&self, key: &CacheKey) -> (r: Option<Arc<V>>)
        ensures
            match r {
                Some(v) => self.map_view().contains_key(key@) && *v == self.map_view()[key@],
                None => !self.map_view().contains_key(key@),
            },
    {
        proof { use_type_invariant(self); }
        match self.position(key) {
            Some(i) => {
                let ghost s = self.entries@;
                proof {
                    let c = choose|j: int| 0 <= j < s.len() && (#[trigger] s[j]).0@ == key@;
                    assert(c == i);
                }
                Some(share(&self.entries[i].1))
            },
            None => None,
        }
    }

    /// Cache `value` under `key`, replacing what was cached there, and
    /// return a handle to it.
    pub fn insert(&mut self, key: CacheKey, value: V) -> (r: Arc<V>)
        ensures
            *r == value,
            final(self).map_view() == old(self).map_view().insert(key@, r),
            final(self).hits_view() == old(self).hits_view(),
            final(self).misses_view() == old(self).misses_view(),
    {
        proof { use_type_invariant(&*self); }
        let stored = Arc::new(value);
        let out = share(&stored);
        let value = stored;
        let ghost before = self.entries@;
        let mut entries: Vec<(CacheKey, Arc<V>)> = Vec::new();
        std::mem::swap(&mut entries, &mut self.entries);
        let pos = self.position_in(&entries, &key);
        match pos {
            Some(i) => {
                entries.set(i, (key, value));
                proof {
                    let after = entries@;
                    assert(keys_distinct(after));
                    assert forall|k: KeyView| #[trigger] entries_map(after).contains_key(k) == entries_map(before).insert(key@, value).contains_key(k) by {
                        if k != key@ && entries_map(before).contains_key(k) {
                            let j = choose|j: int| 0 <= j < before.len() && (#[trigger] before[j]).0@ == k;
                            assert(after[j].0@ == k);
                        }
                        if k == key@ {
                            assert(after[i as int].0@ == k);
                        }
                        if entries_map(after).contains_key(k) && k != key@ {
                            let j = choose|j: int| 0 <= j < after.len() && (#[trigger] after[j]).0@ == k;
                            assert(before[j].0@ == k);
                        }
                    }
                    assert forall|k: KeyView| #[trigger] entries_map(after).contains_key(k) implies entries_map(after)[k] == entries_map(before).insert(key@, value)[k] by {
                        let j = choose|j: int| 0 <= j < after.len() && (#[trigger] after[j]).0@ == k;
                        if k == key@ {
                            assert(j == i);
                        } else {
                            let jb = choose|jb: int| 0 <= jb < before.len() && (#[trigger] before[jb]).0@ == k;
                            assert(after[jb].0@ == k);
                            assert(jb == j);
                        }
                    }
                    assert(entries_map(after) =~= entries_map(before).insert(key@, value));
                }
            },
            None => {
                entries.push((key, value));
                proof {
                    let after = entries@;
                    assert(keys_distinct(after));
                    assert forall|k: KeyView| #[trigger] entries_map(after).contains_key(k) == entries_map(before).insert(key@, value).contains_key(k) by {
                        if k != key@ && entries_map(before).contains_key(k) {
                            let j = choose|j: int| 0 <= j < before.len() && (#[trigger] before[j]).0@ == k;
                            assert(after[j].0@ == k);
                        }
                        if k == key@ {
                            assert(after[after.len() - 1].0@ == k);
                        }
                        if entries_map(after).contains_key(k) && k != key@ {
                            let j = choose|j: int| 0 <= j < after.len() && (#[trigger] after[j]).0@ == k;
                            assert(before[j].0@ == k);
                        }
                    }
                    assert forall|k: KeyView| #[trigger] entries_map(after).contains_key(k) implies entries_map(after)[k] == entries_map(before).insert(key@, value)[k] by {
                        let j = choose|j: int| 0 <= j < after.len() && (#[trigger] after[j]).0@ == k;
                        if k == key@ {
                            assert(j == after.len() - 1);
                        } else {
                            let jb = choose|jb: int| 0 <= jb < before.len() && (#[trigger] before[jb]).0@ == k;
                            assert(after[jb].0@ == k);
                            assert(jb == j);
                        }
                    }
                    assert(entries_map(after) =~= entries_map(before).insert(key@, value));
                }
            },
        }
        self.entries = entries;
        out
    }

    fn position_in(&self, entries: &Vec<(CacheKey, Arc<V>)>, key: &CacheKey) -> (r: Option<usize>)
        ensures
            match r {
                Some(i) => i < entries@.len() && entries@[i as int].0@ == key@,
                None => forall|i: int| 0 <= i < entries@.len() ==> (#[trigger] entries@[i]).0@ != key@,
            },
    {
        let mut i: usize = 0;
        while i < entries.len()
            invariant
                0 <= i <= entries@.len(),
                forall|j: int| 0 <= j < i ==> (#[trigger] entries@[j]).0@ != key@,
            decreases entries@.len() - i,
        {
            if entries[i].0.same_as(key) {
                return Some(i);
            }
            i = i + 1;
        }
        None
    }

    /// Count a lookup that found its mesh (saturating).
    pub fn record_hit(&mut self)
        ensures
            final(self).hits_view() == (if old(self).hits_view() == u64::MAX { u64::MAX } else { (old(self).hits_view() + 1) as u64 }),
            final(self).misses_view() == old(self).misses_view(),
            final(self).map_view() == old(self).map_view(),
    {
        proof { use_type_invariant(&*self); }
        self.hits = self.hits.saturating_add(1);
    }

    /// Count a lookup that had to tessellate (saturating).
    pub fn record_miss(&mut self)
        ensures
            final(self).misses_view() == (if old(self).misses_view() == u64::MAX { u64::MAX } else { (old(self).misses_view() + 1) as u64 }),
            final(self).hits_view() == old(self).hits_view(),
            final(self).map_view() == old(self).map_view(),
    {
        proof { use_type_invariant(&*self); }
        self.misses = self.misses.saturating_add(1);
    }

    pub fn hits(&self) -> (n: u64)
        ensures
            n == self.hits_view(),
    {
        self.hits
    }

    pub fn misses(&self) -> (n: u64)
        ensures
            n == self.misses_view(),
    {
        self.misses
    }

    /// Number of lookups counted, hits and misses together.
    pub fn lookups(&self) -> (n: u128)
        ensures
            n == self.hits_view() + self.misses_view(),
    {
        self.hits as u128 + self.misses as u128
    }

    /// Number of cached entries.
    pub fn len(&self) -> (n: usize)
        ensures
            n == self.map_view().len(),
    {
        proof {
            use_type_invariant(self);
            lemma_entries_map_len(self.entries@);
        }
        self.entries.len()
    }

    /// Drop every entry and reset both counters.
    pub fn clear(&mut self)
        ensures
            final(self).map_view() == Map::<KeyView, Arc<V>>::empty(),
            final(self).hits_view() == 0,
            final(self).misses_view() == 0,
    {
        self.entries = Vec::new();
        self.hits = 0;
        self.misses = 0;
        assert(entries_map(self.entries@) =~= Map::<KeyView, Arc<V>>::empty());
    }
}

proof fn lemma_entries_map_len<V>(s: Seq<(CacheKey, V)>)
    requires
        keys_distinct(s),
    ensures
        entries_map(s).len() == s.len(),
        entries_map(s).dom().finite(),
    decreases s.len(),
{
    if s.len() == 0 {
        assert(entries_map(s).dom() =~= Set::<KeyView>::empty());
    } else {
        let t = s.drop_last();
        assert(keys_distinct(t));
        lemma_entries_map_len(t);
        let k = s.last().0@;
        assert(entries_map(s).dom() =~= entries_map(t).dom().insert(k)) by {
            assert forall|x: KeyView| #[trigger] entries_map(s).dom().contains(x) == entries_map(t).dom().insert(k).contains(x) by {
                if entries_map(s).dom().contains(x) && x != k {
                    let j = choose|j: int| 0 <= j < s.len() && (#[trigger] s[j]).0@ == x;
                    assert(t[j].0@ == x);
                }
                if entries_map(t).dom().contains(x) {
                    let j = choose|j: int| 0 <= j < t.len() && (#[trigger] t[j]).0@ == x;
                    assert(s[j].0@ == x);
                }
                if x == k {
                    assert(s[s.len() - 1].0@ == x);
                }
            }
        }
        assert(!entries_map(t).dom().contains(k)) by {
            if entries_map(t).dom().contains(k) {
                let j = choose|j: int| 0 <= j < t.len() && (#[trigger] t[j]).0@ == k;
                assert(s[j].0@ == s[s.len() - 1].0@);
            }
        }
    }
}

} // verus!
