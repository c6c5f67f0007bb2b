//! The on-disk cache's scenarios, run against the library's index logic
//! with an in-memory stand-in for the filesystem.

use std::collections::BTreeMap;

use rge_core::asset_id::AssetId;
use rge_core::index_file::{is_shard_name, parse_index, payload_file_id};
use rge_core::layout::path_for;
use rge_core::local::LocalCache;

/// Files by path.
type Disk = BTreeMap<String, Vec<u8>>;

struct SimCache {
    cache: LocalCache,
}

fn open(disk: &Disk, root: &str) -> SimCache {
    let index_path = format!("{root}/.index");
    let rows = match disk.get(&index_path) {
        Some(bytes) => parse_index(std::str::from_utf8(bytes).unwrap()).expect("index parses"),
        None => Vec::new(),
    };
    let mut cache = LocalCache::open_index(root.to_string(), rows);
    let present: Vec<bool> = cache.ids().iter().map(|id| disk.contains_key(&cache.payload_path(id))).collect();
    cache.retain_rows(&present);
    let prefix = format!("{root}/");
    for (path, bytes) in disk.iter() {
        let Some(rest) = path.strip_prefix(&prefix) else { continue };
        let parts: Vec<&str> = rest.split('/').collect();
        if parts.len() != 2 || !is_shard_name(parts[0]) {
            continue;
        }
        if let Some(id) = payload_file_id(parts[1]) {
            cache.adopt(&id, bytes.len() as u64);
        }
    }
    cache.rewind_tick();
    SimCache { cache }
}

impl SimCache {
    fn put(&mut self, disk: &mut Disk, bytes: Vec<u8>) -> AssetId {
        let id = AssetId::from_bytes(&bytes);
        let path = self.cache.payload_path(&id);
        let len = bytes.len() as u64;
        disk.entry(path).or_insert(bytes);
        self.cache.record_access(&id, len);
        id
    }

    fn get(&mut self, disk: &Disk, id: &AssetId) -> Option<Vec<u8>> {
        match disk.get(&self.cache.payload_path(id)) {
            None => {
                self.cache.forget(id);
                None
            }
            Some(bytes) => {
                self.cache.record_access(id, bytes.len() as u64);
                Some(bytes.clone())
            }
        }
    }

    fn evict_lru(&mut self, disk: &mut Disk, max_bytes: u64) {
        for id in self.cache.evict_plan(max_bytes) {
            disk.remove(&self.cache.payload_path(&id));
            self.cache.forget(&id);
        }
    }

    fn flush_index(&self, disk: &mut Disk) {
        let (path, text) = self.cache.flush_index();
        disk.insert(path, text.into_bytes());
    }
}

const ROOT: &str = "/tmp/cache-root";

fn fresh_cache() -> (Disk, SimCache) {
    let disk = Disk::new();
    let cache = open(&disk, ROOT);
    (disk, cache)
}

#[test]
fn put_and_get_round_trip() {
    let (mut disk, mut cache) = fresh_cache();
    let id = cache.put(&mut disk, b"hello world".to_vec());
    let got = cache.get(&disk, &id).expect("present");
    assert_eq!(got, b"hello world");
}

#[test]
fn put_writes_to_two_char_prefix_layout() {
    let (mut disk, mut cache) = fresh_cache();
    let id = cache.put(&mut disk, b"on disk".to_vec());
    let expected = path_for(cache.cache.root(), &id);
    assert!(disk.contains_key(&expected), "expected {expected} to exist");
    let parent = &expected[..expected.rfind('/').unwrap()];
    let parent_name = &parent[parent.rfind('/').unwrap() + 1..];
    assert_eq!(parent_name.len(), 2);
    assert!(parent_name.chars().all(|c| c.is_ascii_hexdigit()));
}

#[test]
fn put_dedups_repeated_input() {
    let (mut disk, mut cache) = fresh_cache();
    let a = cache.put(&mut disk, b"same".to_vec());
    let b = cache.put(&mut disk, b"same".to_vec());
    assert_eq!(a, b);
    assert_eq!(cache.cache.len(), 1, "dedup should keep one entry");
}

#[test]
fn dedup_no_double_storage_one_file_on_disk() {
    let (mut disk, mut cache) = fresh_cache();
    cache.put(&mut disk, b"x".to_vec());
    cache.put(&mut disk, b"x".to_vec());
    cache.put(&mut disk, b"x".to_vec());
    let id = AssetId::from_bytes(b"x");
    let path = path_for(cache.cache.root(), &id);
    assert!(disk.contains_key(&path));
    let shard = &path[..path.rfind('/').unwrap() + 1];
    let n = disk.keys().filter(|k| k.starts_with(shard)).count();
    assert_eq!(n, 1, "shard dir should contain exactly one file");
}

#[test]
fn missing_id_returns_none() {
    let (disk, mut cache) = fresh_cache();
    let id = AssetId::from_bytes(b"never inserted");
    assert!(cache.get(&disk, &id).is_none());
}

#[test]
fn evict_lru_drops_least_recent_until_under_cap() {
    let (mut disk, mut cache) = fresh_cache();
    let id1 = cache.put(&mut disk, vec![0u8; 100]);
    let id2 = cache.put(&mut disk, vec![1u8; 100]);
    let id3 = cache.put(&mut disk, vec![2u8; 100]);
    assert_eq!(cache.cache.total_size(), 300);
    cache.evict_lru(&mut disk, 150);
    assert!(cache.cache.total_size() <= 150);
    assert!(cache.get(&disk, &id3).is_some());
    assert!(cache.get(&disk, &id1).is_none());
    assert!(cache.get(&disk, &id2).is_none());
}

#[test]
fn evict_lru_zero_clears_cache_completely() {
    let (mut disk, mut cache) = fresh_cache();
    cache.put(&mut disk, b"a".to_vec());
    cache.put(&mut disk, b"b".to_vec());
    cache.evict_lru(&mut disk, 0);
    assert_eq!(cache.cache.len(), 0);
    assert_eq!(cache.cache.total_size(), 0);
}

#[test]
fn local_evict_lru_under_cap_is_noop() {
    let (mut disk, mut cache) = fresh_cache();
    cache.put(&mut disk, b"x".to_vec());
    let before = cache.cache.total_size();
    cache.evict_lru(&mut disk, 1_000_000);
    assert_eq!(cache.cache.total_size(), before);
}

#[test]
fn evict_lru_removes_files_from_disk_not_just_index() {
    let (mut disk, mut cache) = fresh_cache();
    let id = cache.put(&mut disk, b"goodbye".to_vec());
    let path = path_for(cache.cache.root(), &id);
    assert!(disk.contains_key(&path));
    cache.evict_lru(&mut disk, 0);
    assert!(!disk.contains_key(&path), "evicted file must be removed from disk");
}

#[test]
fn get_after_evict_returns_none() {
    let (mut disk, mut cache) = fresh_cache();
    let id = cache.put(&mut disk, b"poof".to_vec());
    cache.evict_lru(&mut disk, 0);
    assert!(cache.get(&disk, &id).is_none());
}

#[test]
fn get_bumps_recency_so_evict_keeps_recently_read() {
    let (mut disk, mut cache) = fresh_cache();
    let id1 = cache.put(&mut disk, vec![0u8; 100]);
    let id2 = cache.put(&mut disk, vec![1u8; 100]);
    drop(cache.get(&disk, &id1));
    cache.evict_lru(&mut disk, 100);
    assert!(cache.get(&disk, &id1).is_some(), "id1 was just read");
    assert!(cache.get(&disk, &id2).is_none(), "id2 must be evicted");
}

#[test]
fn index_persists_across_reopens() {
    let mut disk = Disk::new();
    let id;
    {
        let mut cache = open(&disk, ROOT);
        id = cache.put(&mut disk, b"durable".to_vec());
        cache.flush_index(&mut disk);
    }
    let mut c2 = open(&disk, ROOT);
    assert_eq!(c2.cache.len(), 1);
    let got = c2.get(&disk, &id).unwrap();
    assert_eq!(got, b"durable");
}

#[test]
fn reopen_without_flush_recovers_via_reconcile() {
    let mut disk = Disk::new();
    let id;
    {
        let mut cache = open(&disk, ROOT);
        id = cache.put(&mut disk, b"recoverable".to_vec());
        cache.flush_index(&mut disk);
    }
    let idx = format!("{ROOT}/.index");
    disk.remove(&idx);
    assert!(!disk.contains_key(&idx));
    let mut c2 = open(&disk, ROOT);
    assert_eq!(c2.cache.len(), 1, "reconciler must rediscover on-disk asset");
    let got = c2.get(&disk, &id).unwrap();
    assert_eq!(got, b"recoverable");
}

#[test]
fn reconcile_drops_indexed_but_missing_payload() {
    let mut disk = Disk::new();
    let id;
    {
        let mut cache = open(&disk, ROOT);
        id = cache.put(&mut disk, b"will be deleted".to_vec());
        cache.flush_index(&mut disk);
    }
    disk.remove(&path_for(ROOT, &id));
    let mut c2 = open(&disk, ROOT);
    assert_eq!(c2.cache.len(), 0, "reconciler must drop entries with no payload");
    assert!(c2.get(&disk, &id).is_none());
}

#[test]
fn cross_machine_determinism_id_only_depends_on_input() {
    let mut disk = Disk::new();
    let mut cache1 = open(&disk, "/d1");
    let mut cache2 = open(&disk, "/d2");
    let id1 = cache1.put(&mut disk, b"determined".to_vec());
    let id2 = cache2.put(&mut disk, b"determined".to_vec());
    assert_eq!(id1, id2, "same bytes must yield same id on two caches");
    let p1 = path_for(cache1.cache.root(), &id1);
    let p2 = path_for(cache2.cache.root(), &id2);
    assert_eq!(p1.strip_prefix("/d1").unwrap(), p2.strip_prefix("/d2").unwrap());
}

#[test]
fn put_zero_byte_asset_round_trips() {
    let (mut disk, mut cache) = fresh_cache();
    let id = cache.put(&mut disk, Vec::new());
    let got = cache.get(&disk, &id).unwrap();
    assert!(got.is_empty());
    assert_eq!(cache.cache.total_size(), 0);
}

#[test]
fn total_size_matches_sum_of_entry_sizes() {
    let (mut disk, mut cache) = fresh_cache();
    cache.put(&mut disk, vec![0u8; 17]);
    cache.put(&mut disk, vec![0u8; 23]);
    cache.put(&mut disk, vec![0u8; 29]);
    assert_eq!(cache.cache.total_size(), 17 + 23 + 29);
}

#[test]
fn put_handles_concurrent_external_delete_gracefully() {
    let (mut disk, mut cache) = fresh_cache();
    let id = cache.put(&mut disk, b"vulnerable".to_vec());
    disk.remove(&path_for(ROOT, &id));
    assert!(cache.get(&disk, &id).is_none(), "missing payload must surface as None");
    assert_eq!(cache.cache.len(), 0, "index must self-heal on observed-missing");
}
