use rge_core::asset_id::{AssetId, AssetIdParseError};
use rge_core::cache::{Cache, InMemoryCache};

#[test]
fn put_returns_content_addressed_id() {
    let mut c = InMemoryCache::new();
    let id = c.put(b"hello".to_vec()).expect("put");
    assert_eq!(id, AssetId::from_bytes(b"hello"));
}

#[test]
fn put_then_get_round_trips_bytes() {
    let mut c = InMemoryCache::new();
    let id = c.put(b"data".to_vec()).expect("put");
    let got = c.get(&id).expect("get").expect("present");
    assert_eq!(got, b"data");
}

#[test]
fn dedup_one_logical_entry_for_repeated_put() {
    let mut c = InMemoryCache::new();
    let a = c.put(b"same".to_vec()).expect("a");
    let b = c.put(b"same".to_vec()).expect("b");
    assert_eq!(a, b);
    assert_eq!(c.len(), 1, "dedup must collapse to one entry");
}

#[test]
fn missing_id_returns_none_not_error() {
    let mut c = InMemoryCache::new();
    let id = AssetId::from_bytes(b"never inserted");
    assert!(c.get(&id).expect("not an error").is_none());
}

#[test]
fn evict_lru_respects_cap() {
    let mut c = InMemoryCache::new();
    c.put(vec![1u8; 100]).unwrap();
    c.put(vec![2u8; 100]).unwrap();
    c.put(vec![3u8; 100]).unwrap();
    assert_eq!(c.total_size(), 300);
    c.evict_lru(200).unwrap();
    assert!(c.total_size() <= 200, "total {} > cap 200", c.total_size());
}

#[test]
fn cache_evict_lru_drops_oldest_first() {
    let mut c = InMemoryCache::new();
    let id1 = c.put(vec![1u8; 100]).unwrap();
    let id2 = c.put(vec![2u8; 100]).unwrap();
    let id3 = c.put(vec![3u8; 100]).unwrap();
    c.evict_lru(100).unwrap();
    assert_eq!(c.len(), 1);
    assert!(c.get(&id3).unwrap().is_some());
    assert!(c.get(&id1).unwrap().is_none());
    assert!(c.get(&id2).unwrap().is_none());
}

#[test]
fn evict_lru_zero_cap_clears_everything() {
    let mut c = InMemoryCache::new();
    c.put(vec![1u8; 50]).unwrap();
    c.put(vec![2u8; 50]).unwrap();
    c.evict_lru(0).unwrap();
    assert_eq!(c.len(), 0);
    assert_eq!(c.total_size(), 0);
}

#[test]
fn cache_evict_lru_under_cap_is_noop() {
    let mut c = InMemoryCache::new();
    c.put(vec![1u8; 50]).unwrap();
    let before = c.total_size();
    c.evict_lru(1_000).unwrap();
    assert_eq!(c.total_size(), before);
}

#[test]
fn put_after_evict_re_inserts_cleanly() {
    let mut c = InMemoryCache::new();
    let id = c.put(vec![9u8; 50]).unwrap();
    c.evict_lru(0).unwrap();
    assert!(c.get(&id).unwrap().is_none());
    let id2 = c.put(vec![9u8; 50]).unwrap();
    assert_eq!(id, id2, "id is content-addressed; reinsertion preserves it");
    assert!(c.get(&id).unwrap().is_some());
}

#[test]
fn is_empty_tracks_len() {
    let mut c = InMemoryCache::new();
    assert!(c.is_empty());
    c.put(b"x".to_vec()).unwrap();
    assert!(!c.is_empty());
    c.evict_lru(0).unwrap();
    assert!(c.is_empty());
}

#[test]
fn repeated_put_refreshes_recency_for_eviction() {
    let mut c = InMemoryCache::new();
    let id1 = c.put(vec![1u8; 100]).unwrap();
    let id2 = c.put(vec![2u8; 100]).unwrap();
    // Re-putting id1 makes it the most recent; id2 is now the oldest.
    c.put(vec![1u8; 100]).unwrap();
    c.evict_lru(100).unwrap();
    assert!(c.get(&id1).unwrap().is_some());
    assert!(c.get(&id2).unwrap().is_none());
}

#[test]
fn id_is_blake3_of_the_bytes() {
    let id = AssetId::from_bytes(b"abc");
    assert_eq!(
        id.hex(),
        "6437b3ac38465133ffb63b75273a8db548c558465d79db03fd359c6cd5bd9d85"
    );
    assert_ne!(AssetId::from_bytes(b"abc"), AssetId::from_bytes(b"abd"));
}

#[test]
fn asset_id_text_form_round_trips() {
    let id = AssetId::from_bytes(b"text form");
    let text = id.to_text();
    assert!(text.starts_with("blake3:"));
    assert_eq!(text.len(), 7 + 64);
    let back = AssetId::parse(text.as_bytes()).expect("parse");
    assert_eq!(back, id);
}

#[test]
fn asset_id_parse_reports_each_error() {
    assert_eq!(AssetId::parse(b"sha256:00"), Err(AssetIdParseError::MissingPrefix));
    assert_eq!(
        AssetId::parse(b"blake3:abcd"),
        Err(AssetIdParseError::WrongLength { got: 4 })
    );
    let mut bad = b"blake3:".to_vec();
    bad.extend(std::iter::repeat(b'a').take(64));
    bad[7 + 10] = b'z';
    assert_eq!(
        AssetId::parse(&bad),
        Err(AssetIdParseError::InvalidHexDigit { index: 10 })
    );
    let mut upper = b"blake3:".to_vec();
    upper.extend(std::iter::repeat(b'A').take(64));
    assert_eq!(AssetId::parse(&upper).unwrap(), AssetId::from_raw([0xaa; 32]));
}

#[test]
fn total_size_sums_payload_lengths() {
    let mut c = InMemoryCache::new();
    c.put(vec![0u8; 7]).unwrap();
    c.put(vec![1u8; 0]).unwrap();
    assert_eq!(c.total_size(), 7);
    assert_eq!(c.len(), 2);
}

#[test]
fn get_counts_as_a_use_for_eviction() {
    let mut c = InMemoryCache::new();
    let id1 = c.put(vec![0u8; 100]).unwrap();
    let id2 = c.put(vec![1u8; 100]).unwrap();
    assert!(c.get(&id1).unwrap().is_some());
    c.evict_lru(100).unwrap();
    assert!(c.get(&id1).unwrap().is_some());
    assert!(c.get(&id2).unwrap().is_none());
}
