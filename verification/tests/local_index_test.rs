use rge_core::asset_id::AssetId;
use rge_core::index_file::{is_shard_name, parse_index, payload_file_id};
use rge_core::error::CacheError;
use rge_core::local::{IndexEntry, LocalCache};

fn id(s: &[u8]) -> AssetId {
    AssetId::from_bytes(s)
}

fn cache_with(rows: Vec<(AssetId, IndexEntry)>) -> LocalCache {
    LocalCache::open_index("/tmp/cache".to_string(), rows)
}

#[test]
fn open_index_starts_counter_at_largest_tick() {
    let a = id(b"a");
    let b = id(b"b");
    let c = cache_with(vec![(a, IndexEntry { tick: 4, size: 10 }), (b, IndexEntry { tick: 9, size: 20 })]);
    assert_eq!(c.len(), 2);
    assert_eq!(c.total_size(), 30);
    let mut c = c;
    let other = id(b"other");
    c.record_access(&other, 1);
    let (_, text) = c.flush_index();
    assert!(text.contains(&format!("10 {} 1\n", other.hex())));
}

#[test]
fn later_index_row_for_same_id_wins() {
    let a = id(b"a");
    let c = cache_with(vec![(a, IndexEntry { tick: 1, size: 10 }), (a, IndexEntry { tick: 2, size: 11 })]);
    assert_eq!(c.len(), 1);
    assert_eq!(c.total_size(), 11);
}

#[test]
fn evict_plan_lists_least_recent_until_under_cap() {
    let mut c = cache_with(vec![]);
    let a = id(b"a");
    let b = id(b"b");
    let d = id(b"d");
    c.record_access(&a, 100);
    c.record_access(&b, 100);
    c.record_access(&d, 100);
    // Reading `a` again makes `b` the least recently used.
    c.record_access(&a, 100);
    let victims = c.evict_plan(150);
    assert_eq!(victims, vec![b, d]);
    assert!(c.evict_plan(300).is_empty());
    assert_eq!(c.evict_plan(0).len(), 3);
    for v in &victims {
        c.forget(v);
    }
    assert_eq!(c.len(), 1);
    assert!(c.contains(&a));
    assert_eq!(c.total_size(), 100);
}

#[test]
fn flush_writes_rows_in_id_order_and_reads_back() {
    let mut c = cache_with(vec![]);
    let ids = [id(b"x"), id(b"y"), id(b"z")];
    for (k, i) in ids.iter().enumerate() {
        c.record_access(i, (k as u64) * 7);
    }
    let (path, text) = c.flush_index();
    assert_eq!(path, "/tmp/cache/.index");
    let rows = parse_index(&text).expect("parse");
    let mut sorted = ids.to_vec();
    sorted.sort();
    let got: Vec<AssetId> = rows.iter().map(|r| r.0).collect();
    assert_eq!(got, sorted);
    let reopened = cache_with(rows);
    assert_eq!(reopened.flush_index().1, text);
    assert_eq!(reopened.total_size(), c.total_size());
}

#[test]
fn parse_index_reads_rows_and_skips_blank_lines() {
    let a = id(b"a");
    let b = id(b"b");
    let text = format!("\n3 {} 10\r\n  \n+7\t{}  20 trailing words\n", a.hex(), b.hex().to_uppercase());
    let rows = parse_index(&text).expect("parse");
    assert_eq!(rows, vec![(a, IndexEntry { tick: 3, size: 10 }), (b, IndexEntry { tick: 7, size: 20 })]);
    assert!(parse_index("").unwrap().is_empty());
}

#[test]
fn parse_index_rejects_malformed_lines() {
    let a = id(b"a");
    let h = a.hex();
    let cases: Vec<(String, CacheError)> = vec![
        ("5".to_string(), CacheError::Io("index line 1 missing hash: `5`".to_string())),
        (format!("5 {h}"), CacheError::Io(format!("index line 1 missing size: `5 {h}`"))),
        (
            format!("-5 {h} 1"),
            CacheError::Io("index line 1 bad tick `-5`: invalid digit found in string".to_string()),
        ),
        (format!("5 {h} x"), CacheError::Io("index line 1 bad size `x`: invalid digit found in string".to_string())),
        (
            format!("18446744073709551616 {h} 1"),
            CacheError::Io(
                "index line 1 bad tick `18446744073709551616`: number too large to fit in target type".to_string(),
            ),
        ),
        (
            "5 abcd 1".to_string(),
            CacheError::BadAssetId("index line 1 bad hash `abcd`: expected 64 hex digits, got 4".to_string()),
        ),
        (
            format!("5 {}g 1", &h[..63]),
            CacheError::BadAssetId(format!(
                "index line 1 bad hash `{}g`: not all characters are hex digits",
                &h[..63]
            )),
        ),
        ("+ 00 1".to_string(), CacheError::Io("index line 1 bad tick `+`: invalid digit found in string".to_string())),
    ];
    for (bad, want) in cases {
        assert_eq!(parse_index(&bad).unwrap_err(), want, "{bad}");
    }
    let line2 = format!("1 {h} 1\nbroken");
    assert_eq!(
        parse_index(&line2).unwrap_err(),
        CacheError::Io("index line 2 missing hash: `broken`".to_string())
    );
    let max = format!("18446744073709551615 {h} 0");
    assert_eq!(parse_index(&max).unwrap()[0].1.tick, u64::MAX);
}

#[test]
fn index_with_malformed_hash_is_a_bad_asset_id() {
    assert_eq!(
        parse_index("0 zz 5\n").unwrap_err(),
        CacheError::BadAssetId("index line 1 bad hash `zz`: expected 64 hex digits, got 2".to_string())
    );
}

#[test]
fn payload_names_are_checked() {
    let a = id(b"a");
    assert!(is_shard_name("ab"));
    assert!(is_shard_name("F0"));
    assert!(!is_shard_name("abc"));
    assert!(!is_shard_name("g0"));
    assert!(!is_shard_name(".index"));
    assert_eq!(payload_file_id(&a.hex()), Some(a));
    assert_eq!(payload_file_id(&a.hex().to_uppercase()), Some(a));
    assert_eq!(payload_file_id("abc"), None);
    assert_eq!(payload_file_id(&format!("{}.tmp-3", a.hex())), None);
}

#[test]
fn retain_and_adopt_reconcile_the_index() {
    let a = id(b"a");
    let b = id(b"b");
    let mut c = cache_with(vec![(a, IndexEntry { tick: 5, size: 10 }), (b, IndexEntry { tick: 6, size: 20 })]);
    let present: Vec<bool> = c.ids().iter().map(|i| *i == b).collect();
    c.retain_rows(&present);
    assert_eq!(c.ids(), vec![b]);
    c.adopt(&a, 3);
    c.adopt(&b, 99);
    assert_eq!(c.total_size(), 23);
    // The adopted payload is the least recently used.
    assert_eq!(c.evict_plan(20), vec![a]);
    c.rewind_tick();
    c.record_access(&a, 3);
    assert_eq!(c.evict_plan(3), vec![b]);
    assert_eq!(c.root(), "/tmp/cache");
    assert_eq!(c.payload_path(&a), format!("/tmp/cache/{}/{}", &a.hex()[..2], a.hex()));
}
