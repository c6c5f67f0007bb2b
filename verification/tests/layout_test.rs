use rge_core::asset_id::AssetId;
use rge_core::layout::{default_cache_root, path_for, shard_dir_for, two_char_prefix, CacheDirEnv, Platform};

fn components(p: &str) -> Vec<&str> {
    p.split('/').filter(|c| !c.is_empty()).collect()
}

fn parent(p: &str) -> &str {
    match p.rfind('/') {
        Some(i) => &p[..i],
        None => "",
    }
}

fn no_env() -> CacheDirEnv {
    CacheDirEnv { local_app_data: None, user_profile: None, home: None, xdg_cache_home: None }
}

#[test]
fn path_for_uses_two_char_prefix_then_full_hex() {
    let root = "/tmp/cache";
    let id = AssetId::from_bytes(b"layout-test");
    let p = path_for(root, &id);
    let comps = components(&p);
    assert_eq!(*comps.last().unwrap(), id.hex());
    let nth_back = comps.len() - 2;
    assert_eq!(comps[nth_back], two_char_prefix(&id));
}

#[test]
fn path_for_is_deterministic() {
    let root = "/var/cache/rge";
    let id = AssetId::from_bytes(b"determinism");
    let a = path_for(root, &id);
    let b = path_for(root, &id);
    assert_eq!(a, b);
}

#[test]
fn shard_dir_strips_only_the_filename() {
    let root = "/cache";
    let id = AssetId::from_bytes(b"shard-strip");
    let full = path_for(root, &id);
    let shard = shard_dir_for(root, &id);
    assert_eq!(parent(&full), shard.as_str());
}

#[test]
fn default_cache_root_returns_some_path() {
    for platform in [Platform::Windows, Platform::MacOs, Platform::Unix] {
        let p = default_cache_root(platform, &no_env());
        assert!(!p.is_empty(), "got empty path");
        let env = CacheDirEnv {
            local_app_data: Some("C:/Users/u/AppData/Local".to_string()),
            user_profile: Some("C:/Users/u".to_string()),
            home: Some("/home/u".to_string()),
            xdg_cache_home: Some("/home/u/.xcache".to_string()),
        };
        let p = default_cache_root(platform, &env);
        assert!(!p.is_empty(), "got empty path");
    }
}

#[test]
fn two_assets_share_shard_iff_first_byte_matches() {
    let id1 = AssetId::from_raw([0xab; 32]);
    let id2 = AssetId::from_raw({
        let mut b = [0u8; 32];
        b[0] = 0xab;
        b
    });
    let id3 = AssetId::from_raw([0xcd; 32]);
    let root = "/r";
    assert_eq!(shard_dir_for(root, &id1), shard_dir_for(root, &id2));
    assert_ne!(shard_dir_for(root, &id1), shard_dir_for(root, &id3));
}

#[test]
fn path_for_exact_text() {
    let id = AssetId::from_raw([0xab; 32]);
    let hex = "ab".repeat(32);
    assert_eq!(path_for("/r", &id), format!("/r/ab/{hex}"));
    assert_eq!(path_for("/r/", &id), format!("/r/ab/{hex}"));
    assert_eq!(path_for("", &id), format!("ab/{hex}"));
    assert_eq!(two_char_prefix(&AssetId::from_raw([0x05; 32])), "05");
}

#[test]
fn default_cache_root_per_platform() {
    let env = CacheDirEnv {
        local_app_data: Some("C:/Local".to_string()),
        user_profile: Some("C:/Users/u".to_string()),
        home: Some("/home/u".to_string()),
        xdg_cache_home: Some("/x".to_string()),
    };
    assert_eq!(default_cache_root(Platform::Windows, &env), "C:/Local/rge/assets");
    assert_eq!(default_cache_root(Platform::MacOs, &env), "/home/u/Library/Caches/rge/assets");
    assert_eq!(default_cache_root(Platform::Unix, &env), "/x/rge/assets");
    assert_eq!(default_cache_root(Platform::Unix, &no_env()), ".rge-cache");
    let home_only = CacheDirEnv { home: Some("/home/u".to_string()), ..no_env() };
    assert_eq!(default_cache_root(Platform::Unix, &home_only), "/home/u/.cache/rge/assets");
    let empty_xdg = CacheDirEnv { xdg_cache_home: Some(String::new()), ..home_only.clone() };
    assert_eq!(default_cache_root(Platform::Unix, &empty_xdg), "/home/u/.cache/rge/assets");
}

#[test]
fn path_below_root_depends_on_the_id_alone() {
    let a = AssetId::from_bytes(b"a");
    let b = AssetId::from_bytes(b"b");
    let rel = format!("{}/{}", two_char_prefix(&a), a.hex());
    assert_eq!(path_for("/r1", &a), format!("/r1/{rel}"));
    assert_eq!(path_for("/r2/", &a), format!("/r2/{rel}"));
    assert_ne!(path_for("/r1", &a), path_for("/r1", &b));
}
