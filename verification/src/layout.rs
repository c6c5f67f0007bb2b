//! On-disk layout of the cache: `<root>/<2-char-prefix>/<64-hex>`, where
//! the prefix is the hex form of the first digest byte. Paths are handled as
//! text with `/` as the separator; the default root is chosen from the
//! platform's cache-directory environment values.

use vstd::prelude::*;

use crate::asset_id::{hex_of, AssetId};

verus! {

/// `root` joined with the relative component `comp`, as `Path::join` does on
/// Unix: a separator is added unless `root` is empty or already ends in one.
pub open spec fn join_path(root: Seq<char>, comp: Seq<char>) -> Seq<char> {
    if root.len() == 0 || root.last() == '/' {
        root + comp
    } else {
        root + seq!['/'] + comp
    }
}

/// The shard directory name of an id: hex of its first byte.
pub open spec fn shard_name(id: Seq<u8>) -> Seq<char> {
    hex_of(id.take(1))
}

proof fn lemma_hex_char_injective(a: int, b: int)
    requires
        0 <= a < 16,
        0 <= b < 16,
        crate::asset_id::hex_char(a) == crate::asset_id::hex_char(b),
    ensures
        a == b,
{
    let ca = crate::asset_id::hex_char(a);
    let cb = crate::asset_id::hex_char(b);
    assert((ca as u32) == (cb as u32));
}

/// Two ids share a shard directory exactly when their first digest bytes
/// are equal.
pub proof fn law_shard_iff_first_byte(a: Seq<u8>, b: Seq<u8>)
    requires
        a.len() >= 1,
        b.len() >= 1,
    ensures
        shard_name(a) == shard_name(b) <==> a[0] == b[0],
{
    let ta = a.take(1);
    let tb = b.take(1);
    assert(ta.drop_last() =~= Seq::<u8>::empty());
    assert(tb.drop_last() =~= Seq::<u8>::empty());
    assert(hex_of(Seq::<u8>::empty()) == Seq::<char>::empty());
    assert(ta.last() == a[0]);
    assert(tb.last() == b[0]);
    assert(hex_of(ta) == hex_of(ta.drop_last()) + seq![crate::asset_id::hex_char(ta.last() as int / 16), crate::asset_id::hex_char(ta.last() as int % 16)]);
    assert(hex_of(tb) == hex_of(tb.drop_last()) + seq![crate::asset_id::hex_char(tb.last() as int / 16), crate::asset_id::hex_char(tb.last() as int % 16)]);
    assert(shard_name(a) =~= seq![crate::asset_id::hex_char(a[0] as int / 16), crate::asset_id::hex_char(a[0] as int % 16)]);
    assert(shard_name(b) =~= seq![crate::asset_id::hex_char(b[0] as int / 16), crate::asset_id::hex_char(b[0] as int % 16)]);
    if shard_name(a) == shard_name(b) {
        assert(shard_name(a)[0] == shard_name(b)[0]);
        assert(shard_name(a)[1] == shard_name(b)[1]);
        lemma_hex_char_injective(a[0] as int / 16, b[0] as int / 16);
        lemma_hex_char_injective(a[0] as int % 16, b[0] as int % 16);
    }
}

/// The part of an asset's path below the cache root: `<prefix>/<64 hex>`.
pub open spec fn rel_path(id: Seq<u8>) -> Seq<char> {
    shard_name(id) + seq!['/'] + hex_of(id)
}

proof fn lemma_shard_name_shape(id: Seq<u8>)
    requires
        id.len() >= 1,
    ensures
        shard_name(id) == seq![crate::asset_id::hex_char(id[0] as int / 16), crate::asset_id::hex_char(id[0] as int % 16)],
{
    let t = id.take(1);
    assert(t.drop_last() =~= Seq::<u8>::empty());
    assert(hex_of(Seq::<u8>::empty()) == Seq::<char>::empty());
    assert(t.last() == id[0]);
    assert(hex_of(t) == hex_of(t.drop_last()) + seq![crate::asset_id::hex_char(t.last() as int / 16), crate::asset_id::hex_char(t.last() as int % 16)]);
    assert(shard_name(id) =~= seq![crate::asset_id::hex_char(id[0] as int / 16), crate::asset_id::hex_char(id[0] as int % 16)]);
}

/// An asset's path is the root joined with a relative path that depends on
/// the id alone, `<prefix>/<64 hex>`; and under one root, two ids have the
/// same path exactly when they are the same id.
pub proof fn law_path_for_layout(root: Seq<char>, a: Seq<u8>, b: Seq<u8>)
    requires
        a.len() == 32,
        b.len() == 32,
    ensures
        join_path(join_path(root, shard_name(a)), hex_of(a)) == join_path(root, rel_path(a)),
        join_path(join_path(root, shard_name(a)), hex_of(a)) == join_path(join_path(root, shard_name(b)), hex_of(b))
            <==> a == b,
{
    lemma_shard_name_shape(a);
    lemma_shard_name_shape(b);
    let sa = shard_name(a);
    let sb = shard_name(b);
    assert(join_path(root, sa).last() == sa.last());
    assert(join_path(root, sb).last() == sb.last());
    let pre = if root.len() == 0 || root.last() == '/' { root } else { root + seq!['/'] };
    assert(join_path(root, sa) =~= pre + sa);
    assert(join_path(root, sb) =~= pre + sb);
    assert(join_path(join_path(root, sa), hex_of(a)) =~= pre + rel_path(a));
    assert(join_path(root, rel_path(a)) =~= pre + rel_path(a));
    assert(join_path(join_path(root, sb), hex_of(b)) =~= pre + rel_path(b));
    if pre + rel_path(a) == pre + rel_path(b) {
        crate::index_file::lemma_hex_of_shape(a);
        crate::index_file::lemma_hex_of_shape(b);
        assert(hex_of(a) =~= (pre + rel_path(a)).subrange(pre.len() + 3int, pre.len() + 67int));
        assert(hex_of(b) =~= (pre + rel_path(b)).subrange(pre.len() + 3int, pre.len() + 67int));
        crate::index_file::lemma_hash_text_hex(a);
        crate::index_file::lemma_hash_text_hex(b);
    }
}

/// Append the relative component `comp` to `path`.
pub fn join_onto(path: &mut String, comp: &str)
    ensures
        final(path)@ == join_path(old(path)@, comp@),
{
    let n = path.as_str().unicode_len();
    if n > 0 && path.as_str().get_char(n - 1) == '/' {
        path.append(comp);
    } else if n == 0 {
        path.append(comp);
    } else {
        proof {
            reveal_strlit("/");
        }
        path.append("/");
        path.append(comp);
        assert(final(path)@ =~= join_path(old(path)@, comp@));
    }
}

/// First two hex characters of an id's digest: the shard directory name.
pub fn two_char_prefix(id: &AssetId) -> (s: String)
    ensures
        s@ == shard_name(id@),
        s@.len() == 2,
{
    let one = AssetId::from_raw([id.byte(0), 0, 0, 0, 0, 0, 0, 0, 0, 0, 0, 0, 0, 0, 0, 0, 0, 0, 0, 0, 0, 0, 0, 0, 0, 0, 0, 0, 0, 0, 0, 0]);
    let h = one.hex();
    proof {
        id.lemma_len();
        assert(one@.take(1) =~= id@.take(1));
        lemma_hex_of_prefix(one@, 1);
    }
    let s = h.as_str().substring_char(0, 2);
    String::from_str(s)
}

proof fn lemma_hex_of_prefix(s: Seq<u8>, k: int)
    requires
        0 <= k <= s.len(),
    ensures
        hex_of(s).subrange(0, 2 * k) == hex_of(s.take(k)),
        hex_of(s).len() == 2 * s.len(),
    decreases s.len(),
{
    lemma_hex_of_len(s);
    if k < s.len() {
        lemma_hex_of_prefix(s.drop_last(), k);
        assert(s.drop_last().take(k) =~= s.take(k));
        assert(hex_of(s).subrange(0, 2 * k) =~= hex_of(s.drop_last()).subrange(0, 2 * k));
    } else {
        assert(s.take(k) =~= s);
        assert(hex_of(s).subrange(0, 2 * k) =~= hex_of(s));
    }
}

proof fn lemma_hex_of_len(s: Seq<u8>)
    ensures
        hex_of(s).len() == 2 * s.len(),
    decreases s.len(),
{
    if s.len() > 0 {
        lemma_hex_of_len(s.drop_last());
    }
}

/// On-disk path of an asset under `root`: `<root>/<prefix>/<64-hex>`.
/// Pure: no I/O.
pub fn path_for(root: &str, id: &AssetId) -> (p: String)
    ensures
        p@ == join_path(join_path(root@, shard_name(id@)), hex_of(id@)),
{
    let mut p = shard_dir_for(root, id);
    let h = id.hex();
    join_onto(&mut p, h.as_str());
    p
}

/// The shard directory of an asset under `root`: `<root>/<prefix>`.
pub fn shard_dir_for(root: &str, id: &AssetId) -> (p: String)
    ensures
        p@ == join_path(root@, shard_name(id@)),
{
    let mut p = String::from_str(root);
    let prefix = two_char_prefix(id);
    join_onto(&mut p, prefix.as_str());
    p
}

/// The operating-system family, which decides where user caches live.
#[derive(Debug, Clone, Copy, PartialEq, Eq)]
pub enum Platform {
    Windows,
    MacOs,
    /// Linux and other Unix-like systems (XDG conventions).
    Unix,
}

/// The environment values that decide the default cache root; `None` when a
/// variable is unset or not valid Unicode.
#[derive(Debug, Clone)]
pub struct CacheDirEnv {
    pub local_app_data: Option<String>,
    pub user_profile: Option<String>,
    pub home: Option<String>,
    pub xdg_cache_home: Option<String>,
}

pub open spec fn nonempty(v: Option<String>) -> bool {
    v is Some && v->Some_0@.len() > 0
}

/// The platform's user-cache directory, if the environment names one.
pub open spec fn user_cache_dir(platform: Platform, env: CacheDirEnv) -> Option<Seq<char>> {
    match platform {
        Platform::Windows => if nonempty(env.local_app_data) {
            Some(env.local_app_data->Some_0@)
        } else if nonempty(env.user_profile) {
            Some(join_path(join_path(env.user_profile->Some_0@, "AppData"@), "Local"@))
        } else {
            None
        },
        Platform::MacOs => if nonempty(env.home) {
            Some(join_path(join_path(env.home->Some_0@, "Library"@), "Caches"@))
        } else {
            None
        },
        Platform::Unix => if nonempty(env.xdg_cache_home) {
            Some(env.xdg_cache_home->Some_0@)
        } else if nonempty(env.home) {
            Some(join_path(env.home->Some_0@, ".cache"@))
        } else {
            None
        },
    }
}

fn nonempty_value(v: &Option<String>) -> (r: Option<&String>)
    ensures
        match r {
            Some(s) => nonempty(*v) && s@ == v->Some_0@,
            None => !nonempty(*v),
        },
{
    match v {
        Some(s) => if s.as_str().unicode_len() > 0 {
            Some(s)
        } else {
            None
        },
        None => None,
    }
}

fn platform_user_cache_dir(platform: Platform, env: &CacheDirEnv) -> (r: Option<String>)
    ensures
        match r {
            Some(s) => user_cache_dir(platform, *env) == Some(s@),
            None => user_cache_dir(platform, *env) is None,
        },
{
    match platform {
        Platform::Windows => {
            if let Some(local) = nonempty_value(&env.local_app_data) {
                return Some(local.clone());
            }
            if let Some(profile) = nonempty_value(&env.user_profile) {
                let mut p = profile.clone();
                join_onto(&mut p, "AppData");
                join_onto(&mut p, "Local");
                return Some(p);
            }
            None
        },
        Platform::MacOs => {
            if let Some(home) = nonempty_value(&env.home) {
                let mut p = home.clone();
                join_onto(&mut p, "Library");
                join_onto(&mut p, "Caches");
                return Some(p);
            }
            None
        },
        Platform::Unix => {
            if let Some(xdg) = nonempty_value(&env.xdg_cache_home) {
                return Some(xdg.clone());
            }
            if let Some(home) = nonempty_value(&env.home) {
                let mut p = home.clone();
                join_onto(&mut p, ".cache");
                return Some(p);
            }
            None
        },
    }
}

/// Default cache root: `<user-cache-dir>/rge/assets`, or `.rge-cache` when
/// the environment names no user-cache directory.
pub fn default_cache_root(platform: Platform, env: &CacheDirEnv) -> (root: String)
    ensures
        root@ == match user_cache_dir(platform, *env) {
            Some(dir) => join_path(join_path(dir, "rge"@), "assets"@),
            None => ".rge-cache"@,
        },
        root@.len() > 0,
{
    match platform_user_cache_dir(platform, env) {
        Some(dir) => {
            let mut p = dir;
            join_onto(&mut p, "rge");
            join_onto(&mut p, "assets");
            proof {
                reveal_strlit("assets");
            }
            p
        },
        None => {
            proof {
                reveal_strlit(".rge-cache");
            }
            String::from_str(".rge-cache")
        },
    }
}

} // verus!
