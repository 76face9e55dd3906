//! Manifest documents: merging a manifest with the ones it imports, the
//! cache file a manifest URL maps to, and when a cached copy may be used.

use vstd::prelude::*;
use crate::json::{
    entries_get, entries_set, entries_insert, lemma_view_entries, lemma_view_items,
    view_entries, view_items, Json, JsonV,
};
use crate::text::{join_path, spec_join};
use vstd::string::StringSliceAdditionalSpecFns;

verus! {

/// `acc` with every entry of `add` set into it, in order: keys already
/// present keep their place and take the new value, new keys are appended.
pub open spec fn merge_into(acc: Seq<(Seq<char>, JsonV)>, add: Seq<(Seq<char>, JsonV)>) -> Seq<
    (Seq<char>, JsonV),
>
    decreases add.len(),
{
    if add.len() == 0 {
        acc
    } else {
        let m = merge_into(acc, add.drop_last());
        entries_set(m, add.last().0, add.last().1)
    }
}

/// The object under `key`, or no entries.
pub open spec fn block(v: JsonV, key: Seq<char>) -> Seq<(Seq<char>, JsonV)> {
    match v.at(key).as_obj() {
        Some(es) => es,
        None => Seq::empty(),
    }
}

/// The `key` blocks of the imported manifests merged in order, later
/// imports winning.
pub open spec fn fold_blocks(imports: Seq<JsonV>, key: Seq<char>) -> Seq<(Seq<char>, JsonV)>
    decreases imports.len(),
{
    if imports.len() == 0 {
        Seq::empty()
    } else {
        merge_into(fold_blocks(imports.drop_last(), key), block(imports.last(), key))
    }
}

/// A manifest merged with its imports: families and shared modes of the
/// imports in order, then the manifest's own, which win on a collision;
/// name, version, TTL and default family are the manifest's own.
pub open spec fn spec_merge_manifest(raw: JsonV, imports: Seq<JsonV>) -> JsonV {
    JsonV::Obj(
        seq![
            ("name"@, raw.at("name"@)),
            ("version"@, raw.at("version"@)),
            ("ttl_minutes"@, raw.at("ttl_minutes"@)),
            ("default_family"@, raw.at("default_family"@)),
            ("shared_modes"@, JsonV::Obj(merge_into(fold_blocks(imports, "shared_modes"@), block(raw, "shared_modes"@)))),
            ("families"@, JsonV::Obj(merge_into(fold_blocks(imports, "families"@), block(raw, "families"@)))),
        ],
    )
}

fn block_of(v: &Json, key: &str) -> (r: Vec<(String, Json)>)
    ensures
        view_entries(r@) == block(v@, key@),
{
    match v.get(key) {
        Some(b) => match b {
            Json::Obj(es) => {
                let c = b.deep_clone();
                match c {
                    Json::Obj(ce) => ce,
                    _ => Vec::new(),
                }
            },
            _ => {
                proof {
                    assert(view_entries(Seq::<(String, Json)>::empty()) =~= Seq::empty());
                }
                Vec::new()
            },
        },
        None => {
            proof {
                assert(view_entries(Seq::<(String, Json)>::empty()) =~= Seq::empty());
            }
            Vec::new()
        },
    }
}

fn merge_into_exec(acc: &mut Vec<(String, Json)>, add: Vec<(String, Json)>)
    ensures
        view_entries(final(acc)@) == merge_into(view_entries(old(acc)@), view_entries(add@)),
{
    let ghost av = view_entries(add@);
    let ghost a0 = view_entries(acc@);
    proof {
        lemma_view_entries(add@);
        assert(av.take(0) =~= Seq::<(Seq<char>, JsonV)>::empty());
    }
    let mut i: usize = 0;
    while i < add.len()
        invariant
            i <= add@.len(),
            av == view_entries(add@),
            av.len() == add@.len(),
            forall|j: int| 0 <= j < add@.len() ==> #[trigger] av[j] == crate::json::view_entry(add@[j]),
            view_entries(acc@) == merge_into(a0, av.take(i as int)),
        decreases add.len() - i,
    {
        proof {
            let p = av.take(i as int + 1);
            assert(p.drop_last() =~= av.take(i as int));
            assert(p.last() == av[i as int]);
        }
        let v = add[i].1.deep_clone();
        entries_insert(acc, add[i].0.as_str(), v);
        i = i + 1;
    }
    proof {
        assert(av.take(i as int) =~= av);
    }
}

fn fold_blocks_exec(imports: &[Json], key: &str) -> (r: Vec<(String, Json)>)
    ensures
        view_entries(r@) == fold_blocks(imports@.map_values(|j: Json| j@), key@),
{
    let ghost iv = imports@.map_values(|j: Json| j@);
    let mut acc: Vec<(String, Json)> = Vec::new();
    proof {
        assert(iv.take(0) =~= Seq::<JsonV>::empty());
        assert(view_entries(acc@) =~= Seq::empty());
    }
    let mut i: usize = 0;
    while i < imports.len()
        invariant
            i <= imports@.len(),
            iv == imports@.map_values(|j: Json| j@),
            view_entries(acc@) == fold_blocks(iv.take(i as int), key@),
        decreases imports.len() - i,
    {
        proof {
            let p = iv.take(i as int + 1);
            assert(p.drop_last() =~= iv.take(i as int));
            assert(p.last() == imports@[i as int]@);
        }
        let b = block_of(&imports[i], key);
        merge_into_exec(&mut acc, b);
        i = i + 1;
    }
    proof {
        assert(iv.take(i as int) =~= iv);
    }
    acc
}

/// Merge a fetched manifest with the manifests its imports gave, in
/// import order (imports that failed are left out by the caller).
pub fn merge_manifest(raw: &Json, imports: &[Json]) -> (r: Json)
    ensures
        r@ == spec_merge_manifest(raw@, imports@.map_values(|j: Json| j@)),
{
    let mut shared = fold_blocks_exec(imports, "shared_modes");
    merge_into_exec(&mut shared, block_of(raw, "shared_modes"));
    let mut fams = fold_blocks_exec(imports, "families");
    merge_into_exec(&mut fams, block_of(raw, "families"));
    let mut es: Vec<(String, Json)> = Vec::new();
    es.push(("name".to_string(), crate::cli::child(raw, "name")));
    es.push(("version".to_string(), crate::cli::child(raw, "version")));
    es.push(("ttl_minutes".to_string(), crate::cli::child(raw, "ttl_minutes")));
    es.push(("default_family".to_string(), crate::cli::child(raw, "default_family")));
    es.push(("shared_modes".to_string(), Json::Obj(shared)));
    es.push(("families".to_string(), Json::Obj(fams)));
    proof {
        lemma_view_entries(es@);
        assert(view_entries(es@) =~= seq![
            ("name"@, raw@.at("name"@)),
            ("version"@, raw@.at("version"@)),
            ("ttl_minutes"@, raw@.at("ttl_minutes"@)),
            ("default_family"@, raw@.at("default_family"@)),
            ("shared_modes"@, JsonV::Obj(view_entries(shared@))),
            ("families"@, JsonV::Obj(view_entries(fams@))),
        ]);
    }
    Json::Obj(es)
}

/// What a manifest URL seen twice (an import cycle) resolves to.
pub open spec fn spec_empty_manifest() -> JsonV {
    JsonV::Obj(
        seq![
            ("name"@, JsonV::Str(Seq::empty())),
            ("version"@, JsonV::Str("1"@)),
            ("default_family"@, JsonV::Str(Seq::empty())),
            ("families"@, JsonV::Obj(Seq::empty())),
        ],
    )
}

pub fn empty_manifest() -> (r: Json)
    ensures
        r@ == spec_empty_manifest(),
{
    let mut es: Vec<(String, Json)> = Vec::new();
    es.push(("name".to_string(), Json::Str(String::new())));
    es.push(("version".to_string(), Json::string("1")));
    es.push(("default_family".to_string(), Json::Str(String::new())));
    es.push(("families".to_string(), Json::Obj(Vec::new())));
    proof {
        reveal_strlit("");
        lemma_view_entries(es@);
        assert(view_entries(Seq::<(String, Json)>::empty()) =~= Seq::empty());
        assert(view_entries(es@) =~= seq![
            ("name"@, JsonV::Str(Seq::empty())),
            ("version"@, JsonV::Str("1"@)),
            ("default_family"@, JsonV::Str(Seq::empty())),
            ("families"@, JsonV::Obj(Seq::empty())),
        ]);
    }
    Json::Obj(es)
}

/// The import URLs a manifest lists: the strings of `imports`.
pub fn manifest_imports(raw: &Json) -> (r: Vec<String>)
    ensures
        crate::sorted::views(r@) == crate::config::spec_tracked_list(raw@, "imports"@),
{
    crate::config::tracked_list(raw, "imports")
}

/// The URLs a manifest walk has already fetched; a URL met again yields
/// the empty manifest, which breaks import cycles.
pub struct Visited {
    pub urls: Vec<String>,
}

impl Visited {
    pub fn new() -> (r: Visited)
        ensures
            r.urls@.len() == 0,
    {
        Visited { urls: Vec::new() }
    }

    /// Record `url`; whether it was new.
    pub fn insert(&mut self, url: &str) -> (r: bool)
        ensures
            r == !crate::sorted::views(old(self).urls@).contains(url@),
            crate::sorted::views(final(self).urls@).contains(url@),
            forall|u: Seq<char>| #[trigger] crate::sorted::views(final(self).urls@).contains(u) <==> (
            crate::sorted::views(old(self).urls@).contains(u) || u == url@),
    {
        let ghost w = crate::sorted::views(self.urls@);
        let mut i: usize = 0;
        while i < self.urls.len()
            invariant
                i <= self.urls@.len(),
                w == crate::sorted::views(self.urls@),
                self.urls@ == old(self).urls@,
                forall|j: int| 0 <= j < i ==> w[j] != url@,
            decreases self.urls.len() - i,
        {
            if crate::json::str_eq(self.urls[i].as_str(), url) {
                proof {
                    assert(w[i as int] == url@);
                }
                return false;
            }
            i = i + 1;
        }
        self.urls.push(url.to_string());
        proof {
            let nw = crate::sorted::views(self.urls@);
            assert(nw =~= w.push(url@));
            assert(nw[w.len() as int] == url@);
            assert forall|u: Seq<char>| #[trigger] nw.contains(u) <==> (w.contains(u) || u == url@) by {
                if nw.contains(u) && u != url@ {
                    let k = choose|k: int| 0 <= k < nw.len() && nw[k] == u;
                    assert(w[k] == u);
                }
                if w.contains(u) {
                    let k = choose|k: int| 0 <= k < w.len() && w[k] == u;
                    assert(nw[k] == u);
                }
            }
        }
        true
    }
}

/// The djb2 hash step.
pub open spec fn djb2_step(h: u64, b: u8) -> u64 {
    ((h as int * 33 + b as int) % 0x1_0000_0000_0000_0000) as u64
}

/// djb2 over bytes, starting from 5381, with wrapping arithmetic.
pub open spec fn spec_djb2(b: Seq<u8>) -> u64
    decreases b.len(),
{
    if b.len() == 0 {
        5381
    } else {
        djb2_step(spec_djb2(b.drop_last()), b.last())
    }
}

fn djb2_next(h: u64, b: u8) -> (r: u64)
    ensures
        r == djb2_step(h, b),
{
    let m = h.wrapping_mul(33);
    let n = m.wrapping_add(b as u64);
    proof {
        let x = h as int * 33;
        let md = 0x1_0000_0000_0000_0000int;
        assert(m == x % md);
        vstd::arithmetic::div_mod::lemma_add_mod_noop(x, b as int, md);
        vstd::arithmetic::div_mod::lemma_small_mod(b as nat, md as nat);
        assert(n == (m + b as int) % md);
        vstd::arithmetic::div_mod::lemma_mod_twice(x, md);
    }
    n
}

/// The djb2 hash of the UTF-8 bytes of `s`.
pub fn djb2(s: &str) -> (r: u64)
    ensures
        r == spec_djb2(s.spec_bytes()),
{
    let bytes = s.as_bytes();
    let mut h: u64 = 5381;
    let mut i: usize = 0;
    proof {
        assert(bytes@.take(0) =~= Seq::<u8>::empty());
    }
    while i < bytes.len()
        invariant
            i <= bytes@.len(),
            h == spec_djb2(bytes@.take(i as int)),
        decreases bytes.len() - i,
    {
        proof {
            let p = bytes@.take(i as int + 1);
            assert(p.drop_last() =~= bytes@.take(i as int));
        }
        h = djb2_next(h, bytes[i]);
        i = i + 1;
    }
    proof {
        assert(bytes@.take(i as int) =~= bytes@);
    }
    h
}

/// A lower-case hexadecimal digit.
pub open spec fn hex_digit(v: int) -> char {
    if v < 10 {
        ('0' as int + v) as char
    } else {
        ('a' as int + (v - 10)) as char
    }
}

/// `n` in lower-case hexadecimal without leading zeros.
pub open spec fn spec_hex(n: nat) -> Seq<char>
    decreases n,
{
    if n < 16 {
        seq![hex_digit(n as int)]
    } else {
        spec_hex(n / 16) + seq![hex_digit((n % 16) as int)]
    }
}

pub fn hex_lower(n: u64) -> (r: String)
    ensures
        r@ == spec_hex(n as nat),
{
    let mut digits: Vec<char> = Vec::new();
    let mut m = n;
    proof {
        assert(spec_hex(n as nat) == spec_hex(m as nat) + digits@.reverse());
    }
    while m >= 16
        invariant
            spec_hex(n as nat) == spec_hex(m as nat) + digits@.reverse(),
        decreases m,
    {
        let d = (m % 16) as u8;
        let c = if d < 10 { (48u8 + d) as char } else { (97u8 + (d - 10)) as char };
        let ghost old_digits = digits@;
        digits.push(c);
        proof {
            assert(c == hex_digit((m % 16) as int));
            assert(digits@.reverse() =~= seq![c] + old_digits.reverse());
            assert(spec_hex(m as nat) == spec_hex((m / 16) as nat) + seq![c]);
            assert(spec_hex(n as nat) =~= spec_hex((m / 16) as nat) + digits@.reverse());
        }
        m = m / 16;
    }
    let d = m as u8;
    let c = if d < 10 { (48u8 + d) as char } else { (97u8 + (d - 10)) as char };
    let mut out: Vec<char> = Vec::new();
    out.push(c);
    let mut k: usize = digits.len();
    proof {
        assert(spec_hex(m as nat) == seq![c]);
        assert(digits@.reverse().skip(0) =~= digits@.reverse());
    }
    while k > 0
        invariant
            k <= digits@.len(),
            out@ + digits@.take(k as int).reverse() == spec_hex(n as nat),
        decreases k,
    {
        let ghost before = out@;
        out.push(digits[k - 1]);
        proof {
            assert(digits@.take(k as int).reverse() =~= seq![digits@[k - 1]] + digits@.take(k - 1).reverse());
            assert(out@ + digits@.take(k - 1).reverse() =~= before + digits@.take(k as int).reverse());
        }
        k = k - 1;
    }
    proof {
        assert(digits@.take(0).reverse() =~= Seq::<char>::empty());
        assert(out@ =~= out@ + Seq::<char>::empty());
    }
    crate::text::string_of(out.as_slice())
}

/// The cache file of a manifest URL under the application root.
pub open spec fn spec_cache_path(root: Seq<char>, url_bytes: Seq<u8>) -> Seq<char> {
    spec_join(spec_join(root, "cache/manifests"@), spec_hex(spec_djb2(url_bytes) as nat) + ".json"@)
}

pub fn manifest_cache_path(root: &str, url: &str) -> (r: String)
    ensures
        r@ == spec_cache_path(root@, url.spec_bytes()),
{
    let dir = join_path(root, "cache/manifests");
    let name = crate::text::concat(hex_lower(djb2(url)).as_str(), ".json");
    join_path(dir.as_str(), name.as_str())
}


/// The schema version a manifest declares: its `version` string read as
/// an unsigned integer.
pub open spec fn spec_version(m: JsonV) -> Option<u64> {
    match m.at("version"@).as_str() {
        Some(v) => crate::num::spec_parse_u64_str(v),
        None => None,
    }
}

fn version_of(m: &Json) -> (r: Option<u64>)
    ensures
        r == spec_version(m@),
{
    match m.get("version") {
        Some(v) => match v.as_str() {
            Some(s) => crate::num::parse_u64_str(s),
            None => None,
        },
        None => None,
    }
}

/// The bundled manifest declares a newer schema version than a cached
/// one; `bundled` is absent when it does not parse.
pub open spec fn spec_bundled_is_newer(bundled: Option<JsonV>, cached: JsonV) -> bool {
    match bundled {
        Some(b) => match (spec_version(b), spec_version(cached)) {
            (Some(x), Some(y)) => x > y,
            _ => false,
        },
        None => false,
    }
}

pub fn bundled_is_newer(bundled: Option<&Json>, cached: &Json) -> (r: bool)
    ensures
        r == spec_bundled_is_newer(
            match bundled {
                Some(b) => Some(b@),
                None => None,
            },
            cached@,
        ),
{
    match bundled {
        Some(b) => match (version_of(b), version_of(cached)) {
            (Some(x), Some(y)) => x > y,
            _ => false,
        },
        None => false,
    }
}

/// Whether a cache entry fetched at `fetched_at` is stale at `now` under
/// a TTL of `ttl` billionths of a minute: always when the time does not
/// parse, otherwise when more than the TTL has passed.
pub open spec fn spec_is_stale(fetched_at: Seq<char>, ttl: int, now: int) -> bool {
    match crate::iso::spec_parse_iso_secs(fetched_at) {
        Some(t) => (now - t) * 1000000000 > 60 * ttl,
        None => true,
    }
}

/// The subtraction `now - t` the staleness check makes does not overflow.
pub open spec fn stale_check_fits(fetched_at: Seq<char>, now: int) -> bool {
    &&& !crate::iso::iso_overflows_spec(fetched_at)
    &&& (crate::iso::spec_parse_iso_secs(fetched_at) matches Some(t) ==> crate::iso::fits64(now - t))
}

pub fn is_stale(fetched_at: &str, ttl: i128, now: i64) -> (r: bool)
    requires
        stale_check_fits(fetched_at@, now as int),
        -1000000000000000000000000000000 < ttl < 1000000000000000000000000000000,
    ensures
        r == spec_is_stale(fetched_at@, ttl as int, now as int),
{
    match crate::iso::parse_iso_secs(fetched_at) {
        Some(t) => {
            let age = (now as i128) - (t as i128);
            age * 1000000000 > 60 * ttl
        },
        None => true,
    }
}

/// A manifest's TTL in billionths of a minute: `ttl_minutes`, or 360.
pub open spec fn spec_ttl(m: JsonV) -> int {
    match crate::num::json_nano(m.at("ttl_minutes"@)) {
        Some(t) => t,
        None => 360000000000,
    }
}

/// The time a cache entry was written, or empty.
pub open spec fn spec_fetched_at(entry: JsonV) -> Seq<char> {
    match entry.at("fetched_at"@).as_str() {
        Some(s) => s,
        None => Seq::empty(),
    }
}

/// A cached copy may be used without fetching: it is fresh and the
/// bundled manifest is not newer.
pub open spec fn spec_cache_fresh(entry: JsonV, bundled: Option<JsonV>, now: int) -> bool {
    !spec_is_stale(spec_fetched_at(entry), spec_ttl(entry.at("manifest"@)), now)
        && !spec_bundled_is_newer(bundled, entry.at("manifest"@))
}

pub fn cache_fresh(entry: &Json, bundled: Option<&Json>, now: i64) -> (r: bool)
    requires
        stale_check_fits(spec_fetched_at(entry@), now as int),
    ensures
        r == spec_cache_fresh(
            entry@,
            match bundled {
                Some(b) => Some(b@),
                None => None,
            },
            now as int,
        ),
{
    let manifest = crate::cli::child(entry, "manifest");
    let ttl: i128 = match manifest.get("ttl_minutes") {
        Some(t) => match crate::num::nano_of(t) {
            Some(x) => x,
            None => 360000000000,
        },
        None => 360000000000,
    };
    let fetched: &str = match entry.get("fetched_at") {
        Some(f) => match f.as_str() {
            Some(s) => s,
            None => "",
        },
        None => "",
    };
    proof {
        reveal_strlit("");
        assert(fetched@ == spec_fetched_at(entry@));
    }
    !is_stale(fetched, ttl, now) && !bundled_is_newer(bundled, &manifest)
}

/// After a failed fetch: the cached copy is used unless the bundled
/// manifest is newer (then the bundled one is).
pub open spec fn spec_cache_on_failure(entry: JsonV, bundled: Option<JsonV>) -> bool {
    !spec_bundled_is_newer(bundled, entry.at("manifest"@))
}

pub fn cache_on_failure(entry: &Json, bundled: Option<&Json>) -> (r: bool)
    ensures
        r == spec_cache_on_failure(
            entry@,
            match bundled {
                Some(b) => Some(b@),
                None => None,
            },
        ),
{
    let manifest = crate::cli::child(entry, "manifest");
    !bundled_is_newer(bundled, &manifest)
}

/// The cache entry written for a fetched manifest.
pub open spec fn spec_cache_entry(fetched_at: Seq<char>, manifest: JsonV) -> JsonV {
    JsonV::Obj(seq![("fetched_at"@, JsonV::Str(fetched_at)), ("manifest"@, manifest)])
}

pub fn cache_entry(fetched_at: &str, manifest: Json) -> (r: Json)
    ensures
        r@ == spec_cache_entry(fetched_at@, manifest@),
{
    let mut es: Vec<(String, Json)> = Vec::new();
    es.push(("fetched_at".to_string(), Json::string(fetched_at)));
    es.push(("manifest".to_string(), manifest));
    proof {
        lemma_view_entries(es@);
        assert(view_entries(es@) =~= spec_cache_entry(fetched_at@, es@[1].1@)->Obj_0);
    }
    Json::Obj(es)
}

} // verus!
