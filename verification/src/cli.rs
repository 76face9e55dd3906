//! The configuration edits behind the command line: pinning and
//! overriding models, managing providers and sources, importing and
//! exporting, and reading the flags of each command.

use vstd::prelude::*;
use crate::config::{at_str, find_named, index_named, lemma_index_named};
use crate::json::{lemma_view_items, str_eq, view_items, Json, JsonV};
use vstd::string::StringSliceAdditionalSpecFns;

verus! {

/// `c[k]` as a write leaves it before the value is stored: the key is
/// added with null when absent.
pub open spec fn touched(c: JsonV, k: Seq<char>) -> JsonV {
    if c.get(k) is Some {
        c
    } else {
        c.with_key(k, JsonV::Null)
    }
}

/// The value under `k`, when there is one.
pub fn child(c: &Json, k: &str) -> (r: Json)
    ensures
        r@ == c@.at(k@),
{
    match c.get(k) {
        Some(v) => v.deep_clone(),
        None => Json::Null,
    }
}

/// Add `k` with null when it is absent, as a write through `c[k]` does.
pub fn touch_key(c: &mut Json, k: &str)
    requires
        old(c)@.is_keyable(),
    ensures
        final(c)@ == touched(old(c)@, k@),
        final(c)@ is Obj,
{
    if c.get(k).is_none() {
        c.set_key(k, Json::Null);
    } else {
        proof {
            assert(c@ is Obj);
        }
    }
}

/// Whether some item is the string `name`.
pub open spec fn has_str(a: Seq<JsonV>, name: Seq<char>) -> bool {
    exists|j: int| 0 <= j < a.len() && (#[trigger] a[j]).as_str() == Some(name)
}

/// The items that are not the string `name`, in order.
pub open spec fn without_str(a: Seq<JsonV>, name: Seq<char>) -> Seq<JsonV>
    decreases a.len(),
{
    if a.len() == 0 {
        Seq::empty()
    } else {
        without_str(a.drop_last(), name) + if a.last().as_str() == Some(name) {
            Seq::empty()
        } else {
            seq![a.last()]
        }
    }
}

fn contains_str(a: &Vec<Json>, name: &str) -> (r: bool)
    ensures
        r == has_str(view_items(a@), name@),
{
    proof {
        lemma_view_items(a@);
    }
    let mut i: usize = 0;
    while i < a.len()
        invariant
            i <= a@.len(),
            view_items(a@).len() == a@.len(),
            forall|j: int| 0 <= j < a@.len() ==> #[trigger] view_items(a@)[j] == a@[j]@,
            forall|j: int| 0 <= j < i ==> (#[trigger] view_items(a@)[j]).as_str() != Some(name@),
        decreases a.len() - i,
    {
        let hit = match a[i].as_str() {
            Some(s) => str_eq(s, name),
            None => false,
        };
        if hit {
            proof {
                assert(view_items(a@)[i as int].as_str() == Some(name@));
            }
            return true;
        }
        i = i + 1;
    }
    false
}

fn remove_str(a: &Vec<Json>, name: &str) -> (r: Vec<Json>)
    ensures
        view_items(r@) == without_str(view_items(a@), name@),
{
    let ghost t = view_items(a@);
    let mut out: Vec<Json> = Vec::new();
    proof {
        lemma_view_items(a@);
        assert(t.take(0) =~= Seq::<JsonV>::empty());
        assert(view_items(out@) =~= without_str(t.take(0), name@));
    }
    let mut i: usize = 0;
    while i < a.len()
        invariant
            i <= a@.len(),
            t == view_items(a@),
            t.len() == a@.len(),
            forall|j: int| 0 <= j < a@.len() ==> #[trigger] t[j] == a@[j]@,
            view_items(out@) == without_str(t.take(i as int), name@),
        decreases a.len() - i,
    {
        let hit = match a[i].as_str() {
            Some(s) => str_eq(s, name),
            None => false,
        };
        let ghost before = view_items(out@);
        proof {
            let p = t.take(i as int + 1);
            assert(p.drop_last() =~= t.take(i as int));
            assert(p.last() == a@[i as int]@);
        }
        if !hit {
            let c = a[i].deep_clone();
            let ghost prev = out@;
            out.push(c);
            proof {
                crate::json::lemma_view_items_push(prev, out@.last());
                assert(out@ == prev.push(out@.last()));
                assert(view_items(out@) =~= before + seq![t[i as int]]);
            }
        } else {
            proof {
                assert(before =~= before + Seq::<JsonV>::empty());
            }
        }
        i = i + 1;
    }
    proof {
        assert(t.take(i as int) =~= t);
    }
    out
}

fn push_item(a: &Vec<Json>, v: Json) -> (r: Vec<Json>)
    ensures
        view_items(r@) == view_items(a@).push(v@),
{
    let mut out: Vec<Json> = Vec::new();
    let mut i: usize = 0;
    proof {
        lemma_view_items(a@);
    }
    while i < a.len()
        invariant
            i <= a@.len(),
            out@.len() == i,
            view_items(a@).len() == a@.len(),
            forall|j: int| 0 <= j < a@.len() ==> #[trigger] view_items(a@)[j] == a@[j]@,
            forall|j: int| 0 <= j < i ==> (#[trigger] out@[j])@ == a@[j]@,
        decreases a.len() - i,
    {
        out.push(a[i].deep_clone());
        i = i + 1;
    }
    let ghost before = out@;
    out.push(v);
    proof {
        lemma_view_items(out@);
        assert(view_items(out@) =~= view_items(a@).push(v@));
    }
    out
}

/// `models keep`: add `name` to `kept_models` unless it is there already;
/// a `kept_models` that is not an array becomes `[name]`.
pub open spec fn spec_keep(c: JsonV, name: Seq<char>) -> JsonV {
    match c.at("kept_models"@).as_arr() {
        Some(a) => if has_str(a, name) {
            c
        } else {
            c.with_key("kept_models"@, JsonV::Arr(a.push(JsonV::Str(name))))
        },
        None => c.with_key("kept_models"@, JsonV::Arr(seq![JsonV::Str(name)])),
    }
}

pub fn keep_model(config: &mut Json, name: &str)
    requires
        old(config)@.is_keyable(),
    ensures
        final(config)@ == spec_keep(old(config)@, name@),
{
    let cur = child(config, "kept_models");
    match cur.as_array() {
        Some(a) => {
            if contains_str(a, name) {
                return;
            }
            let na = push_item(a, Json::string(name));
            config.set_key("kept_models", Json::Arr(na));
        },
        None => {
            let mut na: Vec<Json> = Vec::new();
            na.push(Json::string(name));
            proof {
                lemma_view_items(na@);
                assert(view_items(na@) =~= seq![JsonV::Str(name@)]);
            }
            config.set_key("kept_models", Json::Arr(na));
        },
    }
}

/// `c[k]` with every item that is the string `name` dropped when it is an
/// array, after the write has added the key.
pub open spec fn spec_drop_str_in(c: JsonV, k: Seq<char>, name: Seq<char>) -> JsonV {
    let t = touched(c, k);
    match t.at(k).as_arr() {
        Some(a) => t.with_key(k, JsonV::Arr(without_str(a, name))),
        None => t,
    }
}

fn drop_str_in(config: &mut Json, k: &str, name: &str)
    requires
        old(config)@.is_keyable(),
    ensures
        final(config)@ == spec_drop_str_in(old(config)@, k@, name@),
        final(config)@ is Obj,
{
    touch_key(config, k);
    let cur = child(config, k);
    match cur.as_array() {
        Some(a) => {
            let na = remove_str(a, name);
            config.set_key(k, Json::Arr(na));
        },
        None => {},
    }
}

/// `models unkeep`: unpin `name`.
pub fn unkeep_model(config: &mut Json, name: &str)
    requires
        old(config)@.is_keyable(),
    ensures
        final(config)@ == spec_drop_str_in(old(config)@, "kept_models"@, name@),
{
    drop_str_in(config, "kept_models", name);
}

/// `models override <mode> <model|--clear>`: a null or missing
/// `mode_overrides` becomes `{}`; then the mode's override is set, or set
/// to null for `--clear`.
pub open spec fn spec_override(c: JsonV, mode: Seq<char>, value: Seq<char>) -> JsonV {
    let c1 = if c.at("mode_overrides"@) is Null {
        c.with_key("mode_overrides"@, JsonV::Obj(Seq::empty()))
    } else {
        c
    };
    let v = if value == "--clear"@ {
        JsonV::Null
    } else {
        JsonV::Str(value)
    };
    c1.with_key("mode_overrides"@, c1.at("mode_overrides"@).with_key(mode, v))
}

pub fn override_model(config: &mut Json, mode: &str, model_or_clear: &str)
    requires
        old(config)@.is_keyable(),
        old(config)@.at("mode_overrides"@).is_keyable(),
    ensures
        final(config)@ == spec_override(old(config)@, mode@, model_or_clear@),
{
    let cur = child(config, "mode_overrides");
    if cur.is_null() {
        config.set_key("mode_overrides", Json::Obj(Vec::new()));
        proof {
            assert(crate::json::view_entries(Seq::<(String, Json)>::empty()) =~= Seq::empty());
        }
    }
    let mut ov = child(config, "mode_overrides");
    proof {
        crate::json::lemma_with_key_get(old(config)@, "mode_overrides"@, JsonV::Obj(Seq::empty()), "mode_overrides"@);
    }
    let v = if str_eq(model_or_clear, "--clear") {
        Json::Null
    } else {
        Json::string(model_or_clear)
    };
    ov.set_key(mode, v);
    config.set_key("mode_overrides", ov);
}


/// Why a command cannot apply its edit.
#[derive(Debug, Clone, Copy, PartialEq, Eq, Structural)]
pub enum CliError {
    /// `providers` is not an array.
    MissingProviders,
    /// `sources` is not an array.
    MissingSources,
    /// No provider or source has the given name.
    NotFound,
    /// The active provider cannot be removed.
    ActiveProvider,
}

/// Overrides naming `name` become null; others stay.
pub open spec fn null_matching(es: Seq<(Seq<char>, JsonV)>, name: Seq<char>) -> Seq<(Seq<char>, JsonV)> {
    es.map_values(
        |e: (Seq<char>, JsonV)|
            if e.1.as_str() == Some(name) {
                (e.0, JsonV::Null)
            } else {
                e
            },
    )
}

/// `models rm`: unpin `name` and clear every override that names it.
pub open spec fn spec_remove_refs(c: JsonV, name: Seq<char>) -> JsonV {
    let c1 = spec_drop_str_in(c, "kept_models"@, name);
    let c2 = touched(c1, "mode_overrides"@);
    match c2.at("mode_overrides"@).as_obj() {
        Some(es) => c2.with_key("mode_overrides"@, JsonV::Obj(null_matching(es, name))),
        None => c2,
    }
}

fn null_matching_exec(es: &Vec<(String, Json)>, name: &str) -> (r: Vec<(String, Json)>)
    ensures
        crate::json::view_entries(r@) == null_matching(crate::json::view_entries(es@), name@),
{
    let ghost t = crate::json::view_entries(es@);
    let mut out: Vec<(String, Json)> = Vec::new();
    proof {
        crate::json::lemma_view_entries(es@);
    }
    let mut i: usize = 0;
    while i < es.len()
        invariant
            i <= es@.len(),
            t == crate::json::view_entries(es@),
            t.len() == es@.len(),
            forall|j: int| 0 <= j < es@.len() ==> #[trigger] t[j] == crate::json::view_entry(es@[j]),
            out@.len() == i,
            forall|j: int| 0 <= j < i ==> crate::json::view_entry(#[trigger] out@[j]) == null_matching(t, name@)[j],
        decreases es.len() - i,
    {
        let hit = match es[i].1.as_str() {
            Some(s) => str_eq(s, name),
            None => false,
        };
        let k = es[i].0.clone();
        let v = if hit {
            Json::Null
        } else {
            es[i].1.deep_clone()
        };
        out.push((k, v));
        i = i + 1;
    }
    proof {
        crate::json::lemma_view_entries(out@);
        assert(crate::json::view_entries(out@) =~= null_matching(t, name@));
    }
    out
}

/// `models rm <name>`, the configuration part.
pub fn remove_model_refs(config: &mut Json, name: &str)
    requires
        old(config)@.is_keyable(),
    ensures
        final(config)@ == spec_remove_refs(old(config)@, name@),
{
    drop_str_in(config, "kept_models", name);
    touch_key(config, "mode_overrides");
    let cur = child(config, "mode_overrides");
    match cur.as_object() {
        Some(es) => {
            let ne = null_matching_exec(es, name);
            config.set_key("mode_overrides", Json::Obj(ne));
        },
        None => {},
    }
}

/// Whether some item's `name` is the string `name`.
pub open spec fn has_named(a: Seq<JsonV>, name: Seq<char>) -> bool {
    index_named(a, name) >= 0
}

/// Items named `name` get `url` set; others stay.
pub open spec fn set_url_named(a: Seq<JsonV>, name: Seq<char>, url: Seq<char>) -> Seq<JsonV> {
    a.map_values(
        |p: JsonV|
            if at_str(p, "name"@) == Some(name) {
                p.with_key("url"@, JsonV::Str(url))
            } else {
                p
            },
    )
}

/// `add`: update the URL of every entry of that name, or append the new
/// entry when none has it.
pub open spec fn spec_add_named(a: Seq<JsonV>, name: Seq<char>, url: Seq<char>, item: JsonV) -> Seq<JsonV> {
    if has_named(a, name) {
        set_url_named(a, name, url)
    } else {
        a.push(item)
    }
}

fn add_named(a: &Vec<Json>, name: &str, url: &str, item: Json) -> (r: Vec<Json>)
    ensures
        view_items(r@) == spec_add_named(view_items(a@), name@, url@, item@),
{
    proof {
        lemma_view_items(a@);
        lemma_index_named(view_items(a@), name@);
    }
    if find_named(a, name).is_none() {
        return push_item(a, item);
    }
    let ghost t = view_items(a@);
    let mut out: Vec<Json> = Vec::new();
    let mut i: usize = 0;
    while i < a.len()
        invariant
            i <= a@.len(),
            t == view_items(a@),
            t.len() == a@.len(),
            forall|j: int| 0 <= j < a@.len() ==> #[trigger] t[j] == a@[j]@,
            out@.len() == i,
            forall|j: int| 0 <= j < i ==> (#[trigger] out@[j])@ == set_url_named(t, name@, url@)[j],
        decreases a.len() - i,
    {
        let named = match a[i].get("name") {
            Some(n) => match n.as_str() {
                Some(s) => str_eq(s, name),
                None => false,
            },
            None => false,
        };
        let mut p = a[i].deep_clone();
        if named {
            p.set_key("url", Json::string(url));
        }
        out.push(p);
        i = i + 1;
    }
    proof {
        lemma_view_items(out@);
        assert(view_items(out@) =~= set_url_named(t, name@, url@));
    }
    out
}

/// The new provider entry: name, URL and source (null when none).
pub open spec fn provider_item(name: Seq<char>, url: Seq<char>, source: JsonV) -> JsonV {
    JsonV::Obj(seq![("name"@, JsonV::Str(name)), ("url"@, JsonV::Str(url)), ("source"@, source)])
}

/// The new source entry: name and URL.
pub open spec fn source_item(name: Seq<char>, url: Seq<char>) -> JsonV {
    JsonV::Obj(seq![("name"@, JsonV::Str(name)), ("url"@, JsonV::Str(url))])
}

/// `providers add` or `sources add` on the list under `key`.
pub open spec fn spec_add_to(c: JsonV, key: Seq<char>, name: Seq<char>, url: Seq<char>, item: JsonV) -> Result<
    JsonV,
    JsonV,
> {
    let t = touched(c, key);
    match t.at(key).as_arr() {
        Some(a) => Ok(t.with_key(key, JsonV::Arr(spec_add_named(a, name, url, item)))),
        None => Err(t),
    }
}

fn add_to(config: &mut Json, key: &str, name: &str, url: &str, item: Json) -> (r: bool)
    requires
        old(config)@.is_keyable(),
    ensures
        match spec_add_to(old(config)@, key@, name@, url@, item@) {
            Ok(v) => r && final(config)@ == v,
            Err(v) => !r && final(config)@ == v,
        },
{
    touch_key(config, key);
    let cur = child(config, key);
    match cur.as_array() {
        Some(a) => {
            let na = add_named(a, name, url, item);
            config.set_key(key, Json::Arr(na));
            true
        },
        None => false,
    }
}

fn obj3(k1: &str, v1: Json, k2: &str, v2: Json, k3: &str, v3: Json) -> (r: Json)
    ensures
        r@ == JsonV::Obj(seq![(k1@, v1@), (k2@, v2@), (k3@, v3@)]),
{
    let mut es: Vec<(String, Json)> = Vec::new();
    es.push((k1.to_string(), v1));
    es.push((k2.to_string(), v2));
    es.push((k3.to_string(), v3));
    proof {
        crate::json::lemma_view_entries(es@);
        assert(crate::json::view_entries(es@) =~= seq![(k1@, v1@), (k2@, v2@), (k3@, v3@)]);
    }
    Json::Obj(es)
}

fn obj2(k1: &str, v1: Json, k2: &str, v2: Json) -> (r: Json)
    ensures
        r@ == JsonV::Obj(seq![(k1@, v1@), (k2@, v2@)]),
{
    let mut es: Vec<(String, Json)> = Vec::new();
    es.push((k1.to_string(), v1));
    es.push((k2.to_string(), v2));
    proof {
        crate::json::lemma_view_entries(es@);
        assert(crate::json::view_entries(es@) =~= seq![(k1@, v1@), (k2@, v2@)]);
    }
    Json::Obj(es)
}

/// `providers add <url> [--name n] [--source s]`, the configuration part.
pub fn add_provider(config: &mut Json, url: &str, name: &str, source: Option<&str>) -> (r: Result<(), CliError>)
    requires
        old(config)@.is_keyable(),
    ensures
        match spec_add_to(
            old(config)@,
            "providers"@,
            name@,
            url@,
            provider_item(
                name@,
                url@,
                match source {
                    Some(s) => JsonV::Str(s@),
                    None => JsonV::Null,
                },
            ),
        ) {
            Ok(v) => r is Ok && final(config)@ == v,
            Err(v) => r == Err::<(), CliError>(CliError::MissingProviders) && final(config)@ == v,
        },
{
    let src = match source {
        Some(s) => Json::string(s),
        None => Json::Null,
    };
    let ghost sv = src@;
    assert(sv == match source {
        Some(s) => JsonV::Str(s@),
        None => JsonV::Null,
    });
    let nv = Json::string(name);
    let uv = Json::string(url);
    let item = obj3("name", nv, "url", uv, "source", src);
    if add_to(config, "providers", name, url, item) {
        Ok(())
    } else {
        Err(CliError::MissingProviders)
    }
}

/// `sources add <url> [--name n]`, the configuration part.
pub fn add_source(config: &mut Json, url: &str, name: &str) -> (r: Result<(), CliError>)
    requires
        old(config)@.is_keyable(),
    ensures
        match spec_add_to(old(config)@, "sources"@, name@, url@, source_item(name@, url@)) {
            Ok(v) => r is Ok && final(config)@ == v,
            Err(v) => r == Err::<(), CliError>(CliError::MissingSources) && final(config)@ == v,
        },
{
    let item = obj2("name", Json::string(name), "url", Json::string(url));
    if add_to(config, "sources", name, url, item) {
        Ok(())
    } else {
        Err(CliError::MissingSources)
    }
}

/// The items not named `name`, in order.
pub open spec fn without_named(a: Seq<JsonV>, name: Seq<char>) -> Seq<JsonV>
    decreases a.len(),
{
    if a.len() == 0 {
        Seq::empty()
    } else {
        without_named(a.drop_last(), name) + if at_str(a.last(), "name"@) == Some(name) {
            Seq::empty()
        } else {
            seq![a.last()]
        }
    }
}

/// The list under `key` without the items named `name`, after the write
/// has added the key.
pub open spec fn spec_drop_named(c: JsonV, key: Seq<char>, name: Seq<char>) -> JsonV {
    let t = touched(c, key);
    match t.at(key).as_arr() {
        Some(a) => t.with_key(key, JsonV::Arr(without_named(a, name))),
        None => t,
    }
}

fn drop_named(config: &mut Json, key: &str, name: &str)
    requires
        old(config)@.is_keyable(),
    ensures
        final(config)@ == spec_drop_named(old(config)@, key@, name@),
{
    touch_key(config, key);
    let cur = child(config, key);
    match cur.as_array() {
        Some(a) => {
            let ghost t = view_items(a@);
            let mut out: Vec<Json> = Vec::new();
            proof {
                lemma_view_items(a@);
                assert(t.take(0) =~= Seq::<JsonV>::empty());
                assert(view_items(out@) =~= without_named(t.take(0), name@));
            }
            let mut i: usize = 0;
            while i < a.len()
                invariant
                    i <= a@.len(),
                    t == view_items(a@),
                    t.len() == a@.len(),
                    forall|j: int| 0 <= j < a@.len() ==> #[trigger] t[j] == a@[j]@,
                    view_items(out@) == without_named(t.take(i as int), name@),
                decreases a.len() - i,
            {
                let named = match a[i].get("name") {
                    Some(n) => match n.as_str() {
                        Some(s) => str_eq(s, name),
                        None => false,
                    },
                    None => false,
                };
                let ghost before = view_items(out@);
                proof {
                    let p = t.take(i as int + 1);
                    assert(p.drop_last() =~= t.take(i as int));
                    assert(p.last() == a@[i as int]@);
                }
                if !named {
                    let c = a[i].deep_clone();
                    let ghost prev = out@;
                    out.push(c);
                    proof {
                        crate::json::lemma_view_items_push(prev, out@.last());
                        assert(out@ == prev.push(out@.last()));
                        assert(view_items(out@) =~= before + seq![t[i as int]]);
                    }
                } else {
                    proof {
                        assert(before =~= before + Seq::<JsonV>::empty());
                    }
                }
                i = i + 1;
            }
            proof {
                assert(t.take(i as int) =~= t);
            }
            config.set_key(key, Json::Arr(out));
        },
        None => {},
    }
}

/// `providers rm <name>`: refused for the active provider.
pub fn remove_provider(config: &mut Json, name: &str) -> (r: Result<(), CliError>)
    requires
        old(config)@.is_keyable(),
    ensures
        at_str(old(config)@, "active_provider"@) == Some(name@) ==> r == Err::<(), CliError>(
            CliError::ActiveProvider,
        ) && final(config)@ == old(config)@,
        at_str(old(config)@, "active_provider"@) != Some(name@) ==> r is Ok && final(config)@
            == spec_drop_named(old(config)@, "providers"@, name@),
{
    let active = match config.get("active_provider") {
        Some(a) => match a.as_str() {
            Some(s) => str_eq(s, name),
            None => false,
        },
        None => false,
    };
    if active {
        return Err(CliError::ActiveProvider);
    }
    drop_named(config, "providers", name);
    Ok(())
}

/// `sources rm <name>`.
pub fn remove_source(config: &mut Json, name: &str)
    requires
        old(config)@.is_keyable(),
    ensures
        final(config)@ == spec_drop_named(old(config)@, "sources"@, name@),
{
    drop_named(config, "sources", name);
}

/// The list under `key`, or an empty one.
pub open spec fn list_at(c: JsonV, key: Seq<char>) -> Seq<JsonV> {
    match c.at(key).as_arr() {
        Some(a) => a,
        None => Seq::empty(),
    }
}

/// The family a manifest names as its default, when it names one.
pub open spec fn default_family_of(m: Option<JsonV>) -> Option<Seq<char>> {
    match m {
        Some(doc) => crate::config::at_str(doc, "default_family"@),
        None => None,
    }
}

/// The configuration after switching to provider `name` whose manifest is
/// `m`: the provider becomes active and, when its manifest names a
/// default family, that family becomes active too.
pub open spec fn spec_use_provider(c: JsonV, name: Seq<char>, m: Option<JsonV>) -> JsonV {
    let switched = c.with_key("active_provider"@, JsonV::Str(name));
    match default_family_of(m) {
        Some(f) => switched.with_key("active_family"@, JsonV::Str(f)),
        None => switched,
    }
}

/// `providers use <name>`: switch to a listed provider and reset the
/// active family to the default family of its manifest (`new_manifest`,
/// when it could be read), so no family name of the old provider lingers.
pub fn use_provider(config: &mut Json, name: &str, new_manifest: Option<&Json>) -> (r: Result<(), CliError>)
    requires
        old(config)@.is_keyable(),
    ensures
        has_named(list_at(old(config)@, "providers"@), name@) ==> r is Ok && final(config)@
            == spec_use_provider(
            old(config)@,
            name@,
            match new_manifest {
                Some(m) => Some(m@),
                None => None,
            },
        ),
        !has_named(list_at(old(config)@, "providers"@), name@) ==> r == Err::<(), CliError>(
            CliError::NotFound,
        ) && final(config)@ == old(config)@,
{
    let found = match config.get("providers") {
        Some(p) => match p.as_array() {
            Some(a) => find_named(a, name).is_some(),
            None => false,
        },
        None => false,
    };
    if !found {
        return Err(CliError::NotFound);
    }
    config.set_key("active_provider", Json::string(name));
    let family = match new_manifest {
        Some(m) => match m.get("default_family") {
            Some(f) => f.as_str(),
            None => {
                proof {
                    assert(m@.at("default_family"@) == JsonV::Null);
                }
                None
            },
        },
        None => None,
    };
    match family {
        Some(f) => {
            proof {
                crate::json::lemma_with_key_get(old(config)@, "active_provider"@, JsonV::Str(name@), "x"@);
            }
            config.set_key("active_family", Json::string(f));
        },
        None => {},
    }
    Ok(())
}

/// The `url` of the first item named `name` under `key`.
pub open spec fn spec_url_of(c: JsonV, key: Seq<char>, name: Seq<char>) -> Option<Seq<char>> {
    let a = list_at(c, key);
    let i = index_named(a, name);
    if i < 0 {
        None
    } else {
        at_str(a[i], "url"@)
    }
}

/// The URL of the provider or source `name` (`providers show`,
/// `sources list`).
pub fn url_of(config: &Json, key: &str, name: &str) -> (r: Option<String>)
    ensures
        r is Some == spec_url_of(config@, key@, name@) is Some,
        r is Some ==> r->0@ == spec_url_of(config@, key@, name@)->0,
{
    let a = match config.get(key) {
        Some(p) => match p.as_array() {
            Some(a) => a,
            None => {
                return None;
            },
        },
        None => {
            return None;
        },
    };
    let _n = a.len();
    proof {
        lemma_view_items(a@);
        lemma_index_named(view_items(a@), name@);
    }
    match find_named(a, name) {
        Some(i) => match a[i].get("url") {
            Some(u) => match u.as_str() {
                Some(s) => Some(s.to_string()),
                None => None,
            },
            None => None,
        },
        None => None,
    }
}


/// The name an imported entry is matched by: its `name` string, or empty.
pub open spec fn name_or_empty(v: JsonV) -> Seq<char> {
    match at_str(v, "name"@) {
        Some(n) => n,
        None => Seq::empty(),
    }
}

/// `existing` with each new entry appended unless an entry of its name is
/// already there (entries appended earlier count).
pub open spec fn merge_named(existing: Seq<JsonV>, new: Seq<JsonV>) -> Seq<JsonV>
    decreases new.len(),
{
    if new.len() == 0 {
        existing
    } else {
        let m = merge_named(existing, new.drop_last());
        if has_named(m, name_or_empty(new.last())) {
            m
        } else {
            m.push(new.last())
        }
    }
}

fn merge_named_exec(existing: &Vec<Json>, new: &Vec<Json>) -> (r: Vec<Json>)
    ensures
        view_items(r@) == merge_named(view_items(existing@), view_items(new@)),
{
    let ghost e = view_items(existing@);
    let ghost t = view_items(new@);
    let mut out: Vec<Json> = push_all(existing);
    proof {
        lemma_view_items(new@);
        assert(t.take(0) =~= Seq::<JsonV>::empty());
    }
    let mut i: usize = 0;
    while i < new.len()
        invariant
            i <= new@.len(),
            e == view_items(existing@),
            t == view_items(new@),
            t.len() == new@.len(),
            forall|j: int| 0 <= j < new@.len() ==> #[trigger] t[j] == new@[j]@,
            view_items(out@) == merge_named(e, t.take(i as int)),
        decreases new.len() - i,
    {
        let name: &str = match new[i].get("name") {
            Some(n) => match n.as_str() {
                Some(s) => s,
                None => "",
            },
            None => "",
        };
        proof {
            let p = t.take(i as int + 1);
            assert(p.drop_last() =~= t.take(i as int));
            assert(p.last() == new@[i as int]@);
            reveal_strlit("");
            assert(name@ == name_or_empty(new@[i as int]@));
            let _ = out@.len();
            lemma_index_named(view_items(out@), name@);
        }
        if find_named(&out, name).is_none() {
            let c = new[i].deep_clone();
            let ghost prev = out@;
            out.push(c);
            proof {
                crate::json::lemma_view_items_push(prev, out@.last());
                assert(out@ == prev.push(out@.last()));
            }
        }
        i = i + 1;
    }
    proof {
        assert(t.take(i as int) =~= t);
    }
    out
}

fn push_all(a: &Vec<Json>) -> (r: Vec<Json>)
    ensures
        view_items(r@) == view_items(a@),
{
    let mut out: Vec<Json> = Vec::new();
    let mut i: usize = 0;
    proof {
        lemma_view_items(a@);
    }
    while i < a.len()
        invariant
            i <= a@.len(),
            out@.len() == i,
            view_items(a@).len() == a@.len(),
            forall|j: int| 0 <= j < a@.len() ==> #[trigger] view_items(a@)[j] == a@[j]@,
            forall|j: int| 0 <= j < i ==> (#[trigger] out@[j])@ == a@[j]@,
        decreases a.len() - i,
    {
        out.push(a[i].deep_clone());
        i = i + 1;
    }
    proof {
        lemma_view_items(out@);
        assert(view_items(out@) =~= view_items(a@));
    }
    out
}

/// One half of `import`: merge the imported list under `key` into the
/// configuration's, when the import has one.
pub open spec fn spec_import_list(c: JsonV, imported: JsonV, key: Seq<char>) -> Result<JsonV, JsonV> {
    match imported.at(key).as_arr() {
        None => Ok(c),
        Some(new) => {
            let t = touched(c, key);
            match t.at(key).as_arr() {
                Some(a) => Ok(t.with_key(key, JsonV::Arr(merge_named(a, new)))),
                None => Err(t),
            }
        },
    }
}

/// `import`: sources, then providers, each merged by name; an import that
/// brings a list the configuration lacks is refused.
pub open spec fn spec_import(c: JsonV, imported: JsonV) -> Result<JsonV, (CliError, JsonV)> {
    match spec_import_list(c, imported, "sources"@) {
        Err(t) => Err((CliError::MissingSources, t)),
        Ok(c1) => match spec_import_list(c1, imported, "providers"@) {
            Err(t) => Err((CliError::MissingProviders, t)),
            Ok(c2) => Ok(c2),
        },
    }
}

fn import_list(config: &mut Json, imported: &Json, key: &str) -> (r: bool)
    requires
        old(config)@.is_keyable(),
    ensures
        match spec_import_list(old(config)@, imported@, key@) {
            Ok(v) => r && final(config)@ == v,
            Err(v) => !r && final(config)@ == v,
        },
        final(config)@.is_keyable(),
{
    let new = match imported.get(key) {
        Some(v) => match v.as_array() {
            Some(a) => a,
            None => {
                return true;
            },
        },
        None => {
            return true;
        },
    };
    touch_key(config, key);
    let cur = child(config, key);
    match cur.as_array() {
        Some(a) => {
            let merged = merge_named_exec(a, new);
            config.set_key(key, Json::Arr(merged));
            true
        },
        None => false,
    }
}

/// `import <url|path>`, the configuration part: merge the imported
/// document's sources and providers by name.
pub fn import_config(config: &mut Json, imported: &Json) -> (r: Result<(), CliError>)
    requires
        old(config)@.is_keyable(),
    ensures
        match spec_import(old(config)@, imported@) {
            Ok(v) => r is Ok && final(config)@ == v,
            Err((e, v)) => r == Err::<(), CliError>(e) && final(config)@ == v,
        },
{
    if !import_list(config, imported, "sources") {
        return Err(CliError::MissingSources);
    }
    if !import_list(config, imported, "providers") {
        return Err(CliError::MissingProviders);
    }
    Ok(())
}

/// The bundled preset entries merged into the list under `key` by name;
/// refused when the configuration has no such list.
pub open spec fn spec_merge_preset(c: JsonV, key: Seq<char>, preset: Seq<JsonV>) -> Result<JsonV, JsonV> {
    let t = touched(c, key);
    match t.at(key).as_arr() {
        Some(a) => Ok(t.with_key(key, JsonV::Arr(merge_named(a, preset)))),
        None => Err(t),
    }
}

fn merge_preset(config: &mut Json, key: &str, preset: &Vec<Json>) -> (r: bool)
    requires
        old(config)@.is_keyable(),
    ensures
        match spec_merge_preset(old(config)@, key@, view_items(preset@)) {
            Ok(v) => r && final(config)@ == v,
            Err(v) => !r && final(config)@ == v,
        },
{
    touch_key(config, key);
    let cur = child(config, key);
    match cur.as_array() {
        Some(a) => {
            let merged = merge_named_exec(a, preset);
            config.set_key(key, Json::Arr(merged));
            true
        },
        None => false,
    }
}

/// Merge the bundled preset sources: each one whose name is not listed
/// yet is appended.
pub fn merge_preset_sources(config: &mut Json, preset: &Vec<Json>) -> (r: Result<(), CliError>)
    requires
        old(config)@.is_keyable(),
    ensures
        match spec_merge_preset(old(config)@, "sources"@, view_items(preset@)) {
            Ok(v) => r is Ok && final(config)@ == v,
            Err(v) => r == Err::<(), CliError>(CliError::MissingSources) && final(config)@ == v,
        },
{
    if merge_preset(config, "sources", preset) {
        Ok(())
    } else {
        Err(CliError::MissingSources)
    }
}

/// Merge the bundled preset providers: each one whose name is not listed
/// yet is appended.
pub fn merge_preset_providers(config: &mut Json, preset: &Vec<Json>) -> (r: Result<(), CliError>)
    requires
        old(config)@.is_keyable(),
    ensures
        match spec_merge_preset(old(config)@, "providers"@, view_items(preset@)) {
            Ok(v) => r is Ok && final(config)@ == v,
            Err(v) => r == Err::<(), CliError>(CliError::MissingProviders) && final(config)@ == v,
        },
{
    if merge_preset(config, "providers", preset) {
        Ok(())
    } else {
        Err(CliError::MissingProviders)
    }
}

/// `export`: the sources and providers lists (null where absent), less
/// the one excluded by a flag.
pub open spec fn spec_export(c: JsonV, sources_only: bool, providers_only: bool) -> JsonV {
    let e0 = JsonV::Obj(Seq::empty());
    let e1 = if !providers_only {
        e0.with_key("sources"@, c.at("sources"@))
    } else {
        e0
    };
    if !sources_only {
        e1.with_key("providers"@, c.at("providers"@))
    } else {
        e1
    }
}

pub fn export_config(config: &Json, sources_only: bool, providers_only: bool) -> (r: Json)
    ensures
        r@ == spec_export(config@, sources_only, providers_only),
{
    let mut out = Json::Obj(Vec::new());
    proof {
        assert(crate::json::view_entries(Seq::<(String, Json)>::empty()) =~= Seq::empty());
    }
    if !providers_only {
        out.set_key("sources", child(config, "sources"));
    }
    if !sources_only {
        out.set_key("providers", child(config, "providers"));
    }
    out
}

/// The value after the first `flag` that has one.
pub open spec fn spec_flag_value(args: Seq<Seq<char>>, flag: Seq<char>) -> Option<Seq<char>>
    decreases args.len(),
{
    if args.len() < 2 {
        None
    } else if args[0] == flag {
        Some(args[1])
    } else {
        spec_flag_value(args.drop_first(), flag)
    }
}

pub fn flag_value(args: &[String], flag: &str) -> (r: Option<String>)
    ensures
        r is Some == spec_flag_value(crate::sorted::views(args@), flag@) is Some,
        r is Some ==> r->0@ == spec_flag_value(crate::sorted::views(args@), flag@)->0,
{
    let ghost a = crate::sorted::views(args@);
    let mut i: usize = 0;
    proof {
        assert(a.skip(0) =~= a);
    }
    while i < args.len() && args.len() - i >= 2
        invariant
            i <= args@.len(),
            a == crate::sorted::views(args@),
            spec_flag_value(a.skip(i as int), flag@) == spec_flag_value(a, flag@),
        decreases args.len() - i,
    {
        proof {
            let s = a.skip(i as int);
            assert(s[0] == args@[i as int]@);
            assert(s[1] == args@[i as int + 1]@);
            assert(s.drop_first() =~= a.skip(i as int + 1));
        }
        if str_eq(args[i].as_str(), flag) {
            return Some(args[i + 1].clone());
        }
        i = i + 1;
    }
    None
}

/// The URL-safe base64 alphabet.
pub open spec fn b64(v: int) -> char {
    if v < 26 {
        ('A' as int + v) as char
    } else if v < 52 {
        ('a' as int + (v - 26)) as char
    } else if v < 62 {
        ('0' as int + (v - 52)) as char
    } else if v == 62 {
        '-'
    } else {
        '_'
    }
}

/// URL-safe base64 without padding: three bytes become four characters,
/// a trailing one or two bytes become two or three.
pub open spec fn spec_base64(b: Seq<u8>) -> Seq<char>
    decreases b.len(),
{
    if b.len() == 0 {
        Seq::empty()
    } else {
        let b0 = b[0] as int;
        let b1 = if b.len() > 1 { b[1] as int } else { 0 };
        let b2 = if b.len() > 2 { b[2] as int } else { 0 };
        let head = seq![b64(b0 / 4), b64((b0 % 4) * 16 + b1 / 16)];
        let third = if b.len() > 1 { seq![b64((b1 % 16) * 4 + b2 / 64)] } else { Seq::empty() };
        let fourth = if b.len() > 2 { seq![b64(b2 % 64)] } else { Seq::empty() };
        head + third + fourth + spec_base64(if b.len() > 3 { b.skip(3) } else { Seq::empty() })
    }
}

fn b64_char(v: u8) -> (r: char)
    requires
        v < 64,
    ensures
        r == b64(v as int),
{
    if v < 26 {
        ((65u8 + v) as char)
    } else if v < 52 {
        ((97u8 + (v - 26)) as char)
    } else if v < 62 {
        ((48u8 + (v - 52)) as char)
    } else if v == 62 {
        '-'
    } else {
        '_'
    }
}

/// Encode the UTF-8 bytes of `s` as URL-safe base64 without padding.
pub fn base64_encode(s: &str) -> (r: String)
    ensures
        r@ == spec_base64(s.spec_bytes()),
{
    let out = encode_bytes(s.as_bytes());
    crate::text::string_of(out.as_slice())
}

fn encode_bytes(bytes: &[u8]) -> (r: Vec<char>)
    ensures
        r@ == spec_base64(bytes@),
{
    let ghost b = bytes@;
    let n = bytes.len();
    let mut out: Vec<char> = Vec::new();
    let mut i: usize = 0;
    proof {
        assert(b.skip(0) =~= b);
    }
    while i < n
        invariant
            i <= n == bytes@.len(),
            b == bytes@,
            out@ + spec_base64(b.skip(i as int)) == spec_base64(b),
        decreases n - i,
    {
        let rem = n - i;
        let b0 = bytes[i];
        let b1: u8 = if rem > 1 { bytes[i + 1] } else { 0 };
        let b2: u8 = if rem > 2 { bytes[i + 2] } else { 0 };
        let ghost rest = b.skip(i as int);
        let ghost prev = out@;
        out.push(b64_char(b0 / 4));
        out.push(b64_char((b0 % 4) * 16 + b1 / 16));
        if rem > 1 {
            out.push(b64_char((b1 % 16) * 4 + b2 / 64));
        }
        if rem > 2 {
            out.push(b64_char(b2 % 64));
        }
        let next: usize = if rem <= 3 { n } else { i + 3 };
        proof {
            assert(rest[0] == b0);
            if rest.len() > 1 {
                assert(rest[1] == b1);
            }
            if rest.len() > 2 {
                assert(rest[2] == b2);
            }
            let tail = if rest.len() > 3 { rest.skip(3) } else { Seq::<u8>::empty() };
            assert(b.skip(next as int) =~= tail);
            let h = seq![b64(b0 as int / 4), b64((b0 as int % 4) * 16 + b1 as int / 16)];
            let t3 = if rest.len() > 1 { seq![b64((b1 as int % 16) * 4 + b2 as int / 64)] } else { Seq::<char>::empty() };
            let t4 = if rest.len() > 2 { seq![b64(b2 as int % 64)] } else { Seq::<char>::empty() };
            assert(out@ =~= prev + (h + t3 + t4));
            assert(spec_base64(rest) == h + t3 + t4 + spec_base64(tail));
            assert(out@ + spec_base64(tail) =~= prev + spec_base64(rest));
        }
        i = next;
    }
    proof {
        assert(b.skip(i as int) =~= Seq::<u8>::empty());
        assert(out@ =~= out@ + Seq::<char>::empty());
    }
    out
}


/// Argument `j`, when there is one.
pub open spec fn arg_at(a: Seq<Seq<char>>, j: int) -> Option<Seq<char>> {
    if 0 <= j < a.len() {
        Some(a[j])
    } else {
        None
    }
}

/// The flags of `run`: `(mode, model override, profile URL)`.
pub open spec fn scan_run(a: Seq<Seq<char>>, i: int, st: (Seq<char>, Option<Seq<char>>, Option<Seq<char>>)) -> (
    Seq<char>,
    Option<Seq<char>>,
    Option<Seq<char>>,
)
    decreases a.len() + 2 - i,
{
    if i < 0 || i >= a.len() {
        st
    } else if a[i] == "--mode"@ {
        scan_run(
            a,
            i + 2,
            (
                match arg_at(a, i + 1) {
                    Some(m) => m,
                    None => Seq::empty(),
                },
                st.1,
                st.2,
            ),
        )
    } else if a[i] == "--model"@ {
        scan_run(a, i + 2, (st.0, arg_at(a, i + 1), st.2))
    } else if a[i] == "--profile"@ {
        scan_run(a, i + 2, (st.0, st.1, arg_at(a, i + 1)))
    } else {
        scan_run(a, i + 1, st)
    }
}

/// The flags of `run`.
#[derive(Debug, Clone, PartialEq)]
pub struct RunArgs {
    pub mode: String,
    pub model: Option<String>,
    pub profile: Option<String>,
}

/// The characters of an optional string.
pub open spec fn opt_views(o: Option<String>) -> Option<Seq<char>> {
    match o {
        Some(s) => Some(s@),
        None => None,
    }
}

pub fn arg_clone(args: &[String], j: usize) -> (r: Option<String>)
    ensures
        opt_views(r) == arg_at(crate::sorted::views(args@), j as int),
{
    if j < args.len() {
        Some(args[j].clone())
    } else {
        None
    }
}

/// Read `--mode`, `--model` and `--profile`; the mode defaults to `text`.
pub fn parse_run_args(args: &[String]) -> (r: RunArgs)
    ensures
        scan_run(crate::sorted::views(args@), 0, ("text"@, None, None)) == (
            r.mode@,
            opt_views(r.model),
            opt_views(r.profile),
        ),
{
    let ghost a = crate::sorted::views(args@);
    let mut mode = "text".to_string();
    let mut model: Option<String> = None;
    let mut profile: Option<String> = None;
    let n = args.len();
    let mut i: usize = 0;
    while i < n
        invariant
            i <= n == args@.len(),
            a == crate::sorted::views(args@),
            scan_run(a, 0, ("text"@, None, None)) == scan_run(
                a,
                i as int,
                (mode@, opt_views(model), opt_views(profile)),
            ),
        decreases n - i,
    {
        let next2: usize = if n - i >= 2 { i + 2 } else { n };
        let arg = args[i].as_str();
        proof {
            assert(a[i as int] == arg@);
            assert forall|st: (Seq<char>, Option<Seq<char>>, Option<Seq<char>>)|
                #[trigger] scan_run(a, i as int + 2, st) == scan_run(a, next2 as int, st) by {
                if next2 == n {
                    assert(scan_run(a, i as int + 2, st) == st);
                    assert(scan_run(a, n as int, st) == st);
                }
            }
        }
        let ghost st0 = (mode@, opt_views(model), opt_views(profile));
        if str_eq(arg, "--mode") {
            mode = match arg_clone(args, i + 1) {
                Some(m) => m,
                None => String::new(),
            };
            proof {
                let nst = (mode@, st0.1, st0.2);
                assert(mode@ == match arg_at(a, i + 1) {
                    Some(m) => m,
                    None => Seq::<char>::empty(),
                });
                assert(scan_run(a, i as int, st0) == scan_run(a, i as int + 2, nst));
                assert(scan_run(a, i as int + 2, nst) == scan_run(a, next2 as int, nst));
            }
            i = next2;
        } else if str_eq(arg, "--model") {
            model = arg_clone(args, i + 1);
            proof {
                let nst = (st0.0, opt_views(model), st0.2);
                assert(scan_run(a, i as int, st0) == scan_run(a, i as int + 2, nst));
                assert(scan_run(a, i as int + 2, nst) == scan_run(a, next2 as int, nst));
            }
            i = next2;
        } else if str_eq(arg, "--profile") {
            profile = arg_clone(args, i + 1);
            proof {
                let nst = (st0.0, st0.1, opt_views(profile));
                assert(scan_run(a, i as int, st0) == scan_run(a, i as int + 2, nst));
                assert(scan_run(a, i as int + 2, nst) == scan_run(a, next2 as int, nst));
            }
            i = next2;
        } else {
            proof {
                assert(scan_run(a, i as int, st0) == scan_run(a, i as int + 1, st0));
            }
            i = i + 1;
        }
    }
    RunArgs { mode, model, profile }
}

/// The modes the resolver knows.
pub open spec fn spec_known_mode(m: Seq<char>) -> bool {
    m == "text"@ || m == "vision"@ || m == "code"@ || m == "transcribe"@
}

pub fn is_known_mode(m: &str) -> (r: bool)
    ensures
        r == spec_known_mode(m@),
{
    str_eq(m, "text") || str_eq(m, "vision") || str_eq(m, "code") || str_eq(m, "transcribe")
}

/// Whether `s` starts with `--`.
pub open spec fn is_flag(s: Seq<char>) -> bool {
    s.len() >= 2 && s[0] == '-' && s[1] == '-'
}

/// The arguments that are not flags, in order.
pub open spec fn positional(a: Seq<Seq<char>>) -> Seq<Seq<char>>
    decreases a.len(),
{
    if a.len() == 0 {
        Seq::empty()
    } else {
        positional(a.drop_last()) + if is_flag(a.last()) {
            Seq::empty()
        } else {
            seq![a.last()]
        }
    }
}

/// The first mode that is not known, if any.
pub open spec fn first_unknown(ms: Seq<Seq<char>>) -> Option<Seq<char>>
    decreases ms.len(),
{
    if ms.len() == 0 {
        None
    } else if !spec_known_mode(ms[0]) {
        Some(ms[0])
    } else {
        first_unknown(ms.drop_first())
    }
}

/// Why `preload` refuses its arguments.
#[derive(Debug, Clone, PartialEq)]
pub enum PreloadArgError {
    /// No mode given.
    Usage,
    /// The first mode that is not one of text, vision, code, transcribe.
    UnknownMode(String),
}

/// The flags of `preload`.
#[derive(Debug, Clone, PartialEq)]
pub struct PreloadArgs {
    pub modes: Vec<String>,
    pub track: bool,
    pub warm: bool,
    pub json: bool,
}

/// Whether some argument equals `flag`.
pub open spec fn has_arg(a: Seq<Seq<char>>, flag: Seq<char>) -> bool {
    exists|j: int| 0 <= j < a.len() && a[j] == flag
}

pub fn contains_arg(args: &[String], flag: &str) -> (r: bool)
    ensures
        r == has_arg(crate::sorted::views(args@), flag@),
{
    let ghost a = crate::sorted::views(args@);
    let mut i: usize = 0;
    while i < args.len()
        invariant
            i <= args@.len(),
            a == crate::sorted::views(args@),
            forall|j: int| 0 <= j < i ==> a[j] != flag@,
        decreases args.len() - i,
    {
        if str_eq(args[i].as_str(), flag) {
            proof {
                assert(a[i as int] == flag@);
            }
            return true;
        }
        i = i + 1;
    }
    false
}

fn starts_with_dashes(s: &str) -> (r: bool)
    ensures
        r == is_flag(s@),
{
    let cs = crate::text::chars_of(s);
    cs.len() >= 2 && cs[0] == '-' && cs[1] == '-'
}

/// Read the modes and flags of `preload`: at least one mode, all known.
pub fn parse_preload_args(args: &[String]) -> (r: Result<PreloadArgs, PreloadArgError>)
    ensures
        match r {
            Ok(p) => {
                &&& crate::sorted::views(p.modes@) == positional(crate::sorted::views(args@))
                &&& p.modes@.len() > 0
                &&& first_unknown(crate::sorted::views(p.modes@)) is None
                &&& p.track == has_arg(crate::sorted::views(args@), "--track"@)
                &&& p.warm == !has_arg(crate::sorted::views(args@), "--no-warm"@)
                &&& p.json == has_arg(crate::sorted::views(args@), "--json"@)
            },
            Err(PreloadArgError::Usage) => positional(crate::sorted::views(args@)).len() == 0,
            Err(PreloadArgError::UnknownMode(m)) => positional(crate::sorted::views(args@)).len() > 0
                && first_unknown(positional(crate::sorted::views(args@))) == Some(m@),
        },
{
    let track = contains_arg(args, "--track");
    let no_warm = contains_arg(args, "--no-warm");
    let json = contains_arg(args, "--json");
    let ghost a = crate::sorted::views(args@);
    let mut modes: Vec<String> = Vec::new();
    let mut i: usize = 0;
    proof {
        assert(a.take(0) =~= Seq::<Seq<char>>::empty());
        assert(crate::sorted::views(modes@) =~= positional(a.take(0)));
    }
    while i < args.len()
        invariant
            i <= args@.len(),
            a == crate::sorted::views(args@),
            crate::sorted::views(modes@) == positional(a.take(i as int)),
        decreases args.len() - i,
    {
        proof {
            let p = a.take(i as int + 1);
            assert(p.drop_last() =~= a.take(i as int));
            assert(p.last() == args@[i as int]@);
        }
        let ghost before = crate::sorted::views(modes@);
        if !starts_with_dashes(args[i].as_str()) {
            modes.push(args[i].clone());
            proof {
                assert(crate::sorted::views(modes@) =~= before + seq![args@[i as int]@]);
            }
        } else {
            proof {
                assert(before =~= before + Seq::<Seq<char>>::empty());
            }
        }
        i = i + 1;
    }
    proof {
        assert(a.take(i as int) =~= a);
    }
    if modes.len() == 0 {
        return Err(PreloadArgError::Usage);
    }
    let ghost ms = crate::sorted::views(modes@);
    let mut k: usize = 0;
    proof {
        assert(ms.skip(0) =~= ms);
    }
    while k < modes.len()
        invariant
            k <= modes@.len(),
            ms == crate::sorted::views(modes@),
            ms == positional(crate::sorted::views(args@)),
            first_unknown(ms.skip(k as int)) == first_unknown(ms),
        decreases modes.len() - k,
    {
        proof {
            let t = ms.skip(k as int);
            assert(t[0] == modes@[k as int]@);
            assert(t.drop_first() =~= ms.skip(k as int + 1));
        }
        if !is_known_mode(modes[k].as_str()) {
            let m = modes[k].clone();
            proof {
                assert(ms.skip(k as int)[0] == m@);
                assert(first_unknown(ms.skip(k as int)) == Some(m@));
                assert(positional(crate::sorted::views(args@)) == ms);
            }
            return Err(PreloadArgError::UnknownMode(m));
        }
        k = k + 1;
    }
    proof {
        assert(ms.skip(k as int).len() == 0);
    }
    Ok(PreloadArgs { modes, track, warm: !no_warm, json })
}


/// The top-level commands.
#[derive(Debug, Clone, PartialEq)]
pub enum Command {
    Run,
    Serve,
    Preload,
    Status,
    Stop,
    Models,
    Sources,
    Providers,
    Import,
    Export,
    Update,
    Help,
    Version,
    /// Any other first argument.
    Unknown(String),
}

/// The command a first argument names; none at all asks for help.
pub open spec fn spec_command(first: Option<Seq<char>>) -> Command {
    match first {
        None => Command::Help,
        Some(a) => if a == "run"@ {
            Command::Run
        } else if a == "serve"@ {
            Command::Serve
        } else if a == "preload"@ {
            Command::Preload
        } else if a == "status"@ {
            Command::Status
        } else if a == "stop"@ {
            Command::Stop
        } else if a == "models"@ {
            Command::Models
        } else if a == "sources"@ {
            Command::Sources
        } else if a == "providers"@ {
            Command::Providers
        } else if a == "import"@ {
            Command::Import
        } else if a == "export"@ {
            Command::Export
        } else if a == "update"@ {
            Command::Update
        } else if a == "help"@ || a == "--help"@ || a == "-h"@ {
            Command::Help
        } else if a == "--version"@ || a == "-V"@ || a == "version"@ {
            Command::Version
        } else {
            Command::Unknown(arbitrary())
        },
    }
}

/// The command the arguments name.
pub fn command_of(args: &[String]) -> (r: Command)
    ensures
        match r {
            Command::Unknown(u) => spec_command(arg_at(crate::sorted::views(args@), 0)) is Unknown
                && Some(u@) == arg_at(crate::sorted::views(args@), 0),
            _ => r == spec_command(arg_at(crate::sorted::views(args@), 0)),
        },
{
    if args.len() == 0 {
        return Command::Help;
    }
    let a = args[0].as_str();
    if str_eq(a, "run") {
        Command::Run
    } else if str_eq(a, "serve") {
        Command::Serve
    } else if str_eq(a, "preload") {
        Command::Preload
    } else if str_eq(a, "status") {
        Command::Status
    } else if str_eq(a, "stop") {
        Command::Stop
    } else if str_eq(a, "models") {
        Command::Models
    } else if str_eq(a, "sources") {
        Command::Sources
    } else if str_eq(a, "providers") {
        Command::Providers
    } else if str_eq(a, "import") {
        Command::Import
    } else if str_eq(a, "export") {
        Command::Export
    } else if str_eq(a, "update") {
        Command::Update
    } else if str_eq(a, "help") || str_eq(a, "--help") || str_eq(a, "-h") {
        Command::Help
    } else if str_eq(a, "--version") || str_eq(a, "-V") || str_eq(a, "version") {
        Command::Version
    } else {
        Command::Unknown(args[0].clone())
    }
}

/// The strings among the values of an object, in order.
pub open spec fn str_values(es: Seq<(Seq<char>, JsonV)>) -> Seq<Seq<char>>
    decreases es.len(),
{
    if es.len() == 0 {
        Seq::empty()
    } else {
        str_values(es.drop_last()) + match es.last().1.as_str() {
            Some(s) => seq![s],
            None => Seq::empty(),
        }
    }
}

/// A model no manifest recommends: its `recommended_by` is an empty array
/// or not an array.
pub open spec fn unrecommended(info: JsonV) -> bool {
    match info.at("recommended_by"@).as_arr() {
        Some(a) => a.len() == 0,
        None => true,
    }
}

/// The models `prune` removes: unrecommended ones, in status order, that
/// are neither kept nor named by an override.
pub open spec fn prune_list(status: Seq<(Seq<char>, JsonV)>, kept: Seq<Seq<char>>, overrides: Seq<Seq<char>>) -> Seq<
    Seq<char>,
>
    decreases status.len(),
{
    if status.len() == 0 {
        Seq::empty()
    } else {
        let e = status.last();
        prune_list(status.drop_last(), kept, overrides) + if unrecommended(e.1) && !kept.contains(e.0)
            && !overrides.contains(e.0) {
            seq![e.0]
        } else {
            Seq::empty()
        }
    }
}

/// `models prune`: what to delete, given the configuration and the
/// model-status cache (absent when its file is missing).
pub open spec fn spec_prune(config: JsonV, status: Option<JsonV>) -> Seq<Seq<char>> {
    let kept = crate::config::spec_tracked_list(config, "kept_models"@);
    let overrides = match config.at("mode_overrides"@).as_obj() {
        Some(es) => str_values(es),
        None => Seq::empty(),
    };
    match status {
        Some(st) => match st.as_obj() {
            Some(es) => prune_list(es, kept, overrides),
            None => Seq::empty(),
        },
        None => Seq::empty(),
    }
}

fn seq_has(v: &Vec<String>, s: &str) -> (r: bool)
    ensures
        r == crate::sorted::views(v@).contains(s@),
{
    let ghost w = crate::sorted::views(v@);
    let mut i: usize = 0;
    while i < v.len()
        invariant
            i <= v@.len(),
            w == crate::sorted::views(v@),
            forall|j: int| 0 <= j < i ==> w[j] != s@,
        decreases v.len() - i,
    {
        if str_eq(v[i].as_str(), s) {
            proof {
                assert(w[i as int] == s@);
            }
            return true;
        }
        i = i + 1;
    }
    false
}

fn str_values_of(es: &Vec<(String, Json)>) -> (r: Vec<String>)
    ensures
        crate::sorted::views(r@) == str_values(crate::json::view_entries(es@)),
{
    let ghost t = crate::json::view_entries(es@);
    let mut out: Vec<String> = Vec::new();
    proof {
        crate::json::lemma_view_entries(es@);
        assert(t.take(0) =~= Seq::<(Seq<char>, JsonV)>::empty());
        assert(crate::sorted::views(out@) =~= str_values(t.take(0)));
    }
    let mut i: usize = 0;
    while i < es.len()
        invariant
            i <= es@.len(),
            t == crate::json::view_entries(es@),
            t.len() == es@.len(),
            forall|j: int| 0 <= j < es@.len() ==> #[trigger] t[j] == crate::json::view_entry(es@[j]),
            crate::sorted::views(out@) == str_values(t.take(i as int)),
        decreases es.len() - i,
    {
        proof {
            let p = t.take(i as int + 1);
            assert(p.drop_last() =~= t.take(i as int));
            assert(p.last() == t[i as int]);
        }
        let ghost before = crate::sorted::views(out@);
        match es[i].1.as_str() {
            Some(s) => {
                out.push(s.to_string());
                proof {
                    assert(crate::sorted::views(out@) =~= before + seq![s@]);
                }
            },
            None => {
                proof {
                    assert(before =~= before + Seq::<Seq<char>>::empty());
                }
            },
        }
        i = i + 1;
    }
    proof {
        assert(t.take(i as int) =~= t);
    }
    out
}

/// The models `models prune` deletes.
pub fn prune_candidates(config: &Json, status: Option<&Json>) -> (r: Vec<String>)
    ensures
        crate::sorted::views(r@) == spec_prune(
            config@,
            match status {
                Some(s) => Some(s@),
                None => None,
            },
        ),
{
    let kept = crate::config::tracked_list(config, "kept_models");
    let overrides: Vec<String> = match config.get("mode_overrides") {
        Some(o) => match o.as_object() {
            Some(es) => str_values_of(es),
            None => Vec::new(),
        },
        None => Vec::new(),
    };
    proof {
        assert(crate::sorted::views(Seq::<String>::empty()) =~= Seq::<Seq<char>>::empty());
    }
    let mut out: Vec<String> = Vec::new();
    let st = match status {
        Some(s) => match s.as_object() {
            Some(es) => es,
            None => {
                proof {
                    assert(crate::sorted::views(out@) =~= Seq::<Seq<char>>::empty());
                }
                return out;
            },
        },
        None => {
            proof {
                assert(crate::sorted::views(out@) =~= Seq::<Seq<char>>::empty());
            }
            return out;
        },
    };
    let ghost t = crate::json::view_entries(st@);
    let ghost kv = crate::sorted::views(kept@);
    let ghost ovv = crate::sorted::views(overrides@);
    proof {
        crate::json::lemma_view_entries(st@);
        assert(t.take(0) =~= Seq::<(Seq<char>, JsonV)>::empty());
        assert(crate::sorted::views(out@) =~= prune_list(t.take(0), kv, ovv));
    }
    let mut i: usize = 0;
    while i < st.len()
        invariant
            i <= st@.len(),
            t == crate::json::view_entries(st@),
            t.len() == st@.len(),
            forall|j: int| 0 <= j < st@.len() ==> #[trigger] t[j] == crate::json::view_entry(st@[j]),
            kv == crate::sorted::views(kept@),
            ovv == crate::sorted::views(overrides@),
            crate::sorted::views(out@) == prune_list(t.take(i as int), kv, ovv),
        decreases st.len() - i,
    {
        proof {
            let p = t.take(i as int + 1);
            assert(p.drop_last() =~= t.take(i as int));
            assert(p.last() == t[i as int]);
        }
        let name = st[i].0.as_str();
        let unrec = match st[i].1.get("recommended_by") {
            Some(rb) => match rb.as_array() {
                Some(a) => a.len() == 0,
                None => true,
            },
            None => true,
        };
        let ghost before = crate::sorted::views(out@);
        if unrec && !seq_has(&kept, name) && !seq_has(&overrides, name) {
            out.push(name.to_string());
            proof {
                assert(crate::sorted::views(out@) =~= before + seq![name@]);
            }
        } else {
            proof {
                assert(before =~= before + Seq::<Seq<char>>::empty());
            }
        }
        i = i + 1;
    }
    proof {
        assert(t.take(i as int) =~= t);
    }
    out
}

/// The link `export --url` prints: the import scheme followed by the
/// URL-safe base64 of the export's compact JSON text.
pub fn export_link(export: &Json) -> (r: String)
    ensures
        r@ == "anyai:import:"@ + spec_base64(
            vstd::utf8::encode_utf8(crate::json_text::json_serialize(export@)),
        ),
{
    let text = crate::json_text::document_text(export);
    let code = base64_encode(text.as_str());
    crate::text::concat("anyai:import:", code.as_str())
}

/// One line of `models`: an installed model, whether it is pinned and the
/// modes whose override names it.
#[derive(Debug, Clone)]
pub struct ModelRow {
    pub name: String,
    pub size: u64,
    pub kept: bool,
    pub override_for: Vec<String>,
}

/// The keys whose value is the string `name`, in order.
pub open spec fn keys_naming(es: Seq<(Seq<char>, JsonV)>, name: Seq<char>) -> Seq<Seq<char>>
    decreases es.len(),
{
    if es.len() == 0 {
        Seq::empty()
    } else {
        keys_naming(es.drop_last(), name) + if es.last().1.as_str() == Some(name) {
            seq![es.last().0]
        } else {
            Seq::empty()
        }
    }
}

/// The row of a model: pinned when `kept_models` lists its name, and the
/// modes of `mode_overrides` set to it.
pub open spec fn spec_model_row(c: JsonV, name: Seq<char>, size: u64) -> (Seq<char>, u64, bool, Seq<Seq<char>>) {
    (
        name,
        size,
        has_str(list_at(c, "kept_models"@), name),
        match c.at("mode_overrides"@).as_obj() {
            Some(es) => keys_naming(es, name),
            None => Seq::empty(),
        },
    )
}

pub open spec fn row_view(r: ModelRow) -> (Seq<char>, u64, bool, Seq<Seq<char>>) {
    (r.name@, r.size, r.kept, crate::sorted::views(r.override_for@))
}

fn keys_naming_of(es: &Vec<(String, Json)>, name: &str) -> (r: Vec<String>)
    ensures
        crate::sorted::views(r@) == keys_naming(crate::json::view_entries(es@), name@),
{
    let ghost v = crate::json::view_entries(es@);
    proof {
        crate::json::lemma_view_entries(es@);
        assert(crate::sorted::views(Seq::<String>::empty()) =~= keys_naming(v.take(0), name@));
    }
    let mut out: Vec<String> = Vec::new();
    let mut i: usize = 0;
    while i < es.len()
        invariant
            i <= es@.len(),
            v == crate::json::view_entries(es@),
            v.len() == es@.len(),
            forall|j: int| 0 <= j < es@.len() ==> #[trigger] v[j] == crate::json::view_entry(es@[j]),
            crate::sorted::views(out@) == keys_naming(v.take(i as int), name@),
        decreases es@.len() - i,
    {
        proof {
            assert(v.take(i + 1).drop_last() =~= v.take(i as int));
            assert(v.take(i + 1).last() == v[i as int]);
        }
        let hit = match es[i].1.as_str() {
            Some(t) => str_eq(t, name),
            None => false,
        };
        if hit {
            let ghost before = out@;
            out.push(es[i].0.clone());
            proof {
                assert(crate::sorted::views(out@) =~= crate::sorted::views(before).push(es@[i as int].0@));
            }
        } else {
            proof {
                assert(keys_naming(v.take(i + 1), name@) =~= keys_naming(v.take(i as int), name@));
            }
        }
        i = i + 1;
    }
    proof {
        assert(v.take(es@.len() as int) =~= v);
    }
    out
}

/// The rows `models` lists: each installed model, in order, with its pin
/// and the modes overridden to it.
pub fn model_rows(config: &Json, pulled: &[crate::ollama::ModelInfo]) -> (r: Vec<ModelRow>)
    ensures
        r@.len() == pulled@.len(),
        forall|i: int|
            0 <= i < pulled@.len() ==> #[trigger] row_view(r@[i]) == spec_model_row(
                config@,
                pulled@[i].name@,
                pulled@[i].size,
            ),
{
    let empty: Vec<Json> = Vec::new();
    let kept: &Vec<Json> = match config.get("kept_models") {
        Some(k) => match k.as_array() {
            Some(a) => a,
            None => &empty,
        },
        None => &empty,
    };
    proof {
        if config@.get("kept_models"@) is None || config@.at("kept_models"@).as_arr() is None {
            assert(view_items(kept@) =~= Seq::<JsonV>::empty());
        }
    }
    let mut out: Vec<ModelRow> = Vec::new();
    let mut i: usize = 0;
    while i < pulled.len()
        invariant
            i <= pulled@.len(),
            out@.len() == i,
            view_items(kept@) == list_at(config@, "kept_models"@),
            forall|j: int|
                0 <= j < i ==> #[trigger] row_view(out@[j]) == spec_model_row(
                    config@,
                    pulled@[j].name@,
                    pulled@[j].size,
                ),
        decreases pulled@.len() - i,
    {
        let name = pulled[i].name.as_str();
        let is_kept = contains_str(kept, name);
        let override_for = match config.get("mode_overrides") {
            Some(o) => match o.as_object() {
                Some(es) => keys_naming_of(es, name),
                None => Vec::new(),
            },
            None => Vec::new(),
        };
        proof {
            if config@.get("mode_overrides"@) is None || config@.at("mode_overrides"@).as_obj() is None {
                assert(crate::sorted::views(override_for@) =~= Seq::<Seq<char>>::empty());
            }
        }
        let row = ModelRow { name: pulled[i].name.clone(), size: pulled[i].size, kept: is_kept, override_for };
        out.push(row);
        i = i + 1;
    }
    out
}

/// The tags of `before` that `after` no longer lists, in order.
pub open spec fn spec_evicted(before: Seq<Seq<char>>, after: Seq<Seq<char>>) -> Seq<Seq<char>>
    decreases before.len(),
{
    if before.len() == 0 {
        Seq::empty()
    } else {
        spec_evicted(before.drop_last(), after) + if after.contains(before.last()) {
            Seq::empty()
        } else {
            seq![before.last()]
        }
    }
}

fn lists_tag(tags: &[String], t: &str) -> (r: bool)
    ensures
        r == crate::sorted::views(tags@).contains(t@),
{
    let ghost v = crate::sorted::views(tags@);
    let mut i: usize = 0;
    while i < tags.len()
        invariant
            i <= tags@.len(),
            v == crate::sorted::views(tags@),
            v.len() == tags@.len(),
            forall|j: int| 0 <= j < i ==> v[j] != t@,
        decreases tags@.len() - i,
    {
        assert(v[i as int] == tags@[i as int]@);
        if str_eq(tags[i].as_str(), t) {
            assert(v.contains(t@)) by {
                assert(v[i as int] == t@);
            }
            return true;
        }
        i = i + 1;
    }
    false
}

/// `providers use --immediate`: the tags the tracked modes resolved to
/// before the switch that they no longer resolve to, to be deleted.
pub fn evicted_tags(before: &[String], after: &[String]) -> (r: Vec<String>)
    ensures
        crate::sorted::views(r@) == spec_evicted(crate::sorted::views(before@), crate::sorted::views(after@)),
{
    let ghost bv = crate::sorted::views(before@);
    let ghost av = crate::sorted::views(after@);
    let mut out: Vec<String> = Vec::new();
    let mut i: usize = 0;
    proof {
        assert(crate::sorted::views(out@) =~= spec_evicted(bv.take(0), av));
    }
    while i < before.len()
        invariant
            i <= before@.len(),
            bv == crate::sorted::views(before@),
            av == crate::sorted::views(after@),
            bv.len() == before@.len(),
            crate::sorted::views(out@) == spec_evicted(bv.take(i as int), av),
        decreases before@.len() - i,
    {
        proof {
            assert(bv.take(i + 1).drop_last() =~= bv.take(i as int));
            assert(bv.take(i + 1).last() == before@[i as int]@);
        }
        if !lists_tag(after, before[i].as_str()) {
            let ghost prev = out@;
            out.push(before[i].clone());
            proof {
                assert(crate::sorted::views(out@) =~= crate::sorted::views(prev).push(before@[i as int]@));
            }
        }
        i = i + 1;
    }
    proof {
        assert(bv.take(before@.len() as int) =~= bv);
    }
    out
}

/// The value of a URL-safe base64 character; zero for any other.
pub open spec fn b64_val(c: char) -> int {
    if 'A' <= c && c <= 'Z' {
        c as int - 'A' as int
    } else if 'a' <= c && c <= 'z' {
        c as int - 'a' as int + 26
    } else if '0' <= c && c <= '9' {
        c as int - '0' as int + 52
    } else if c == '-' {
        62
    } else if c == '_' {
        63
    } else {
        0
    }
}

/// The bytes four characters at a time stand for: a trailing two or
/// three characters give one or two bytes.
pub open spec fn spec_unbase64(c: Seq<char>) -> Seq<u8>
    decreases c.len(),
{
    if c.len() == 0 {
        Seq::empty()
    } else {
        let v0 = b64_val(c[0]);
        let v1 = if c.len() > 1 { b64_val(c[1]) } else { 0 };
        let v2 = if c.len() > 2 { b64_val(c[2]) } else { 0 };
        let v3 = if c.len() > 3 { b64_val(c[3]) } else { 0 };
        let first = seq![(v0 * 4 + v1 / 16) as u8];
        let second = if c.len() > 2 { seq![((v1 % 16) * 16 + v2 / 4) as u8] } else { Seq::empty() };
        let third = if c.len() > 3 { seq![((v2 % 4) * 64 + v3) as u8] } else { Seq::empty() };
        first + second + third + spec_unbase64(if c.len() > 4 { c.skip(4) } else { Seq::empty() })
    }
}

proof fn lemma_b64_val(v: int)
    requires
        0 <= v < 64,
    ensures
        b64_val(b64(v)) == v,
{
}

/// Decoding undoes encoding.
proof fn lemma_unbase64(b: Seq<u8>)
    ensures
        spec_unbase64(spec_base64(b)) == b,
    decreases b.len(),
{
    if b.len() > 0 {
        let b0 = b[0] as int;
        let b1 = if b.len() > 1 { b[1] as int } else { 0 };
        let b2 = if b.len() > 2 { b[2] as int } else { 0 };
        let tail = if b.len() > 3 { b.skip(3) } else { Seq::<u8>::empty() };
        let c = spec_base64(b);
        let v0 = b0 / 4;
        let v1 = (b0 % 4) * 16 + b1 / 16;
        let v2 = (b1 % 16) * 4 + b2 / 64;
        let v3 = b2 % 64;
        lemma_b64_val(v0);
        lemma_b64_val(v1);
        lemma_b64_val(v2);
        lemma_b64_val(v3);
        lemma_unbase64(tail);
        let ct = spec_base64(tail);
        if b.len() > 3 {
            assert(tail.len() > 0);
            assert(ct.len() >= 2) by {
                reveal_with_fuel(spec_base64, 2);
            }
            assert(c.skip(4) =~= ct);
        } else {
            assert(tail.len() == 0);
            assert(ct =~= Seq::<char>::empty());
        }
        assert(v0 * 4 + v1 / 16 == b0) by (nonlinear_arith)
            requires
                0 <= b0 < 256,
                0 <= b1 < 256,
                v0 == b0 / 4,
                v1 == (b0 % 4) * 16 + b1 / 16,
        ;
        assert((v1 % 16) * 16 + v2 / 4 == b1) by (nonlinear_arith)
            requires
                0 <= b0 < 256,
                0 <= b1 < 256,
                0 <= b2 < 256,
                v1 == (b0 % 4) * 16 + b1 / 16,
                v2 == (b1 % 16) * 4 + b2 / 64,
        ;
        assert((v2 % 4) * 64 + v3 == b2) by (nonlinear_arith)
            requires
                0 <= b1 < 256,
                0 <= b2 < 256,
                v2 == (b1 % 16) * 4 + b2 / 64,
                v3 == b2 % 64,
        ;
        let d = spec_unbase64(c);
        assert(d =~= b);
    }
}

/// An export link names one configuration: two byte strings with the
/// same base64 text are the same, so decoding a link gives back exactly
/// what was encoded.
pub proof fn law_base64_is_injective(a: Seq<u8>, b: Seq<u8>)
    requires
        spec_base64(a) == spec_base64(b),
    ensures
        a == b,
{
    lemma_unbase64(a);
    lemma_unbase64(b);
}

fn b64_val_exec(c: char) -> (r: u8)
    ensures
        r as int == b64_val(c),
        r < 64,
{
    if 'A' <= c && c <= 'Z' {
        (c as u32 - 65) as u8
    } else if 'a' <= c && c <= 'z' {
        (c as u32 - 97 + 26) as u8
    } else if '0' <= c && c <= '9' {
        (c as u32 - 48 + 52) as u8
    } else if c == '-' {
        62
    } else if c == '_' {
        63
    } else {
        0
    }
}

fn unbase64_chars(cs: &Vec<char>) -> (r: Vec<u8>)
    ensures
        r@ == spec_unbase64(cs@),
{
    let n = cs.len();
    let mut out: Vec<u8> = Vec::new();
    let mut i: usize = 0;
    proof {
        assert(cs@.skip(0) =~= cs@);
    }
    while i < n
        invariant
            i <= n == cs@.len(),
            out@ + spec_unbase64(cs@.skip(i as int)) == spec_unbase64(cs@),
        decreases n - i,
    {
        let rem = n - i;
        let ghost rest = cs@.skip(i as int);
        let v0 = b64_val_exec(cs[i]);
        let v1: u8 = if rem > 1 { b64_val_exec(cs[i + 1]) } else { 0 };
        let v2: u8 = if rem > 2 { b64_val_exec(cs[i + 2]) } else { 0 };
        let v3: u8 = if rem > 3 { b64_val_exec(cs[i + 3]) } else { 0 };
        let ghost prev = out@;
        out.push(v0 * 4 + v1 / 16);
        if rem > 2 {
            out.push((v1 % 16) * 16 + v2 / 4);
        }
        if rem > 3 {
            out.push((v2 % 4) * 64 + v3);
        }
        let next: usize = if rem <= 4 { n } else { i + 4 };
        proof {
            assert(rest[0] == cs@[i as int]);
            if rest.len() > 1 {
                assert(rest[1] == cs@[i + 1]);
            }
            if rest.len() > 2 {
                assert(rest[2] == cs@[i + 2]);
            }
            if rest.len() > 3 {
                assert(rest[3] == cs@[i + 3]);
            }
            let tail = if rest.len() > 4 { rest.skip(4) } else { Seq::<char>::empty() };
            assert(cs@.skip(next as int) =~= tail);
            assert(out@ + spec_unbase64(tail) =~= prev + spec_unbase64(rest));
        }
        i = next;
    }
    proof {
        assert(cs@.skip(i as int) =~= Seq::<char>::empty());
        assert(out@ =~= out@ + Seq::<u8>::empty());
    }
    out
}

fn same_chars(a: &Vec<char>, b: &Vec<char>) -> (r: bool)
    ensures
        r == (a@ == b@),
{
    if a.len() != b.len() {
        return false;
    }
    let mut i: usize = 0;
    while i < a.len()
        invariant
            i <= a@.len() == b@.len(),
            forall|j: int| 0 <= j < i ==> a@[j] == b@[j],
        decreases a@.len() - i,
    {
        if a[i] != b[i] {
            return false;
        }
        i = i + 1;
    }
    assert(a@ =~= b@);
    true
}

/// The bytes a URL-safe base64 text without padding encodes; none when
/// no bytes encode to exactly this text.
pub fn base64_decode(code: &str) -> (r: Option<Vec<u8>>)
    ensures
        match r {
            Some(b) => spec_base64(b@) == code@,
            None => forall|b: Seq<u8>| spec_base64(b) != code@,
        },
{
    let cs = crate::text::chars_of(code);
    let bytes = unbase64_chars(&cs);
    let again = encode_bytes(bytes.as_slice());
    if same_chars(&again, &cs) {
        Some(bytes)
    } else {
        proof {
            assert forall|b: Seq<u8>| spec_base64(b) != code@ by {
                if spec_base64(b) == code@ {
                    lemma_unbase64(b);
                }
            }
        }
        None
    }
}

/// The scheme of the links `export --url` prints.
pub open spec fn import_scheme() -> Seq<char> {
    "anyai:import:"@
}

/// The configuration bytes an `anyai:import:` link carries: none when the
/// text is not such a link or its code is not base64.
pub fn decode_import_link(text: &str) -> (r: Option<Vec<u8>>)
    ensures
        match r {
            Some(b) => text@.len() >= import_scheme().len() && text@.take(import_scheme().len() as int)
                == import_scheme() && spec_base64(b@) == text@.skip(import_scheme().len() as int),
            None => !(text@.len() >= import_scheme().len() && text@.take(import_scheme().len() as int)
                == import_scheme()) || forall|b: Seq<u8>| spec_base64(b) != text@.skip(
                import_scheme().len() as int,
            ),
        },
{
    let cs = crate::text::chars_of(text);
    let scheme = crate::text::chars_of("anyai:import:");
    let k = scheme.len();
    if cs.len() < k {
        return None;
    }
    let mut i: usize = 0;
    while i < k
        invariant
            i <= k == scheme@.len() <= cs@.len(),
            cs@ == text@,
            scheme@ == import_scheme(),
            forall|j: int| 0 <= j < i ==> cs@[j] == scheme@[j],
        decreases k - i,
    {
        if cs[i] != scheme[i] {
            proof {
                assert(text@.take(k as int)[i as int] != import_scheme()[i as int]);
            }
            return None;
        }
        i = i + 1;
    }
    assert(text@.take(k as int) =~= import_scheme());
    let mut rest: Vec<char> = Vec::new();
    crate::text::append_from(&mut rest, &cs, k);
    let code = crate::text::string_of(rest.as_slice());
    proof {
        assert(code@ =~= text@.skip(k as int));
    }
    base64_decode(code.as_str())
}

} // verus!
