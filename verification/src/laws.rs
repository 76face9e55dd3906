//! What the configuration commands promise across calls: pinning is
//! idempotent and survives pruning, unpinning removes the pin, and an
//! import only ever adds entries.

use vstd::prelude::*;
use crate::cli::{
    has_named, has_str, list_at, merge_named, provider_item, prune_list, set_url_named, source_item,
    spec_add_named, spec_add_to, spec_drop_str_in, spec_import, spec_import_list, spec_keep,
    spec_prune, spec_remove_refs, str_values, touched, unrecommended, without_str, null_matching,
};
use crate::config::{
    at_str, default_api, default_auto_update, default_remote_ui, fill_missing, fill_nested,
    index_named, lemma_index_named, spec_merge_defaults,
};
use crate::json::{
    entries_get, entries_has, entries_remove, entry_index, lemma_entry_index, lemma_entry_index_at,
    lemma_entry_index_same_keys, lemma_with_key_get, lemma_with_key_same, lemma_with_key_twice, JsonV,
};

verus! {

/// No item of `without_str(a, name)` is the string `name`.
proof fn lemma_without_str(a: Seq<JsonV>, name: Seq<char>)
    ensures
        !has_str(without_str(a, name), name),
    decreases a.len(),
{
    if a.len() > 0 {
        lemma_without_str(a.drop_last(), name);
        let p = without_str(a.drop_last(), name);
        let w = without_str(a, name);
        assert forall|j: int| 0 <= j < w.len() implies (#[trigger] w[j]).as_str() != Some(name) by {
            if j < p.len() {
                assert(w[j] == p[j]);
            }
        }
    }
}

/// Pinning a model twice leaves the configuration as pinning it once, and
/// afterwards `kept_models` is an array holding the name.
pub proof fn law_keep_is_idempotent(c: JsonV, name: Seq<char>)
    requires
        c.is_keyable(),
    ensures
        spec_keep(spec_keep(c, name), name) == spec_keep(c, name),
        spec_keep(c, name).at("kept_models"@).as_arr() matches Some(a) && has_str(a, name),
{
    let k = "kept_models"@;
    match c.at(k).as_arr() {
        Some(a) => {
            if !has_str(a, name) {
                let na = a.push(JsonV::Str(name));
                lemma_with_key_get(c, k, JsonV::Arr(na), k);
                assert(na[a.len() as int].as_str() == Some(name));
            }
        },
        None => {
            let na = seq![JsonV::Str(name)];
            lemma_with_key_get(c, k, JsonV::Arr(na), k);
            assert(na[0].as_str() == Some(name));
        },
    }
}

/// After `models unkeep`, no pin of that name is left.
pub proof fn law_unkeep_unpins(c: JsonV, name: Seq<char>)
    requires
        c.is_keyable(),
    ensures
        spec_drop_str_in(c, "kept_models"@, name).at("kept_models"@).as_arr() matches Some(a)
            ==> !has_str(a, name),
{
    let k = "kept_models"@;
    let t = touched(c, k);
    if c.get(k) is None {
        lemma_with_key_get(c, k, JsonV::Null, k);
    }
    assert(t.is_keyable());
    if let Some(a) = t.at(k).as_arr() {
        lemma_with_key_get(t, k, JsonV::Arr(without_str(a, name)), k);
        lemma_without_str(a, name);
    }
}

proof fn lemma_prune_list(status: Seq<(Seq<char>, JsonV)>, kept: Seq<Seq<char>>, overrides: Seq<Seq<char>>)
    ensures
        forall|j: int|
            0 <= j < prune_list(status, kept, overrides).len() ==> {
                let s = #[trigger] prune_list(status, kept, overrides)[j];
                &&& !kept.contains(s)
                &&& !overrides.contains(s)
                &&& exists|i: int| 0 <= i < status.len() && status[i].0 == s && unrecommended(status[i].1)
            },
    decreases status.len(),
{
    if status.len() > 0 {
        let d = status.drop_last();
        lemma_prune_list(d, kept, overrides);
        let p = prune_list(d, kept, overrides);
        let w = prune_list(status, kept, overrides);
        assert forall|j: int| 0 <= j < w.len() implies {
            let s = #[trigger] w[j];
            &&& !kept.contains(s)
            &&& !overrides.contains(s)
            &&& exists|i: int| 0 <= i < status.len() && status[i].0 == s && unrecommended(status[i].1)
        } by {
            if j < p.len() {
                assert(w[j] == p[j]);
                let s = p[j];
                let i = choose|i: int| 0 <= i < d.len() && d[i].0 == s && unrecommended(d[i].1);
                assert(status[i] == d[i]);
            } else {
                let i = status.len() - 1;
                assert(status[i] == status.last());
            }
        }
    }
}

/// `models prune` never lists a pinned model or one an override names,
/// and lists only models the status cache marks unrecommended.
pub proof fn law_prune_spares_kept_and_overridden(config: JsonV, status: JsonV)
    ensures
        forall|j: int|
            0 <= j < spec_prune(config, Some(status)).len() ==> {
                let s = #[trigger] spec_prune(config, Some(status))[j];
                &&& !crate::config::spec_tracked_list(config, "kept_models"@).contains(s)
                &&& (config.at("mode_overrides"@).as_obj() matches Some(es) ==> !str_values(es).contains(s))
                &&& (status.as_obj() matches Some(es) && exists|i: int|
                    0 <= i < es.len() && es[i].0 == s && unrecommended(es[i].1))
            },
{
    let kept = crate::config::spec_tracked_list(config, "kept_models"@);
    let overrides = match config.at("mode_overrides"@).as_obj() {
        Some(es) => str_values(es),
        None => Seq::empty(),
    };
    if let Some(es) = status.as_obj() {
        lemma_prune_list(es, kept, overrides);
    }
}

/// Merging keeps every existing entry in place, in front.
proof fn lemma_merge_named_prefix(existing: Seq<JsonV>, new: Seq<JsonV>)
    ensures
        existing.is_prefix_of(merge_named(existing, new)),
    decreases new.len(),
{
    if new.len() > 0 {
        lemma_merge_named_prefix(existing, new.drop_last());
        let m = merge_named(existing, new.drop_last());
        let r = merge_named(existing, new);
        assert forall|j: int| 0 <= j < existing.len() implies existing[j] == r[j] by {
            assert(m[j] == existing[j]);
            assert(r[j] == m[j]);
        }
    }
}

proof fn lemma_import_list(c: JsonV, imported: JsonV, key: Seq<char>, other: Seq<char>)
    requires
        c.is_keyable(),
        other != key,
    ensures
        spec_import_list(c, imported, key) matches Ok(c1) ==> {
            &&& c1.is_keyable()
            &&& c1.get(other) == c.get(other)
            &&& (c.at(key).as_arr() is Some ==> list_at(c, key).is_prefix_of(list_at(c1, key)))
            &&& (c.at(key).as_arr() is None ==> c1.get(key) == c.get(key))
        },
{
    if let Some(new) = imported.at(key).as_arr() {
        let t = touched(c, key);
        if c.get(key) is None {
            lemma_with_key_get(c, key, JsonV::Null, key);
            lemma_with_key_get(c, key, JsonV::Null, other);
        }
        if let Some(a) = t.at(key).as_arr() {
            let m = merge_named(a, new);
            lemma_with_key_get(t, key, JsonV::Arr(m), key);
            lemma_with_key_get(t, key, JsonV::Arr(m), other);
            lemma_merge_named_prefix(a, new);
        }
    }
}

/// An import only adds: where the configuration had a sources or
/// providers list, the list afterwards begins with it unchanged, so no
/// existing entry is overwritten or dropped; a list it lacked is left as
/// it was.
pub proof fn law_import_is_additive(c: JsonV, imported: JsonV)
    requires
        c.is_keyable(),
    ensures
        spec_import(c, imported) matches Ok(c2) ==> {
            &&& (c.at("sources"@).as_arr() is Some ==> list_at(c, "sources"@).is_prefix_of(
                list_at(c2, "sources"@),
            ))
            &&& (c.at("sources"@).as_arr() is None ==> c2.get("sources"@) == c.get("sources"@))
            &&& (c.at("providers"@).as_arr() is Some ==> list_at(c, "providers"@).is_prefix_of(
                list_at(c2, "providers"@),
            ))
            &&& (c.at("providers"@).as_arr() is None ==> c2.get("providers"@) == c.get(
                "providers"@,
            ))
        },
{
    let s = "sources"@;
    let p = "providers"@;
    assert(s != p) by {
        reveal_strlit("sources");
        reveal_strlit("providers");
        assert(s[0] != p[0]);
    }
    lemma_import_list(c, imported, s, p);
    if let Ok(c1) = spec_import_list(c, imported, s) {
        lemma_import_list(c1, imported, p, s);
    }
}


/// An item named `name` makes the list hold that name.
proof fn lemma_has_named_at(a: Seq<JsonV>, name: Seq<char>, i: int)
    requires
        0 <= i < a.len(),
        at_str(a[i], "name"@) == Some(name),
    ensures
        has_named(a, name),
{
    lemma_index_named(a, name);
}

/// Setting `url` on an item keeps its name.
proof fn lemma_url_keeps_name(p: JsonV, url: Seq<char>)
    requires
        p is Obj,
    ensures
        at_str(p.with_key("url"@, JsonV::Str(url)), "name"@) == at_str(p, "name"@),
        at_str(p.with_key("url"@, JsonV::Str(url)), "url"@) == Some(url),
{
    assert("name"@ != "url"@) by {
        reveal_strlit("name");
        reveal_strlit("url");
        assert("name"@[0] != "url"@[0]);
    }
    lemma_with_key_get(p, "url"@, JsonV::Str(url), "name"@);
}

/// An `add` that stores `item` under `name`: afterwards the list holds
/// `name`, each item of that name has the URL, and a second `add`
/// changes nothing.
proof fn lemma_add_named(a: Seq<JsonV>, name: Seq<char>, url: Seq<char>, item: JsonV)
    requires
        item is Obj,
        at_str(item, "name"@) == Some(name),
        item.get("url"@) == Some(JsonV::Str(url)),
    ensures
        has_named(spec_add_named(a, name, url, item), name),
        spec_add_named(spec_add_named(a, name, url, item), name, url, item) == spec_add_named(
            a,
            name,
            url,
            item,
        ),
        forall|j: int|
            0 <= j < spec_add_named(a, name, url, item).len() && at_str(
                #[trigger] spec_add_named(a, name, url, item)[j],
                "name"@,
            ) == Some(name) ==> at_str(spec_add_named(a, name, url, item)[j], "url"@) == Some(url),
{
    let a1 = spec_add_named(a, name, url, item);
    lemma_index_named(a, name);
    if has_named(a, name) {
        let i = index_named(a, name);
        assert(a[i] is Obj);
        lemma_url_keeps_name(a[i], url);
        assert(a1[i] == a[i].with_key("url"@, JsonV::Str(url)));
        lemma_has_named_at(a1, name, i);
        assert forall|j: int| 0 <= j < a1.len() implies #[trigger] set_url_named(a1, name, url)[j]
            == a1[j] by {
            if at_str(a[j], "name"@) == Some(name) {
                assert(a[j] is Obj);
                lemma_url_keeps_name(a[j], url);
                lemma_with_key_twice(a[j], "url"@, JsonV::Str(url), JsonV::Str(url));
            }
        }
        assert(set_url_named(a1, name, url) =~= a1);
        assert forall|j: int|
            0 <= j < a1.len() && at_str(#[trigger] a1[j], "name"@) == Some(name) implies at_str(
                a1[j],
                "url"@,
            ) == Some(url) by {
            if at_str(a[j], "name"@) == Some(name) {
                assert(a[j] is Obj);
                lemma_url_keeps_name(a[j], url);
            }
        }
    } else {
        lemma_has_named_at(a1, name, a.len() as int);
        lemma_with_key_same(item, "url"@, JsonV::Str(url));
        assert forall|j: int| 0 <= j < a1.len() implies #[trigger] set_url_named(a1, name, url)[j]
            == a1[j] by {
            if j < a.len() {
                assert(a1[j] == a[j]);
            }
        }
        assert(set_url_named(a1, name, url) =~= a1);
        assert(item.at("url"@) == JsonV::Str(url));
    }
}

/// `add` on the list under `key`, twice, is `add` once; afterwards the
/// list holds `name` and every entry of that name has the URL.
proof fn lemma_add_to(c: JsonV, key: Seq<char>, name: Seq<char>, url: Seq<char>, item: JsonV)
    requires
        c.is_keyable(),
        item is Obj,
        at_str(item, "name"@) == Some(name),
        item.get("url"@) == Some(JsonV::Str(url)),
    ensures
        spec_add_to(c, key, name, url, item) matches Ok(c1) ==> {
            &&& spec_add_to(c1, key, name, url, item) == Ok::<JsonV, JsonV>(c1)
            &&& has_named(list_at(c1, key), name)
            &&& forall|j: int|
                0 <= j < list_at(c1, key).len() && at_str(#[trigger] list_at(c1, key)[j], "name"@)
                    == Some(name) ==> at_str(list_at(c1, key)[j], "url"@) == Some(url)
        },
{
    let t = touched(c, key);
    if c.get(key) is None {
        lemma_with_key_get(c, key, JsonV::Null, key);
    }
    if let Some(a) = t.at(key).as_arr() {
        let a1 = spec_add_named(a, name, url, item);
        let c1 = t.with_key(key, JsonV::Arr(a1));
        lemma_with_key_get(t, key, JsonV::Arr(a1), key);
        lemma_add_named(a, name, url, item);
        lemma_with_key_same(c1, key, JsonV::Arr(a1));
    }
}

/// `providers add` is idempotent: adding the same provider again leaves
/// the configuration as it was, and an existing name gets the new URL
/// rather than a second entry.
pub proof fn law_add_provider_is_idempotent(c: JsonV, name: Seq<char>, url: Seq<char>, source: JsonV)
    requires
        c.is_keyable(),
    ensures
        spec_add_to(c, "providers"@, name, url, provider_item(name, url, source)) matches Ok(c1) ==> {
            &&& spec_add_to(c1, "providers"@, name, url, provider_item(name, url, source)) == Ok::<
                JsonV,
                JsonV,
            >(c1)
            &&& has_named(list_at(c1, "providers"@), name)
            &&& forall|j: int|
                0 <= j < list_at(c1, "providers"@).len() && at_str(
                    #[trigger] list_at(c1, "providers"@)[j],
                    "name"@,
                ) == Some(name) ==> at_str(list_at(c1, "providers"@)[j], "url"@) == Some(url)
        },
{
    let item = provider_item(name, url, source);
    let es = seq![("name"@, JsonV::Str(name)), ("url"@, JsonV::Str(url)), ("source"@, source)];
    assert("name"@ != "url"@) by {
        reveal_strlit("name");
        reveal_strlit("url");
        assert("name"@[0] != "url"@[0]);
    }
    crate::json::lemma_entry_index_at(es, "name"@, 0);
    crate::json::lemma_entry_index_at(es, "url"@, 1);
    lemma_add_to(c, "providers"@, name, url, item);
}

/// `sources add` is idempotent in the same way.
pub proof fn law_add_source_is_idempotent(c: JsonV, name: Seq<char>, url: Seq<char>)
    requires
        c.is_keyable(),
    ensures
        spec_add_to(c, "sources"@, name, url, source_item(name, url)) matches Ok(c1) ==> {
            &&& spec_add_to(c1, "sources"@, name, url, source_item(name, url)) == Ok::<JsonV, JsonV>(
                c1,
            )
            &&& has_named(list_at(c1, "sources"@), name)
            &&& forall|j: int|
                0 <= j < list_at(c1, "sources"@).len() && at_str(
                    #[trigger] list_at(c1, "sources"@)[j],
                    "name"@,
                ) == Some(name) ==> at_str(list_at(c1, "sources"@)[j], "url"@) == Some(url)
        },
{
    let item = source_item(name, url);
    let es = seq![("name"@, JsonV::Str(name)), ("url"@, JsonV::Str(url))];
    assert("name"@ != "url"@) by {
        reveal_strlit("name");
        reveal_strlit("url");
        assert("name"@[0] != "url"@[0]);
    }
    crate::json::lemma_entry_index_at(es, "name"@, 0);
    crate::json::lemma_entry_index_at(es, "url"@, 1);
    lemma_add_to(c, "sources"@, name, url, item);
}

/// `providers use` is safe to re-run: after switching to a listed
/// provider, the provider is still listed and switching again (with the
/// same manifest) changes nothing; the active family is the manifest's
/// default family when it names one.
pub proof fn law_use_provider_is_idempotent(c: JsonV, name: Seq<char>, m: Option<JsonV>)
    requires
        c.is_keyable(),
        has_named(list_at(c, "providers"@), name),
    ensures
        has_named(list_at(crate::cli::spec_use_provider(c, name, m), "providers"@), name),
        crate::cli::spec_use_provider(crate::cli::spec_use_provider(c, name, m), name, m)
            == crate::cli::spec_use_provider(c, name, m),
        crate::cli::spec_use_provider(c, name, m).get("active_provider"@) == Some(JsonV::Str(name)),
        crate::cli::default_family_of(m) matches Some(f) ==> crate::cli::spec_use_provider(c, name, m).get(
            "active_family"@,
        ) == Some(JsonV::Str(f)),
{
    assert("active_provider"@ != "providers"@) by {
        reveal_strlit("active_provider");
        reveal_strlit("providers");
        assert("active_provider"@[0] != "providers"@[0]);
    }
    assert("active_family"@ != "providers"@ && "active_family"@ != "active_provider"@) by {
        reveal_strlit("active_family");
        reveal_strlit("active_provider");
        reveal_strlit("providers");
        assert("active_family"@[1] != "providers"@[1]);
        assert("active_family"@[7] != "active_provider"@[7]);
    }
    let c1 = c.with_key("active_provider"@, JsonV::Str(name));
    lemma_with_key_get(c, "active_provider"@, JsonV::Str(name), "providers"@);
    let c2 = crate::cli::spec_use_provider(c, name, m);
    match crate::cli::default_family_of(m) {
        Some(f) => {
            lemma_with_key_get(c1, "active_family"@, JsonV::Str(f), "providers"@);
            lemma_with_key_get(c1, "active_family"@, JsonV::Str(f), "active_provider"@);
            lemma_with_key_same(c2, "active_provider"@, JsonV::Str(name));
            lemma_with_key_same(c2, "active_family"@, JsonV::Str(f));
        },
        None => {
            lemma_with_key_same(c2, "active_provider"@, JsonV::Str(name));
        },
    }
}

/// No two entries of an object share a key, as in a parsed document.
pub open spec fn keys_unique(es: Seq<(Seq<char>, JsonV)>) -> bool {
    forall|i: int, j: int| 0 <= i < j < es.len() ==> #[trigger] es[i].0 != #[trigger] es[j].0
}

/// Entries a list begins with are found where they were.
proof fn lemma_get_in_prefix(a: Seq<(Seq<char>, JsonV)>, b: Seq<(Seq<char>, JsonV)>, k: Seq<char>)
    requires
        a.is_prefix_of(b),
        entries_has(a, k),
    ensures
        entries_get(b, k) == entries_get(a, k),
{
    lemma_entry_index(a, k);
    let i = entry_index(a, k);
    assert forall|j: int| 0 <= j < i implies #[trigger] b[j].0 != k by {
        assert(b[j] == a[j]);
    }
    assert(b[i] == a[i]);
    lemma_entry_index_at(b, k, i);
}

proof fn lemma_fill_missing_prefix(es: Seq<(Seq<char>, JsonV)>, d: Seq<(Seq<char>, JsonV)>)
    ensures
        es.is_prefix_of(fill_missing(es, d)),
    decreases d.len(),
{
    if d.len() > 0 {
        lemma_fill_missing_prefix(es, d.drop_last());
        let e = fill_missing(es, d.drop_last());
        let r = fill_missing(es, d);
        assert forall|j: int| 0 <= j < es.len() implies es[j] == r[j] by {
            assert(e[j] == es[j]);
            assert(r[j] == e[j]);
        }
    }
}

/// In an object with unique keys, removing one key leaves the others
/// where a lookup finds them.
proof fn lemma_remove_keeps_others(es: Seq<(Seq<char>, JsonV)>, rk: Seq<char>, k: Seq<char>)
    requires
        keys_unique(es),
        k != rk,
    ensures
        entries_get(entries_remove(es, rk), k) == entries_get(es, k),
{
    lemma_entry_index(es, rk);
    lemma_entry_index(es, k);
    let i = entry_index(es, rk);
    if i >= 0 {
        let n = es.update(i, es.last()).drop_last();
        let x = entry_index(es, k);
        if x >= 0 {
            let y = if x == es.len() - 1 { i } else { x };
            assert(n[y] == es[x]);
            assert forall|j: int| 0 <= j < n.len() && j != y implies #[trigger] n[j].0 != k by {
                if j == i {
                    assert(n[j] == es[es.len() - 1]);
                } else {
                    assert(n[j] == es[j]);
                }
            }
            lemma_entry_index_at(n, k, y);
        } else {
            assert forall|j: int| 0 <= j < n.len() implies #[trigger] n[j].0 != k by {
                if j == i {
                    assert(n[j] == es[es.len() - 1]);
                } else {
                    assert(n[j] == es[j]);
                }
            }
            lemma_entry_index(n, k);
        }
    }
}

/// Completing a nested block leaves every other key alone, and turns the
/// block's object `n` into `n` completed from the defaults.
proof fn lemma_fill_nested(es: Seq<(Seq<char>, JsonV)>, key: Seq<char>, dn: Seq<(Seq<char>, JsonV)>, k: Seq<char>)
    ensures
        k != key ==> entries_get(fill_nested(es, key, dn), k) == entries_get(es, k),
        entries_get(es, key) matches Some(JsonV::Obj(n)) ==> entries_get(fill_nested(es, key, dn), key)
            == Some(JsonV::Obj(fill_missing(n, dn))),
{
    lemma_entry_index(es, key);
    let i = entry_index(es, key);
    if i >= 0 {
        if let JsonV::Obj(n) = es[i].1 {
            let m = es.update(i, (es[i].0, JsonV::Obj(fill_missing(n, dn))));
            assert forall|j: int| 0 <= j < es.len() implies (#[trigger] es[j]).0 == m[j].0 by {}
            lemma_entry_index_same_keys(es, m, k);
            lemma_entry_index_same_keys(es, m, key);
            lemma_entry_index(es, k);
        }
    }
}

/// The three nested blocks differ from each other and from the keys the
/// upgrade sets.
proof fn lemma_block_names_differ()
    ensures
        "api"@ != "auto_update"@,
        "api"@ != "remote_ui"@,
        "api"@ != "sources"@ && "auto_update"@ != "sources"@ && "remote_ui"@ != "sources"@,
        "auto_update"@ != "remote_ui"@,
        "api"@ != "tracked_modes"@ && "api"@ != "active_family"@ && "api"@ != "conversation_dir"@,
        "auto_update"@ != "tracked_modes"@ && "auto_update"@ != "active_family"@ && "auto_update"@
            != "conversation_dir"@,
        "remote_ui"@ != "tracked_modes"@ && "remote_ui"@ != "active_family"@ && "remote_ui"@
            != "conversation_dir"@,
{
    reveal_strlit("api");
    reveal_strlit("auto_update");
    reveal_strlit("remote_ui");
    reveal_strlit("tracked_modes");
    reveal_strlit("active_family");
    reveal_strlit("conversation_dir");
    reveal_strlit("sources");
    assert("sources"@.len() == 7);
    assert("api"@.len() == 3);
    assert("auto_update"@.len() == 11);
    assert("remote_ui"@.len() == 9);
    assert("tracked_modes"@.len() == 13);
    assert("active_family"@.len() == 13);
    assert("conversation_dir"@.len() == 16);
}

/// The keys the upgrade may change.
pub open spec fn upgraded_key(k: Seq<char>) -> bool {
    ||| k == "sources"@
    ||| k == "api"@
    ||| k == "auto_update"@
    ||| k == "remote_ui"@
    ||| k == "tracked_modes"@
    ||| k == "active_family"@
    ||| k == "conversation_dir"@
}

proof fn lemma_merged_entries(es: Seq<(Seq<char>, JsonV)>, cd: Seq<char>, k: Seq<char>)
    requires
        keys_unique(es),
        k != "sources"@,
    ensures
        k != "api"@ && k != "auto_update"@ && k != "remote_ui"@ && entries_has(es, k) ==> entries_get(
            crate::config::merged_entries(es, cd),
            k,
        ) == entries_get(es, k),
        (k == "api"@ || k == "auto_update"@ || k == "remote_ui"@) ==> (entries_get(es, k) matches Some(
            JsonV::Obj(n),
        ) ==> (entries_get(crate::config::merged_entries(es, cd), k) matches Some(JsonV::Obj(n2))
            && n.is_prefix_of(n2))),
{
    lemma_block_names_differ();
    let e0 = entries_remove(es, "sources"@);
    let e1 = fill_missing(e0, crate::config::default_entries(cd));
    let e2 = fill_nested(e1, "api"@, default_api());
    let e3 = fill_nested(e2, "auto_update"@, default_auto_update());
    let e4 = fill_nested(e3, "remote_ui"@, default_remote_ui());
    lemma_remove_keeps_others(es, "sources"@, k);
    lemma_fill_missing_prefix(e0, crate::config::default_entries(cd));
    lemma_entry_index(es, k);
    lemma_entry_index(e0, k);
    if entries_has(es, k) {
        lemma_get_in_prefix(e0, e1, k);
    }
    lemma_fill_nested(e1, "api"@, default_api(), k);
    lemma_fill_nested(e2, "auto_update"@, default_auto_update(), k);
    lemma_fill_nested(e3, "remote_ui"@, default_remote_ui(), k);
    if let Some(JsonV::Obj(n)) = entries_get(es, k) {
        if k == "api"@ {
            lemma_fill_missing_prefix(n, default_api());
        } else if k == "auto_update"@ {
            lemma_fill_missing_prefix(n, default_auto_update());
        } else if k == "remote_ui"@ {
            lemma_fill_missing_prefix(n, default_remote_ui());
        }
    }
}

/// Loading never overwrites what a configuration already holds: every
/// key the upgrade does not manage keeps its value, and the `api`,
/// `auto_update` and `remote_ui` blocks keep their entries, in front, with
/// only missing defaults appended.
pub proof fn law_merge_defaults_never_overwrites(c: JsonV, conv_dir: Option<Seq<char>>, k: Seq<char>)
    requires
        c.as_obj() matches Some(es) && keys_unique(es),
        c.get(k) is Some,
    ensures
        !upgraded_key(k) ==> spec_merge_defaults(c, conv_dir).get(k) == c.get(k),
        (k == "api"@ || k == "auto_update"@ || k == "remote_ui"@) ==> (c.get(k) matches Some(
            JsonV::Obj(n),
        ) ==> (spec_merge_defaults(c, conv_dir).get(k) matches Some(JsonV::Obj(n2))
            && n.is_prefix_of(n2))),
{
    let es = c->Obj_0;
    let cd = match conv_dir {
        Some(d) => d,
        None => Seq::empty(),
    };
    reveal_strlit("sources");
    reveal_strlit("api");
    reveal_strlit("auto_update");
    reveal_strlit("remote_ui");
    reveal_strlit("tracked_modes");
    reveal_strlit("active_family");
    reveal_strlit("conversation_dir");
    lemma_block_names_differ();
    if k != "sources"@ {
        lemma_entry_index(es, k);
        lemma_merged_entries(es, cd, k);
        let c1 = JsonV::Obj(crate::config::merged_entries(es, cd));
        let tm = "tracked_modes"@;
        let af = "active_family"@;
        let cdk = "conversation_dir"@;
        lemma_block_names_differ();
        let seed = match c1.at(tm).as_arr() {
            Some(a) => a.len() == 0,
            None => true,
        };
        let v_tm = JsonV::Arr(
            seq![
                JsonV::Str(
                    match at_str(c1, "active_mode"@) {
                        Some(m) => m,
                        None => "text"@,
                    },
                ),
            ],
        );
        lemma_with_key_get(c1, tm, v_tm, k);
        let c2 = if seed { c1.with_key(tm, v_tm) } else { c1 };
        lemma_with_key_get(c2, af, JsonV::Str("gemma4"@), k);
        let c3 = if crate::config::str_or_empty(c2, af).len() == 0 {
            c2.with_key(af, JsonV::Str("gemma4"@))
        } else {
            c2
        };
        if let Some(d) = conv_dir {
            lemma_with_key_get(c3, cdk, JsonV::Str(d), k);
        }
    }
}


proof fn lemma_null_matching(es: Seq<(Seq<char>, JsonV)>, name: Seq<char>)
    ensures
        !str_values(null_matching(es, name)).contains(name),
    decreases es.len(),
{
    if es.len() > 0 {
        let d = es.drop_last();
        assert(null_matching(es, name).drop_last() =~= null_matching(d, name));
        lemma_null_matching(d, name);
    }
}

/// After `models rm`, the model is neither pinned nor named by any
/// override.
pub proof fn law_remove_clears_pin_and_overrides(c: JsonV, name: Seq<char>)
    requires
        c.is_keyable(),
    ensures
        spec_remove_refs(c, name).at("kept_models"@).as_arr() matches Some(a) ==> !has_str(a, name),
        spec_remove_refs(c, name).at("mode_overrides"@).as_obj() matches Some(es) ==> !str_values(
            es,
        ).contains(name),
{
    let k = "kept_models"@;
    let mo = "mode_overrides"@;
    assert(k != mo) by {
        reveal_strlit("kept_models");
        reveal_strlit("mode_overrides");
        assert(k[0] != mo[0]);
    }
    law_unkeep_unpins(c, name);
    let c1 = spec_drop_str_in(c, k, name);
    let t = touched(c, k);
    if c.get(k) is None {
        lemma_with_key_get(c, k, JsonV::Null, k);
    }
    if let Some(a) = t.at(k).as_arr() {
        lemma_with_key_get(t, k, JsonV::Arr(without_str(a, name)), k);
    }
    assert(c1.is_keyable());
    let c2 = touched(c1, mo);
    if c1.get(mo) is None {
        lemma_with_key_get(c1, mo, JsonV::Null, k);
        lemma_with_key_get(c1, mo, JsonV::Null, mo);
    }
    if let Some(es) = c2.at(mo).as_obj() {
        lemma_with_key_get(c2, mo, JsonV::Obj(null_matching(es, name)), k);
        lemma_with_key_get(c2, mo, JsonV::Obj(null_matching(es, name)), mo);
        lemma_null_matching(es, name);
    }
}


/// A family's own declaration of a mode wins over the manifest's
/// `shared_modes`: whatever `shared_modes` holds, the resolution is the
/// same.
pub proof fn law_family_mode_wins_over_shared(
    m: JsonV,
    hw: crate::hardware::HardwareProfile,
    mode: Seq<char>,
    family: Seq<char>,
    shared: JsonV,
)
    requires
        m is Obj,
        crate::resolver::spec_pick_family(m, family) matches Some(p) && crate::resolver::family_mode(
            p.1,
            mode,
        ) is Some,
    ensures
        crate::resolver::spec_resolve(m.with_key("shared_modes"@, shared), hw, mode, family)
            == crate::resolver::spec_resolve(m, hw, mode, family),
{
    let sm = "shared_modes"@;
    reveal_strlit("shared_modes");
    reveal_strlit("families");
    reveal_strlit("default_family");
    reveal_strlit("headroom_gb");
    assert(sm.len() == 12);
    assert("families"@.len() == 8);
    assert("default_family"@.len() == 14);
    assert("headroom_gb"@.len() == 11);
    lemma_with_key_get(m, sm, shared, "families"@);
    lemma_with_key_get(m, sm, shared, "default_family"@);
    lemma_with_key_get(m, sm, shared, "headroom_gb"@);
    let m2 = m.with_key(sm, shared);
    assert(crate::resolver::spec_pick_family(m2, family) == crate::resolver::spec_pick_family(m, family));
    assert(forall|g: crate::hardware::GpuType|
        crate::resolver::spec_headroom(m2, g) == #[trigger] crate::resolver::spec_headroom(m, g));
}


/// Once a transcription is admitted under an id, every further start
/// under that id (live, drain or upload) is refused as already running,
/// whatever models or file it names, until the session is removed.
pub proof fn law_running_session_refuses_restart(
    live: Map<Seq<char>, (bool, bool)>,
    id: Seq<char>,
    runtime: Seq<char>,
    model: Seq<char>,
    asr_installed: bool,
    diarize: Option<(Seq<char>, bool)>,
    path: Seq<char>,
    file_exists: bool,
)
    ensures
        ({
            let after = live.insert(id, (false, false));
            &&& crate::transcribe::spec_refuse_live(after, id, runtime, model, asr_installed, diarize)
                == Some(crate::transcribe::running_msg(id))
            &&& crate::transcribe::spec_refuse_drain(after, id, model, asr_installed) == Some(
                crate::transcribe::running_msg(id),
            )
            &&& crate::transcribe::spec_refuse_upload(after, id, model, asr_installed, path, file_exists)
                == Some(crate::transcribe::running_msg(id))
        }),
{
    let after = live.insert(id, (false, false));
    assert(after.dom().contains(id));
}

/// A sanitised stream id is safe as a directory name (only ASCII letters,
/// digits, `-` and `_`), as long as the id, and sanitising it again
/// changes nothing.
pub proof fn law_sanitize_stream_id(s: Seq<char>)
    ensures
        crate::transcribe::spec_sanitize(s).len() == s.len(),
        forall|i: int|
            0 <= i < s.len() ==> crate::transcribe::stream_char_ok(
                #[trigger] crate::transcribe::spec_sanitize(s)[i],
            ),
        crate::transcribe::spec_sanitize(crate::transcribe::spec_sanitize(s))
            == crate::transcribe::spec_sanitize(s),
{
    let t = crate::transcribe::spec_sanitize(s);
    assert(crate::transcribe::spec_sanitize(t) =~= t);
}


/// A slice the segmenter keeps: at least 100 ms long, for one of the three
/// local speakers, inside `[t0, t1]`.
pub open spec fn slice_ok(v: crate::segmenter::VoicedSlice, t0: int, t1: int) -> bool {
    &&& t0 <= v.start_ms
    &&& v.start_ms + 100 <= v.end_ms
    &&& v.end_ms <= t1
    &&& v.local_speaker < 3
}

proof fn lemma_run_slices(mask: u8, rs: int, i: int, t0: int, t1: int)
    requires
        0 <= t0,
        0 <= rs < i,
        t0 + i * 17 <= t1 <= u64::MAX,
    ensures
        forall|j: int|
            0 <= j < crate::segmenter::run_slices(mask, rs, i, t0).len() ==> slice_ok(
                #[trigger] crate::segmenter::run_slices(mask, rs, i, t0)[j],
                t0,
                t1,
            ),
{
    assert(t0 + rs * 17 <= t0 + i * 17) by (nonlinear_arith)
        requires
            rs < i,
    ;
    assert(0 <= rs * 17) by (nonlinear_arith)
        requires
            0 <= rs,
    ;
}

proof fn lemma_rle_scan(b: Seq<u8>, t0: int, k: int)
    requires
        b.len() > 0,
        1 <= k <= b.len() + 1,
        0 <= t0,
        t0 + b.len() * 17 <= u64::MAX,
    ensures
        0 <= crate::segmenter::rle_scan(b, t0, k).1 < k,
        crate::segmenter::rle_scan(b, t0, k).1 <= b.len(),
        forall|j: int|
            0 <= j < crate::segmenter::rle_scan(b, t0, k).0.len() ==> slice_ok(
                #[trigger] crate::segmenter::rle_scan(b, t0, k).0[j],
                t0,
                t0 + b.len() * 17,
            ),
    decreases k,
{
    if k > 1 {
        lemma_rle_scan(b, t0, k - 1);
        let prev = crate::segmenter::rle_scan(b, t0, k - 1);
        let i = k - 1;
        assert(t0 + i * 17 <= t0 + b.len() * 17) by (nonlinear_arith)
            requires
                i <= b.len(),
        ;
        lemma_run_slices(prev.2, prev.1, i, t0, t0 + b.len() * 17);
        let ext = prev.0 + crate::segmenter::run_slices(prev.2, prev.1, i, t0);
        assert forall|j: int| 0 <= j < ext.len() implies slice_ok(#[trigger] ext[j], t0, t0 + b.len() * 17) by {
            if j >= prev.0.len() {
                assert(ext[j] == crate::segmenter::run_slices(prev.2, prev.1, i, t0)[j - prev.0.len()]);
            } else {
                assert(ext[j] == prev.0[j]);
            }
        }
    }
}

/// Every slice the segmenter emits lasts at least 100 ms, lies inside
/// the window `[t0, t0 + 17 ms per frame]`, and names local speaker 0, 1
/// or 2.
pub proof fn law_rle_slices_are_long_enough(b: Seq<u8>, t0: u64)
    requires
        t0 + b.len() * 17 <= u64::MAX,
    ensures
        forall|j: int|
            0 <= j < crate::segmenter::spec_rle(b, t0 as int).len() ==> slice_ok(
                #[trigger] crate::segmenter::spec_rle(b, t0 as int)[j],
                t0 as int,
                t0 + b.len() * 17,
            ),
{
    if b.len() > 0 {
        lemma_rle_scan(b, t0 as int, b.len() as int + 1);
    }
}


/// Merging entries in, key by key: a key the added entries hold takes
/// their value, any other keeps the value it had.
proof fn lemma_merge_into(acc: Seq<(Seq<char>, JsonV)>, add: Seq<(Seq<char>, JsonV)>, k: Seq<char>)
    requires
        keys_unique(add),
    ensures
        entries_has(add, k) ==> entries_get(crate::manifest::merge_into(acc, add), k) == entries_get(
            add,
            k,
        ),
        !entries_has(add, k) ==> entries_get(crate::manifest::merge_into(acc, add), k) == entries_get(
            acc,
            k,
        ),
    decreases add.len(),
{
    if add.len() > 0 {
        let d = add.drop_last();
        let last = add.last();
        assert(keys_unique(d)) by {
            assert forall|i: int, j: int| 0 <= i < j < d.len() implies #[trigger] d[i].0 != #[trigger] d[j].0 by {
                assert(d[i] == add[i] && d[j] == add[j]);
            }
        }
        lemma_merge_into(acc, d, k);
        let m = crate::manifest::merge_into(acc, d);
        lemma_with_key_get(JsonV::Obj(m), last.0, last.1, k);
        lemma_entry_index(d, k);
        lemma_entry_index(add, k);
        if last.0 == k {
            assert forall|j: int| 0 <= j < add.len() - 1 implies #[trigger] add[j].0 != k by {
                assert(add[j].0 != add[add.len() - 1].0);
            }
            lemma_entry_index_at(add, k, add.len() - 1);
        } else {
            assert(d.is_prefix_of(add));
            if entries_has(d, k) {
                lemma_get_in_prefix(d, add, k);
            } else {
                assert forall|j: int| 0 <= j < add.len() implies #[trigger] add[j].0 != k by {
                    if j < d.len() {
                        assert(add[j] == d[j]);
                    }
                }
            }
        }
    }
}

/// A manifest's own families and shared modes win over those it imports:
/// a key of its own block resolves to its own value, and a key only the
/// imports declare resolves to theirs.
pub proof fn law_manifest_own_entries_win(raw: JsonV, imports: Seq<JsonV>, block_key: Seq<char>, k: Seq<char>)
    requires
        block_key == "families"@ || block_key == "shared_modes"@,
        keys_unique(crate::manifest::block(raw, block_key)),
    ensures
        entries_has(crate::manifest::block(raw, block_key), k) ==> crate::manifest::spec_merge_manifest(
            raw,
            imports,
        ).at(block_key).get(k) == entries_get(crate::manifest::block(raw, block_key), k),
        !entries_has(crate::manifest::block(raw, block_key), k) ==> crate::manifest::spec_merge_manifest(
            raw,
            imports,
        ).at(block_key).get(k) == entries_get(crate::manifest::fold_blocks(imports, block_key), k),
{
    reveal_strlit("name");
    reveal_strlit("version");
    reveal_strlit("ttl_minutes");
    reveal_strlit("default_family");
    reveal_strlit("shared_modes");
    reveal_strlit("families");
    assert("name"@.len() == 4);
    assert("version"@.len() == 7);
    assert("ttl_minutes"@.len() == 11);
    assert("default_family"@.len() == 14);
    assert("shared_modes"@.len() == 12);
    assert("families"@.len() == 8);
    let merged = crate::manifest::spec_merge_manifest(raw, imports);
    let es = merged->Obj_0;
    if block_key == "families"@ {
        assert forall|j: int| 0 <= j < 5 implies #[trigger] es[j].0 != block_key by {}
        lemma_entry_index_at(es, block_key, 5);
    } else {
        assert forall|j: int| 0 <= j < 4 implies #[trigger] es[j].0 != block_key by {}
        lemma_entry_index_at(es, block_key, 4);
    }
    lemma_merge_into(
        crate::manifest::fold_blocks(imports, block_key),
        crate::manifest::block(raw, block_key),
        k,
    );
}


/// A client that sends `Authorization: Bearer <token>` with the
/// configured token is let in, for any token that neither starts with
/// `Bearer ` itself nor carries white space at its ends; any other token
/// in that header is refused.
pub proof fn law_bearer_header_is_accepted(token: Seq<char>, sent: Seq<char>)
    requires
        crate::text::trim(token) == token,
        !(token.len() >= 7 && token.take(7) == "Bearer "@),
        crate::text::trim(sent) == sent,
        !(sent.len() >= 7 && sent.take(7) == "Bearer "@),
    ensures
        crate::api::spec_check_auth(Some(token), Some("Bearer "@ + token)) == Ok::<(), crate::api::AuthError>(()),
        sent != token ==> crate::api::spec_check_auth(Some(token), Some("Bearer "@ + sent)) == Err::<
            (),
            crate::api::AuthError,
        >(crate::api::AuthError::BadToken),
{
    let p = "Bearer "@;
    reveal_strlit("Bearer ");
    assert(p.len() == 7);
    let h = p + token;
    assert(h.take(7) =~= p);
    assert(h.skip(7) =~= token);
    assert(crate::api::strip_all_prefix(h, p) == crate::api::strip_all_prefix(token, p));
    assert(crate::api::strip_all_prefix(token, p) == token);
    let h2 = p + sent;
    assert(h2.take(7) =~= p);
    assert(h2.skip(7) =~= sent);
    assert(crate::api::strip_all_prefix(h2, p) == crate::api::strip_all_prefix(sent, p));
    assert(crate::api::strip_all_prefix(sent, p) == sent);
}


/// A model purge leaves the rest of the configuration alone (the provider
/// list and the active family among it), and afterwards nothing is kept
/// or overridden.
pub proof fn law_purge_keeps_other_settings(c: JsonV, k: Seq<char>)
    requires
        c.is_keyable(),
    ensures
        k != "kept_models"@ && k != "mode_overrides"@ && k != "family_overrides"@ ==> crate::purge::spec_reset_model_config(
            c,
        ).get(k) == c.get(k),
        crate::purge::spec_reset_model_config(c).get("kept_models"@) == Some(JsonV::Arr(Seq::empty())),
        crate::purge::spec_reset_model_config(c).get("mode_overrides"@) == Some(
            JsonV::Obj(Seq::empty()),
        ),
        crate::purge::spec_reset_model_config(c).get("family_overrides"@) == Some(
            JsonV::Obj(Seq::empty()),
        ),
{
    let km = "kept_models"@;
    let mo = "mode_overrides"@;
    let fo = "family_overrides"@;
    reveal_strlit("kept_models");
    reveal_strlit("mode_overrides");
    reveal_strlit("family_overrides");
    assert(km.len() == 11 && mo.len() == 14 && fo.len() == 16);
    let c1 = c.with_key(km, JsonV::Arr(Seq::empty()));
    let c2 = c1.with_key(mo, JsonV::Obj(Seq::empty()));
    lemma_with_key_get(c, km, JsonV::Arr(Seq::empty()), k);
    lemma_with_key_get(c1, mo, JsonV::Obj(Seq::empty()), k);
    lemma_with_key_get(c2, fo, JsonV::Obj(Seq::empty()), k);
    lemma_with_key_get(c1, mo, JsonV::Obj(Seq::empty()), km);
    lemma_with_key_get(c2, fo, JsonV::Obj(Seq::empty()), km);
    lemma_with_key_get(c2, fo, JsonV::Obj(Seq::empty()), mo);
}


/// Merging the bundled presets never touches a listed entry: the list
/// afterwards begins with the configuration's list unchanged.
pub proof fn law_preset_merge_is_additive(c: JsonV, key: Seq<char>, preset: Seq<JsonV>)
    requires
        c.is_keyable(),
    ensures
        crate::cli::spec_merge_preset(c, key, preset) matches Ok(c1) ==> list_at(c, key).is_prefix_of(
            list_at(c1, key),
        ),
{
    let t = touched(c, key);
    if c.get(key) is None {
        lemma_with_key_get(c, key, JsonV::Null, key);
    }
    if let Some(a) = t.at(key).as_arr() {
        let m = merge_named(a, preset);
        lemma_with_key_get(t, key, JsonV::Arr(m), key);
        lemma_merge_named_prefix(a, preset);
    }
}


/// The lines of a stream chunk put end to end give the chunk back, and
/// every line but the last ends with `\n`: splitting loses and adds
/// nothing.
pub proof fn law_stream_lines_rejoin(s: Seq<char>)
    ensures
        crate::api::split_lines(s).flatten() == s,
        forall|j: int|
            0 <= j < crate::api::split_lines(s).len() - 1 ==> (#[trigger] crate::api::split_lines(s)[j]).last()
                == '\n',
    decreases s.len(),
{
    let ls = crate::api::split_lines(s);
    if s.len() > 0 {
        let i = crate::num::first_index(s, '\n');
        crate::num::lemma_first_index(s, '\n');
        if i >= 0 {
            let rest = s.skip(i + 1);
            law_stream_lines_rejoin(rest);
            assert(ls.drop_first() =~= crate::api::split_lines(rest));
            assert(ls[0] == s.take(i + 1));
            assert(s.take(i + 1) + rest =~= s);
            assert forall|j: int| 0 <= j < ls.len() - 1 implies (#[trigger] ls[j]).last() == '\n' by {
                if j > 0 {
                    assert(ls[j] == crate::api::split_lines(rest)[j - 1]);
                }
            }
        } else {
            assert(ls =~= seq![s]);
            assert(ls.drop_first().flatten() =~= Seq::<char>::empty());
            assert(s + Seq::<char>::empty() =~= s);
        }
    }
}


/// The first `c` of `a + b` is the first of `a` when `a` has one.
proof fn lemma_first_index_concat(a: Seq<char>, b: Seq<char>, c: char)
    requires
        crate::num::first_index(a, c) >= 0,
    ensures
        crate::num::first_index(a + b, c) == crate::num::first_index(a, c),
    decreases a.len(),
{
    if a.len() > 0 && a[0] != c {
        assert((a + b).drop_first() =~= a.drop_first() + b);
        lemma_first_index_concat(a.drop_first(), b, c);
    }
}

/// Splitting text at a line end splits its lines there too.
proof fn lemma_split_lines_concat(a: Seq<char>, b: Seq<char>)
    requires
        a.len() == 0 || a.last() == '\n',
    ensures
        crate::api::split_lines(a + b) == crate::api::split_lines(a) + crate::api::split_lines(b),
    decreases a.len(),
{
    if a.len() == 0 {
        assert(a + b =~= b);
        assert(crate::api::split_lines(a) =~= Seq::<Seq<char>>::empty());
        assert(crate::api::split_lines(b) =~= Seq::<Seq<char>>::empty() + crate::api::split_lines(b));
    } else {
        crate::num::lemma_first_index(a, '\n');
        let i = crate::num::first_index(a, '\n');
        assert(i >= 0) by {
            if i < 0 {
                assert(a[a.len() - 1] != '\n');
            }
        }
        lemma_first_index_concat(a, b, '\n');
        let rest = a.skip(i + 1);
        assert((a + b).take(i + 1) =~= a.take(i + 1));
        assert((a + b).skip(i + 1) =~= rest + b);
        assert(rest.len() == 0 || rest.last() == '\n');
        lemma_split_lines_concat(rest, b);
        assert(crate::api::split_lines(a + b) =~= seq![a.take(i + 1)] + (crate::api::split_lines(rest)
            + crate::api::split_lines(b)));
        assert(crate::api::split_lines(a) =~= seq![a.take(i + 1)] + crate::api::split_lines(rest));
    }
}

/// Rewriting a stream is the same whether it arrives in one chunk or in
/// chunks cut at line ends: the rewrite of two such chunks, put together,
/// is the rewrite of the whole.
pub proof fn law_rewrite_chunks_compose(
    a: Seq<char>,
    b: Seq<char>,
    requested: Option<Seq<char>>,
    resolved: Option<Seq<char>>,
)
    requires
        a.len() == 0 || a.last() == '\n',
    ensures
        crate::api::spec_rewrite_chunk(a + b, requested, resolved) == crate::api::spec_rewrite_chunk(
            a,
            requested,
            resolved,
        ) + crate::api::spec_rewrite_chunk(b, requested, resolved),
{
    if crate::api::spec_needs_rewrite(requested, resolved) {
        let f = |l: Seq<char>| crate::api::rewrite_line(l, resolved->0, requested->0);
        lemma_split_lines_concat(a, b);
        let la = crate::api::split_lines(a);
        let lb = crate::api::split_lines(b);
        assert((la + lb).map_values(f) =~= la.map_values(f) + lb.map_values(f));
        vstd::seq_lib::lemma_flatten_concat(la.map_values(f), lb.map_values(f));
    }
}

/// The transcription loop's bookkeeping: only a cancelled recognition
/// stops it, and then nothing changes; every other chunk moves on to the
/// next file; the stateful-chunk counter stays below the reset period
/// and is back at zero whenever a reset is asked for.
pub proof fn law_chunk_loop(s: crate::transcribe::ChunkLoop, o: crate::transcribe::ChunkOutcome)
    requires
        crate::transcribe::chunk_step_fits(s, o),
    ensures
        ({
            let (n, st) = crate::transcribe::spec_chunk_step(s, o);
            &&& st.stop == (o matches crate::transcribe::ChunkOutcome::AsrFailed { cancelled, .. } && cancelled)
            &&& st.stop ==> n == s
            &&& !st.stop ==> n.next_seq == s.next_seq + 1
            &&& n.state_reset_chunks == s.state_reset_chunks
            &&& st.chunk_t0_ms == s.chunk_t0_ms
            &&& (s.chunks_since_reset < s.state_reset_chunks ==> n.chunks_since_reset < n.state_reset_chunks)
            &&& (st.reset_state ==> n.chunks_since_reset == 0 && s.state_reset_chunks > 0)
        }),
{
}

/// Size in billionths of a GB under `key` of a tier; zero when absent.
pub open spec fn tier_size(tier: JsonV, key: Seq<char>) -> int {
    match crate::num::json_nano(tier.at(key)) {
        Some(x) => x,
        None => 0,
    }
}

/// Whether a host has the memory a tier asks for. A host with an Nvidia or
/// AMD card qualifies by its VRAM against `min_vram_gb`, or by its RAM less
/// the headroom (never below zero) against `min_ram_gb`. Apple silicon and
/// hosts without a GPU share one pool, and qualify by raw RAM against
/// `min_unified_ram_gb`, else `min_ram_gb` plus the headroom.
pub open spec fn host_fits(tier: JsonV, hw: crate::hardware::HardwareProfile, headroom: int) -> bool {
    let gpu = hw.gpu_type;
    if gpu == crate::hardware::GpuType::Nvidia || gpu == crate::hardware::GpuType::Amd {
        let vram: int = match hw.vram_nano_gb {
            Some(v) => v as int,
            None => 0,
        };
        let spare: int = if hw.ram_nano_gb > headroom {
            hw.ram_nano_gb - headroom
        } else {
            0
        };
        vram >= tier_size(tier, "min_vram_gb"@) || spare >= tier_size(tier, "min_ram_gb"@)
    } else {
        let needed = match crate::num::json_nano(tier.at("min_unified_ram_gb"@)) {
            Some(u) => u,
            None => tier_size(tier, "min_ram_gb"@) + headroom,
        };
        hw.ram_nano_gb >= needed
    }
}

/// A tier the host has the memory for and that names a model.
pub open spec fn usable_tier(tier: JsonV, hw: crate::hardware::HardwareProfile, headroom: int) -> bool {
    host_fits(tier, hw, headroom) && tier.at("model"@).as_str() is Some
}

/// The resolver's tier choice, for the memory kind of the host's GPU: the
/// model of the first tier, in the manifest's order, that the host has the
/// memory for and that names a model; none when no tier does.
pub proof fn law_first_tier_the_host_fits(
    tiers: Seq<JsonV>,
    hw: crate::hardware::HardwareProfile,
    headroom: int,
)
    ensures
        match crate::resolver::spec_pick_tier(
            tiers,
            hw,
            crate::hardware::spec_is_unified(hw.gpu_type),
            headroom,
        ) {
            Some(model) => exists|j: int|
                0 <= j < tiers.len() && usable_tier(#[trigger] tiers[j], hw, headroom) && tiers[j].at(
                    "model"@,
                ).as_str() == Some(model) && forall|i: int|
                    0 <= i < j ==> !usable_tier(#[trigger] tiers[i], hw, headroom),
            None => forall|j: int| 0 <= j < tiers.len() ==> !usable_tier(#[trigger] tiers[j], hw, headroom),
        },
    decreases tiers.len(),
{
    let unified = crate::hardware::spec_is_unified(hw.gpu_type);
    if tiers.len() > 0 {
        let rest = tiers.drop_first();
        law_first_tier_the_host_fits(rest, hw, headroom);
        assert(usable_tier(tiers[0], hw, headroom) == (crate::resolver::spec_tier_matches(
            tiers[0],
            hw,
            unified,
            headroom,
        ) && tiers[0].at("model"@).as_str() is Some));
        if !usable_tier(tiers[0], hw, headroom) {
            match crate::resolver::spec_pick_tier(rest, hw, unified, headroom) {
                Some(model) => {
                    let j = choose|j: int|
                        0 <= j < rest.len() && usable_tier(#[trigger] rest[j], hw, headroom) && rest[j].at(
                            "model"@,
                        ).as_str() == Some(model) && forall|i: int|
                            0 <= i < j ==> !usable_tier(#[trigger] rest[i], hw, headroom);
                    assert(tiers[j + 1] == rest[j]);
                    assert forall|i: int| 0 <= i < j + 1 implies !usable_tier(#[trigger] tiers[i], hw, headroom) by {
                        if i > 0 {
                            assert(tiers[i] == rest[i - 1]);
                        }
                    }
                },
                None => {
                    assert forall|j: int| 0 <= j < tiers.len() implies !usable_tier(#[trigger] tiers[j], hw, headroom) by {
                        if j > 0 {
                            assert(tiers[j] == rest[j - 1]);
                        }
                    }
                },
            }
        }
    }
}

} // verus!
