//! The configuration document: its defaults, the upgrade that fills in
//! what older files lack, and the read-only views the resolver takes of it.

use vstd::prelude::*;
use crate::json::{
    entries_get, entries_has, entry_index, lemma_entry_index, lemma_view_entries, lemma_view_items,
    lookup, str_eq, view_entries, view_entry, view_items, Json, JsonV,
};
use crate::sorted::views;

verus! {

/// The value under `key` of a document, when it is a string.
pub open spec fn at_str(v: JsonV, key: Seq<char>) -> Option<Seq<char>> {
    v.at(key).as_str()
}

/// The strings among `items`, in order; other values are skipped.
pub open spec fn str_items(items: Seq<JsonV>) -> Seq<Seq<char>>
    decreases items.len(),
{
    if items.len() == 0 {
        Seq::empty()
    } else {
        str_items(items.drop_last()) + match items.last().as_str() {
            Some(s) => seq![s],
            None => Seq::empty(),
        }
    }
}

/// The strings of an array, in order.
pub fn strings_of(items: &Vec<Json>) -> (r: Vec<String>)
    ensures
        views(r@) == str_items(view_items(items@)),
{
    let ghost t = view_items(items@);
    let mut out: Vec<String> = Vec::new();
    proof {
        lemma_view_items(items@);
        assert(t.take(0) =~= Seq::<JsonV>::empty());
        assert(views(out@) =~= str_items(t.take(0)));
    }
    let mut i: usize = 0;
    while i < items.len()
        invariant
            i <= items@.len(),
            t == view_items(items@),
            t.len() == items@.len(),
            forall|j: int| 0 <= j < items@.len() ==> #[trigger] t[j] == items@[j]@,
            views(out@) == str_items(t.take(i as int)),
        decreases items.len() - i,
    {
        let ghost before = views(out@);
        proof {
            let p = t.take(i as int + 1);
            assert(p.drop_last() =~= t.take(i as int));
            assert(p.last() == items@[i as int]@);
        }
        match items[i].as_str() {
            Some(s) => {
                out.push(s.to_string());
                proof {
                    assert(views(out@) =~= before + seq![s@]);
                }
            },
            None => {
                proof {
                    assert(before =~= before + Seq::<Seq<char>>::empty());
                }
            },
        }
        i = i + 1;
    }
    proof {
        assert(t.take(i as int) =~= t);
    }
    out
}

/// The strings of the array under `key`, in order; none when it is not
/// an array.
pub open spec fn spec_tracked_list(config: JsonV, key: Seq<char>) -> Seq<Seq<char>> {
    match config.at(key).as_arr() {
        Some(a) => str_items(a),
        None => Seq::empty(),
    }
}

pub fn tracked_list(config: &Json, key: &str) -> (r: Vec<String>)
    ensures
        views(r@) == spec_tracked_list(config@, key@),
{
    match config.get(key) {
        Some(t) => match t.as_array() {
            Some(a) => strings_of(a),
            None => {
                let v: Vec<String> = Vec::new();
                proof {
                    assert(views(v@) =~= Seq::<Seq<char>>::empty());
                }
                v
            },
        },
        None => {
            let v: Vec<String> = Vec::new();
            proof {
                assert(views(v@) =~= Seq::<Seq<char>>::empty());
            }
            v
        },
    }
}

/// The modes whose models are kept pulled and current.
pub open spec fn spec_tracked_modes(config: JsonV) -> Seq<Seq<char>> {
    match config.at("tracked_modes"@).as_arr() {
        Some(a) => str_items(a),
        None => Seq::empty(),
    }
}

/// The modes a configuration tracks: the strings of `tracked_modes`.
pub fn tracked_modes(config: &Json) -> (r: Vec<String>)
    ensures
        views(r@) == spec_tracked_modes(config@),
{
    match config.get("tracked_modes") {
        Some(t) => match t.as_array() {
            Some(a) => strings_of(a),
            None => {
                let v: Vec<String> = Vec::new();
                proof {
                    assert(views(v@) =~= Seq::<Seq<char>>::empty());
                }
                v
            },
        },
        None => {
            let v: Vec<String> = Vec::new();
            proof {
                assert(views(v@) =~= Seq::<Seq<char>>::empty());
            }
            v
        },
    }
}

/// Index of the first item whose `name` is the string `name`, or -1.
pub open spec fn index_named(items: Seq<JsonV>, name: Seq<char>) -> int
    decreases items.len(),
{
    if items.len() == 0 {
        -1
    } else if at_str(items[0], "name"@) == Some(name) {
        0
    } else {
        let r = index_named(items.drop_first(), name);
        if r < 0 {
            -1
        } else {
            r + 1
        }
    }
}

pub proof fn lemma_index_named(items: Seq<JsonV>, name: Seq<char>)
    ensures
        -1 <= index_named(items, name) < items.len(),
        index_named(items, name) >= 0 ==> at_str(items[index_named(items, name)], "name"@) == Some(
            name,
        ),
        forall|j: int|
            0 <= j < items.len() && (index_named(items, name) < 0 || j < index_named(items, name))
                ==> at_str(#[trigger] items[j], "name"@) != Some(name),
    decreases items.len(),
{
    if items.len() > 0 {
        let t = items.drop_first();
        lemma_index_named(t, name);
        assert forall|j: int|
            0 <= j < items.len() && (index_named(items, name) < 0 || j < index_named(items, name))
            implies at_str(#[trigger] items[j], "name"@) != Some(name) by {
            if j > 0 {
                assert(items[j] == t[j - 1]);
            }
        }
    }
}

/// Position of the first item named `name`.
pub fn find_named(items: &Vec<Json>, name: &str) -> (r: Option<usize>)
    ensures
        r == (if index_named(view_items(items@), name@) < 0 {
            None::<usize>
        } else {
            Some(index_named(view_items(items@), name@) as usize)
        }),
{
    let ghost t = view_items(items@);
    proof {
        lemma_view_items(items@);
        lemma_index_named(t, name@);
    }
    let mut i: usize = 0;
    while i < items.len()
        invariant
            i <= items@.len(),
            t == view_items(items@),
            t.len() == items@.len(),
            forall|j: int| 0 <= j < items@.len() ==> #[trigger] t[j] == items@[j]@,
            forall|j: int| 0 <= j < i ==> at_str(#[trigger] t[j], "name"@) != Some(name@),
            -1 <= index_named(t, name@) < t.len(),
            index_named(t, name@) >= 0 ==> at_str(t[index_named(t, name@)], "name"@) == Some(name@),
            forall|j: int|
                0 <= j < t.len() && (index_named(t, name@) < 0 || j < index_named(t, name@))
                    ==> at_str(#[trigger] t[j], "name"@) != Some(name@),
        decreases items.len() - i,
    {
        let hit = match items[i].get("name") {
            Some(n) => match n.as_str() {
                Some(s) => str_eq(s, name),
                None => false,
            },
            None => false,
        };
        if hit {
            proof {
                assert(at_str(t[i as int], "name"@) == Some(name@));
                let x = index_named(t, name@);
                if x < 0 || x > i {
                    assert(at_str(t[i as int], "name"@) != Some(name@));
                }
                if 0 <= x < i {
                    assert(at_str(t[x], "name"@) != Some(name@));
                }
            }
            return Some(i);
        }
        i = i + 1;
    }
    proof {
        let x = index_named(t, name@);
        if x >= 0 {
            assert(at_str(t[x], "name"@) != Some(name@));
        }
    }
    None
}

/// The manifest URL of the active provider.
pub open spec fn spec_active_provider_url(config: JsonV) -> Option<Seq<char>> {
    match at_str(config, "active_provider"@) {
        None => None,
        Some(active) => match config.at("providers"@).as_arr() {
            None => None,
            Some(ps) => {
                let i = index_named(ps, active);
                if i < 0 {
                    None
                } else {
                    match ps[i].get("url"@) {
                        Some(u) => u.as_str(),
                        None => None,
                    }
                }
            },
        },
    }
}

/// The `url` of the first provider whose name is `active_provider`.
pub fn active_provider_url(config: &Json) -> (r: Option<String>)
    ensures
        r is Some == spec_active_provider_url(config@) is Some,
        r is Some ==> r->0@ == spec_active_provider_url(config@)->0,
{
    let active = match config.get("active_provider") {
        Some(a) => match a.as_str() {
            Some(s) => s,
            None => {
                return None;
            },
        },
        None => {
            return None;
        },
    };
    let ps = match config.get("providers") {
        Some(p) => match p.as_array() {
            Some(a) => a,
            None => {
                return None;
            },
        },
        None => {
            return None;
        },
    };
    let _n = ps.len();
    proof {
        lemma_view_items(ps@);
        lemma_index_named(view_items(ps@), active@);
    }
    match find_named(ps, active) {
        Some(i) => match ps[i].get("url") {
            Some(u) => match u.as_str() {
                Some(s) => Some(s.to_string()),
                None => None,
            },
            None => None,
        },
        None => None,
    }
}


/// The `api` block of a new configuration.
pub open spec fn default_api() -> Seq<(Seq<char>, JsonV)> {
    seq![
        ("enabled"@, JsonV::Bool(true)),
        ("host"@, JsonV::Str("127.0.0.1"@)),
        ("port"@, JsonV::Num("1473"@)),
        ("cors_allow_all"@, JsonV::Bool(false)),
        ("bearer_token"@, JsonV::Null),
    ]
}

/// The `auto_update` block of a new configuration.
pub open spec fn default_auto_update() -> Seq<(Seq<char>, JsonV)> {
    seq![
        ("enabled"@, JsonV::Bool(true)),
        ("channel"@, JsonV::Str("stable"@)),
        ("auto_apply"@, JsonV::Str("patch"@)),
        ("check_interval_hours"@, JsonV::Num("6"@)),
    ]
}

/// The `remote_ui` block of a new configuration.
pub open spec fn default_remote_ui() -> Seq<(Seq<char>, JsonV)> {
    seq![("enabled"@, JsonV::Bool(false)), ("port"@, JsonV::Num("1474"@))]
}

/// The provider a new configuration lists.
pub open spec fn default_provider() -> JsonV {
    JsonV::Obj(
        seq![
            ("name"@, JsonV::Str("MyOwnLLM Default"@)),
            ("url"@, JsonV::Str(
                "https://raw.githubusercontent.com/mrjeeves/MyOwnLLM/main/manifests/default.json"@,
            )),
        ],
    )
}

/// The entries of a new configuration whose conversations live in
/// `conv_dir`.
pub open spec fn default_entries(conv_dir: Seq<char>) -> Seq<(Seq<char>, JsonV)> {
    seq![
        ("active_provider"@, JsonV::Str("MyOwnLLM Default"@)),
        ("active_family"@, JsonV::Str("gemma4"@)),
        ("active_mode"@, JsonV::Str("text"@)),
        ("model_cleanup_days"@, JsonV::Num("1"@)),
        ("kept_models"@, JsonV::Arr(Seq::empty())),
        ("mode_overrides"@, JsonV::Obj(Seq::empty())),
        ("tracked_modes"@, JsonV::Arr(seq![JsonV::Str("text"@)])),
        ("conversation_dir"@, JsonV::Str(conv_dir)),
        ("api"@, JsonV::Obj(default_api())),
        ("auto_update"@, JsonV::Obj(default_auto_update())),
        ("remote_ui"@, JsonV::Obj(default_remote_ui())),
        ("providers"@, JsonV::Arr(seq![default_provider()])),
    ]
}

fn kv(k: &str, v: Json) -> (r: (String, Json))
    ensures
        r.0@ == k@,
        r.1 == v,
{
    (k.to_string(), v)
}

fn num(t: &str) -> (r: Json)
    ensures
        r@ == JsonV::Num(t@),
{
    Json::Num(t.to_string())
}

fn obj_of(es: Vec<(String, Json)>) -> (r: Json)
    ensures
        r@ == JsonV::Obj(view_entries(es@)),
{
    Json::Obj(es)
}

fn default_api_entries() -> (r: Vec<(String, Json)>)
    ensures
        view_entries(r@) == default_api(),
{
    let mut es: Vec<(String, Json)> = Vec::new();
    es.push(kv("enabled", Json::Bool(true)));
    es.push(kv("host", Json::string("127.0.0.1")));
    es.push(kv("port", num("1473")));
    es.push(kv("cors_allow_all", Json::Bool(false)));
    es.push(kv("bearer_token", Json::Null));
    proof {
        lemma_view_entries(es@);
        assert(view_entries(es@) =~= default_api());
    }
    es
}

fn default_auto_update_entries() -> (r: Vec<(String, Json)>)
    ensures
        view_entries(r@) == default_auto_update(),
{
    let mut es: Vec<(String, Json)> = Vec::new();
    es.push(kv("enabled", Json::Bool(true)));
    es.push(kv("channel", Json::string("stable")));
    es.push(kv("auto_apply", Json::string("patch")));
    es.push(kv("check_interval_hours", num("6")));
    proof {
        lemma_view_entries(es@);
        assert(view_entries(es@) =~= default_auto_update());
    }
    es
}

fn default_remote_ui_entries() -> (r: Vec<(String, Json)>)
    ensures
        view_entries(r@) == default_remote_ui(),
{
    let mut es: Vec<(String, Json)> = Vec::new();
    es.push(kv("enabled", Json::Bool(false)));
    es.push(kv("port", num("1474")));
    proof {
        lemma_view_entries(es@);
        assert(view_entries(es@) =~= default_remote_ui());
    }
    es
}

/// The entries of a new configuration.
pub fn default_config_entries(conv_dir: &str) -> (r: Vec<(String, Json)>)
    ensures
        view_entries(r@) == default_entries(conv_dir@),
{
    let mut prov: Vec<(String, Json)> = Vec::new();
    prov.push(kv("name", Json::string("MyOwnLLM Default")));
    prov.push(
        kv(
            "url",
            Json::string("https://raw.githubusercontent.com/mrjeeves/MyOwnLLM/main/manifests/default.json"),
        ),
    );
    let mut provs: Vec<Json> = Vec::new();
    provs.push(obj_of(prov));
    let mut seed_modes: Vec<Json> = Vec::new();
    seed_modes.push(Json::string("text"));
    let mut es: Vec<(String, Json)> = Vec::new();
    es.push(kv("active_provider", Json::string("MyOwnLLM Default")));
    es.push(kv("active_family", Json::string("gemma4")));
    es.push(kv("active_mode", Json::string("text")));
    es.push(kv("model_cleanup_days", num("1")));
    es.push(kv("kept_models", Json::Arr(Vec::new())));
    es.push(kv("mode_overrides", Json::Obj(Vec::new())));
    es.push(kv("tracked_modes", Json::Arr(seed_modes)));
    es.push(kv("conversation_dir", Json::string(conv_dir)));
    es.push(kv("api", obj_of(default_api_entries())));
    es.push(kv("auto_update", obj_of(default_auto_update_entries())));
    es.push(kv("remote_ui", obj_of(default_remote_ui_entries())));
    es.push(kv("providers", Json::Arr(provs)));
    proof {
        lemma_view_entries(prov@);
        assert(view_entries(prov@) =~= seq![
            ("name"@, JsonV::Str("MyOwnLLM Default"@)),
            ("url"@, JsonV::Str(
                "https://raw.githubusercontent.com/mrjeeves/MyOwnLLM/main/manifests/default.json"@,
            )),
        ]);
        lemma_view_items(provs@);
        assert(view_items(provs@) =~= seq![default_provider()]);
        lemma_view_items(seed_modes@);
        assert(view_items(seed_modes@) =~= seq![JsonV::Str("text"@)]);
        assert(view_items(Seq::<Json>::empty()) =~= Seq::empty());
        assert(view_entries(Seq::<(String, Json)>::empty()) =~= Seq::empty());
        lemma_view_entries(es@);
        assert(view_entries(es@) =~= default_entries(conv_dir@));
    }
    es
}

/// The configuration a new installation starts with.
pub fn default_config_value(conv_dir: &str) -> (r: Json)
    ensures
        r@ == JsonV::Obj(default_entries(conv_dir@)),
{
    obj_of(default_config_entries(conv_dir))
}


/// `es` with each default entry whose key it lacks appended, in order.
pub open spec fn fill_missing(es: Seq<(Seq<char>, JsonV)>, d: Seq<(Seq<char>, JsonV)>) -> Seq<
    (Seq<char>, JsonV),
>
    decreases d.len(),
{
    if d.len() == 0 {
        es
    } else {
        let e = fill_missing(es, d.drop_last());
        if entries_has(e, d.last().0) {
            e
        } else {
            e.push(d.last())
        }
    }
}

/// `es` with the object under `key`, when there is one, completed from
/// `dn` in place.
pub open spec fn fill_nested(es: Seq<(Seq<char>, JsonV)>, key: Seq<char>, dn: Seq<(Seq<char>, JsonV)>) -> Seq<
    (Seq<char>, JsonV),
> {
    let i = entry_index(es, key);
    if i >= 0 {
        match es[i].1 {
            JsonV::Obj(n) => es.update(i, (es[i].0, JsonV::Obj(fill_missing(n, dn)))),
            _ => es,
        }
    } else {
        es
    }
}

/// An object's entries after the upgrade: the retired `sources` dropped,
/// missing top-level keys and missing keys of the `api`, `auto_update`
/// and `remote_ui` blocks filled from the defaults.
pub open spec fn merged_entries(es: Seq<(Seq<char>, JsonV)>, conv_dir: Seq<char>) -> Seq<(Seq<char>, JsonV)> {
    fill_nested(
        fill_nested(
            fill_nested(
                fill_missing(crate::json::entries_remove(es, "sources"@), default_entries(conv_dir)),
                "api"@,
                default_api(),
            ),
            "auto_update"@,
            default_auto_update(),
        ),
        "remote_ui"@,
        default_remote_ui(),
    )
}

/// A string value under `key`, or empty.
pub open spec fn str_or_empty(c: JsonV, key: Seq<char>) -> Seq<char> {
    match at_str(c, key) {
        Some(s) => s,
        None => Seq::empty(),
    }
}

/// The upgrade an older configuration gets on load. `conv_dir` is the
/// default conversations directory, when the home directory is known.
pub open spec fn spec_merge_defaults(c: JsonV, conv_dir: Option<Seq<char>>) -> JsonV {
    let cd = match conv_dir {
        Some(d) => d,
        None => Seq::empty(),
    };
    let c1 = match c {
        JsonV::Obj(es) => JsonV::Obj(merged_entries(es, cd)),
        _ => c,
    };
    let seed = match c1.at("tracked_modes"@).as_arr() {
        Some(a) => a.len() == 0,
        None => true,
    };
    let c2 = if seed {
        c1.with_key(
            "tracked_modes"@,
            JsonV::Arr(
                seq![
                    JsonV::Str(
                        match at_str(c1, "active_mode"@) {
                            Some(m) => m,
                            None => "text"@,
                        },
                    ),
                ],
            ),
        )
    } else {
        c1
    };
    let c3 = if str_or_empty(c2, "active_family"@).len() == 0 {
        c2.with_key("active_family"@, JsonV::Str("gemma4"@))
    } else {
        c2
    };
    if str_or_empty(c3, "conversation_dir"@).len() == 0 && conv_dir is Some {
        c3.with_key("conversation_dir"@, JsonV::Str(conv_dir->0))
    } else {
        c3
    }
}

fn fill_missing_exec(es: &mut Vec<(String, Json)>, d: &Vec<(String, Json)>)
    ensures
        view_entries(final(es)@) == fill_missing(view_entries(old(es)@), view_entries(d@)),
{
    let ghost dv = view_entries(d@);
    let ghost e0 = view_entries(es@);
    proof {
        lemma_view_entries(d@);
        assert(dv.take(0) =~= Seq::<(Seq<char>, JsonV)>::empty());
    }
    let mut i: usize = 0;
    while i < d.len()
        invariant
            i <= d@.len(),
            dv == view_entries(d@),
            dv.len() == d@.len(),
            forall|j: int| 0 <= j < d@.len() ==> #[trigger] dv[j] == view_entry(d@[j]),
            view_entries(es@) == fill_missing(e0, dv.take(i as int)),
        decreases d.len() - i,
    {
        proof {
            let p = dv.take(i as int + 1);
            assert(p.drop_last() =~= dv.take(i as int));
            assert(p.last() == dv[i as int]);
            lemma_entry_index(view_entries(es@), d@[i as int].0@);
        }
        let present = lookup(es, d[i].0.as_str()).is_some();
        if !present {
            let k = d[i].0.clone();
            let v = d[i].1.deep_clone();
            let ghost prev = es@;
            es.push((k, v));
            proof {
                lemma_view_entries(prev);
                lemma_view_entries(es@);
                assert(view_entries(es@) =~= view_entries(prev).push(dv[i as int]));
            }
        }
        i = i + 1;
    }
    proof {
        assert(dv.take(i as int) =~= dv);
    }
}

fn fill_nested_exec(es: &mut Vec<(String, Json)>, key: &str, dn: &Vec<(String, Json)>)
    ensures
        view_entries(final(es)@) == fill_nested(view_entries(old(es)@), key@, view_entries(dn@)),
{
    let _n = es.len();
    proof {
        lemma_view_entries(es@);
        lemma_entry_index(view_entries(es@), key@);
    }
    match crate::json::find_entry(es, key) {
        Some(i) => {
            let cur = es[i].1.deep_clone();
            match cur {
                Json::Obj(n) => {
                    let mut nn = n;
                    fill_missing_exec(&mut nn, dn);
                    let k = es[i].0.clone();
                    let ghost prev = es@;
                    let ghost nv = Json::Obj(nn)@;
                    es.set(i, (k, Json::Obj(nn)));
                    proof {
                        lemma_view_entries(prev);
                        lemma_view_entries(es@);
                        assert(view_entries(es@) =~= view_entries(prev).update(i as int, (prev[i as int].0@, nv)));
                    }
                },
                _ => {},
            }
        },
        None => {},
    }
}

/// Fill in what an older configuration lacks: drop the retired
/// `sources`, add missing top-level and nested keys from the defaults,
/// seed `tracked_modes` from `active_mode` when empty, and fill an empty
/// `active_family` and `conversation_dir`.
pub fn merge_defaults(config: Json, conv_dir: Option<&str>) -> (r: Json)
    requires
        config@.is_keyable(),
    ensures
        r@ == spec_merge_defaults(
            config@,
            match conv_dir {
                Some(d) => Some(d@),
                None => None,
            },
        ),
{
    let ghost cdv = match conv_dir {
        Some(d) => Some(d@),
        None => None,
    };
    let cd: &str = match conv_dir {
        Some(d) => d,
        None => "",
    };
    proof {
        reveal_strlit("");
    }
    let mut config = config;
    let ghost c0 = config@;
    config = match config {
        Json::Obj(es) => {
            let mut es = es;
            let _ = crate::json::entries_take(&mut es, "sources");
            let defaults = default_config_entries(cd);
            fill_missing_exec(&mut es, &defaults);
            fill_nested_exec(&mut es, "api", &default_api_entries());
            fill_nested_exec(&mut es, "auto_update", &default_auto_update_entries());
            fill_nested_exec(&mut es, "remote_ui", &default_remote_ui_entries());
            Json::Obj(es)
        },
        other => other,
    };
    let ghost c1 = config@;
    assert(c1 == match c0 {
        JsonV::Obj(es) => JsonV::Obj(merged_entries(es, cd@)),
        _ => c0,
    });
    assert(c1.is_keyable());
    let seed = match config.get("tracked_modes") {
        Some(t) => match t.as_array() {
            Some(a) => a.len() == 0,
            None => true,
        },
        None => true,
    };
    if seed {
        let active: &str = match config.get("active_mode") {
            Some(m) => match m.as_str() {
                Some(s) => s,
                None => "text",
            },
            None => "text",
        };
        let mut arr: Vec<Json> = Vec::new();
        arr.push(Json::string(active));
        proof {
            lemma_view_items(arr@);
            assert(view_items(arr@) =~= seq![JsonV::Str(active@)]);
        }
        config.set_key("tracked_modes", Json::Arr(arr));
    }
    let ghost c2 = config@;
    assert(c2 == if seed {
        c1.with_key(
            "tracked_modes"@,
            JsonV::Arr(
                seq![
                    JsonV::Str(
                        match at_str(c1, "active_mode"@) {
                            Some(m) => m,
                            None => "text"@,
                        },
                    ),
                ],
            ),
        )
    } else {
        c1
    });
    proof {
        if seed {
            crate::json::lemma_with_key_get(c1, "tracked_modes"@, JsonV::Null, "x"@);
        }
    }
    assert(c2.is_keyable());
    let fam_empty = match config.get("active_family") {
        Some(f) => match f.as_str() {
            Some(s) => s.is_empty(),
            None => true,
        },
        None => true,
    };
    proof {
        reveal_strlit("");
    }
    assert(fam_empty == (str_or_empty(c2, "active_family"@).len() == 0));
    if fam_empty {
        config.set_key("active_family", Json::string("gemma4"));
    }
    let ghost c3 = config@;
    proof {
        if fam_empty {
            crate::json::lemma_with_key_get(c2, "active_family"@, JsonV::Null, "x"@);
        }
    }
    assert(c3.is_keyable());
    let dir_empty = match config.get("conversation_dir") {
        Some(f) => match f.as_str() {
            Some(s) => s.is_empty(),
            None => true,
        },
        None => true,
    };
    assert(dir_empty == (str_or_empty(c3, "conversation_dir"@).len() == 0));
    if dir_empty {
        if let Some(d) = conv_dir {
            config.set_key("conversation_dir", Json::string(d));
        }
    }
    proof {
        let scd = match conv_dir {
            Some(d) => d@,
            None => Seq::<char>::empty(),
        };
        assert(cd@ == scd);
        assert(c1 == match c0 {
            JsonV::Obj(es) => JsonV::Obj(merged_entries(es, scd)),
            _ => c0,
        });
        assert(seed == match c1.at("tracked_modes"@).as_arr() {
            Some(a) => a.len() == 0,
            None => true,
        });
        assert(c3 == if str_or_empty(c2, "active_family"@).len() == 0 {
            c2.with_key("active_family"@, JsonV::Str("gemma4"@))
        } else {
            c2
        });
        assert(config@ == if str_or_empty(c3, "conversation_dir"@).len() == 0 && cdv is Some {
            c3.with_key("conversation_dir"@, JsonV::Str(cdv->0))
        } else {
            c3
        });
    }
    config
}

/// Why the text of `config.json` gives no configuration.
#[derive(Debug, Clone, PartialEq)]
pub enum ConfigTextError {
    /// The text is not JSON; serde_json's message.
    NotJson(String),
    /// The document is neither an object nor null.
    NotObject,
}

/// The configuration the text of `config.json` holds, upgraded with the
/// current defaults: an error when it is not JSON, or not an object (or
/// null).
pub fn config_from_text(text: &str, conv_dir: Option<&str>) -> (r: Result<Json, ConfigTextError>)
    ensures
        match r {
            Err(ConfigTextError::NotJson(_)) => crate::json_text::json_parse(text@) is None,
            Err(ConfigTextError::NotObject) => crate::json_text::json_parse(text@) matches Some(v)
                && !v.is_keyable(),
            Ok(c) => crate::json_text::json_parse(text@) matches Some(v) && v.is_keyable() && c@
                == spec_merge_defaults(
                v,
                match conv_dir {
                    Some(d) => Some(d@),
                    None => None,
                },
            ),
        },
{
    match crate::json_text::read_document(text) {
        Err(e) => Err(ConfigTextError::NotJson(e)),
        Ok(v) => {
            let keyable = match &v {
                Json::Obj(_) => true,
                Json::Null => true,
                _ => false,
            };
            if !keyable {
                return Err(ConfigTextError::NotObject);
            }
            Ok(merge_defaults(v, conv_dir))
        },
    }
}

} // verus!
