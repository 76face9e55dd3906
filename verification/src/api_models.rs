//! The model listing of the OpenAI-compatible endpoint: one virtual
//! model per mode, then every tag the daemon has installed.

use vstd::prelude::*;
use crate::iso::{dec_chars, spec_dec};
use crate::json::{view_entries, Json, JsonV};
use crate::ollama::{info_views, ModelInfo};
use crate::resolver::VIRTUAL_PREFIX;
use crate::text::{concat, string_of};

verus! {

/// One entry of the `/v1/models` listing.
#[derive(Debug)]
pub struct ModelObject {
    pub id: String,
    pub object: &'static str,
    pub owned_by: String,
    pub created: Option<i64>,
    pub metadata: Option<Json>,
}

/// The `/v1/models` response.
#[derive(Debug)]
pub struct ModelList {
    pub object: &'static str,
    pub data: Vec<ModelObject>,
}

/// An entry as values: id, object, owner, creation time, metadata.
pub open spec fn object_view(o: ModelObject) -> (Seq<char>, Seq<char>, Seq<char>, Option<i64>, Option<JsonV>) {
    (
        o.id@,
        o.object@,
        o.owned_by@,
        o.created,
        match o.metadata {
            Some(m) => Some(m@),
            None => None,
        },
    )
}

pub open spec fn object_views(v: Seq<ModelObject>) -> Seq<(Seq<char>, Seq<char>, Seq<char>, Option<i64>, Option<JsonV>)> {
    v.map_values(|o: ModelObject| object_view(o))
}

/// A string, or `null` for none.
pub open spec fn str_or_null(s: Option<Seq<char>>) -> JsonV {
    match s {
        Some(t) => JsonV::Str(t),
        None => JsonV::Null,
    }
}

/// The entry of a mode: the virtual id, owned by the application, with the
/// mode and the tag it resolves to (`null` when it does not resolve).
pub open spec fn virtual_object(mode: Seq<char>, resolved: Option<Seq<char>>) -> (Seq<char>, Seq<char>, Seq<char>, Option<i64>, Option<JsonV>) {
    (
        VIRTUAL_PREFIX@ + mode,
        "model"@,
        "anyai"@,
        None,
        Some(JsonV::Obj(seq![
            ("mode"@, JsonV::Str(mode)),
            ("resolved_to"@, str_or_null(resolved)),
        ])),
    )
}

/// The entry of an installed tag, owned by the daemon, with its size.
pub open spec fn pulled_object(name: Seq<char>, size: u64) -> (Seq<char>, Seq<char>, Seq<char>, Option<i64>, Option<JsonV>) {
    (name, "model"@, "ollama"@, None, Some(JsonV::Obj(seq![("size_bytes"@, JsonV::Num(spec_dec(size as nat)))])))
}

pub open spec fn mode_views(v: Seq<(String, Option<String>)>) -> Seq<(Seq<char>, Option<Seq<char>>)> {
    v.map_values(|p: (String, Option<String>)| (p.0@, match p.1 {
        Some(t) => Some(t@),
        None => None,
    }))
}

/// The listing: the modes' entries in order, then the installed tags'.
pub open spec fn spec_model_list(
    modes: Seq<(Seq<char>, Option<Seq<char>>)>,
    pulled: Seq<(Seq<char>, u64)>,
) -> Seq<(Seq<char>, Seq<char>, Seq<char>, Option<i64>, Option<JsonV>)> {
    modes.map_values(|p: (Seq<char>, Option<Seq<char>>)| virtual_object(p.0, p.1))
        + pulled.map_values(|p: (Seq<char>, u64)| pulled_object(p.0, p.1))
}

fn entry(key: &str, v: Json) -> (r: (String, Json))
    ensures
        r.0@ == key@,
        r.1@ == v@,
{
    (key.to_string(), v)
}

fn mode_object(mode: &String, resolved: &Option<String>) -> (r: ModelObject)
    ensures
        object_view(r) == virtual_object(mode@, match resolved {
            Some(t) => Some(t@),
            None => None,
        }),
{
    let to = match resolved {
        Some(t) => Json::Str(t.clone()),
        None => Json::Null,
    };
    let mut es: Vec<(String, Json)> = Vec::new();
    es.push(entry("mode", Json::Str(mode.clone())));
    es.push(entry("resolved_to", to));
    let meta = Json::Obj(es);
    let ghost ro = match resolved {
        Some(t) => Some(t@),
        None => None,
    };
    let ghost rv = str_or_null(ro);
    proof {
        crate::json::lemma_view_entries(es@);
        assert(view_entries(es@) =~= seq![("mode"@, JsonV::Str(mode@)), ("resolved_to"@, rv)]);
    }
    let id = concat(VIRTUAL_PREFIX, mode.as_str());
    let owner = "anyai".to_string();
    ModelObject { id, object: "model", owned_by: owner, created: None, metadata: Some(meta) }
}

fn pulled_entry(m: &ModelInfo) -> (r: ModelObject)
    ensures
        object_view(r) == pulled_object(m.name@, m.size),
{
    let ds = dec_chars(m.size as u128);
    let mut es: Vec<(String, Json)> = Vec::new();
    es.push(entry("size_bytes", Json::Num(string_of(ds.as_slice()))));
    let meta = Json::Obj(es);
    proof {
        crate::json::lemma_view_entries(es@);
        assert(view_entries(es@) =~= seq![("size_bytes"@, JsonV::Num(spec_dec(m.size as nat)))]);
    }
    ModelObject {
        id: m.name.clone(),
        object: "model",
        owned_by: "ollama".to_string(),
        created: None,
        metadata: Some(meta),
    }
}

/// The `/v1/models` listing of the given modes (each with the tag it
/// resolves to, if any) and installed tags.
pub fn model_list(modes: &[(String, Option<String>)], pulled: &[ModelInfo]) -> (r: ModelList)
    ensures
        r.object@ == "list"@,
        object_views(r.data@) == spec_model_list(mode_views(modes@), info_views(pulled@)),
{
    let mut data: Vec<ModelObject> = Vec::new();
    let mut i: usize = 0;
    while i < modes.len()
        invariant
            i <= modes@.len(),
            object_views(data@) == spec_model_list(mode_views(modes@.take(i as int)), Seq::empty()),
        decreases modes@.len() - i,
    {
        let o = mode_object(&modes[i].0, &modes[i].1);
        let ghost before = data@;
        data.push(o);
        proof {
            assert(modes@.take(i + 1) =~= modes@.take(i as int).push(modes@[i as int]));
            assert(object_views(data@) =~= object_views(before).push(object_view(o)));
            assert(spec_model_list(mode_views(modes@.take(i + 1)), Seq::empty()) =~= spec_model_list(
                mode_views(modes@.take(i as int)),
                Seq::empty(),
            ).push(object_view(o)));
        }
        i = i + 1;
    }
    proof {
        assert(modes@.take(modes@.len() as int) =~= modes@);
    }
    let ghost head = data@;
    let mut j: usize = 0;
    while j < pulled.len()
        invariant
            j <= pulled@.len(),
            object_views(data@) == spec_model_list(mode_views(modes@), info_views(pulled@.take(j as int))),
        decreases pulled@.len() - j,
    {
        let o = pulled_entry(&pulled[j]);
        let ghost before = data@;
        data.push(o);
        proof {
            assert(pulled@.take(j + 1) =~= pulled@.take(j as int).push(pulled@[j as int]));
            assert(object_views(data@) =~= object_views(before).push(object_view(o)));
            assert(spec_model_list(mode_views(modes@), info_views(pulled@.take(j + 1))) =~= spec_model_list(
                mode_views(modes@),
                info_views(pulled@.take(j as int)),
            ).push(object_view(o)));
        }
        j = j + 1;
    }
    proof {
        assert(pulled@.take(pulled@.len() as int) =~= pulled@);
    }
    ModelList { object: "list", data }
}

/// An entry as the response writes it: `id`, `object`, `owned_by`, then
/// `created` and `metadata` when they are there.
pub open spec fn object_json(o: (Seq<char>, Seq<char>, Seq<char>, Option<i64>, Option<JsonV>)) -> JsonV {
    JsonV::Obj(
        seq![("id"@, JsonV::Str(o.0)), ("object"@, JsonV::Str(o.1)), ("owned_by"@, JsonV::Str(o.2))] + match o.3 {
            Some(c) => seq![("created"@, JsonV::Num(crate::iso::fmt_int(c as int, 1)))],
            None => Seq::empty(),
        } + match o.4 {
            Some(m) => seq![("metadata"@, m)],
            None => Seq::empty(),
        },
    )
}

/// The listing as the response writes it.
pub open spec fn list_json(object: Seq<char>, data: Seq<(Seq<char>, Seq<char>, Seq<char>, Option<i64>, Option<JsonV>)>) -> JsonV {
    JsonV::Obj(
        seq![
            ("object"@, JsonV::Str(object)),
            ("data"@, JsonV::Arr(objects_json(data))),
        ],
    )
}

pub open spec fn objects_json(data: Seq<(Seq<char>, Seq<char>, Seq<char>, Option<i64>, Option<JsonV>)>) -> Seq<JsonV> {
    data.map_values(|o: (Seq<char>, Seq<char>, Seq<char>, Option<i64>, Option<JsonV>)| object_json(o))
}

fn object_to_json(o: &ModelObject) -> (r: Json)
    ensures
        r@ == object_json(object_view(*o)),
{
    let mut es: Vec<(String, Json)> = Vec::new();
    es.push(entry("id", Json::Str(o.id.clone())));
    es.push(entry("object", Json::Str(o.object.to_string())));
    es.push(entry("owned_by", Json::Str(o.owned_by.clone())));
    let ghost head = crate::json::view_entries(es@);
    proof {
        crate::json::lemma_view_entries(es@);
        assert(head =~= seq![("id"@, JsonV::Str(o.id@)), ("object"@, JsonV::Str(o.object@)), ("owned_by"@, JsonV::Str(o.owned_by@))]);
    }
    let ghost c_part: Seq<(Seq<char>, JsonV)> = match o.created {
        Some(c) => seq![("created"@, JsonV::Num(crate::iso::fmt_int(c as int, 1)))],
        None => Seq::empty(),
    };
    match o.created {
        Some(c) => {
            let mut digits: Vec<char> = Vec::new();
            crate::iso::fmt_int_exec(c as i128, 1, &mut digits);
            proof {
                assert(digits@ =~= crate::iso::fmt_int(c as int, 1));
            }
            let ghost before = es@;
            es.push(entry("created", Json::Num(string_of(digits.as_slice()))));
            proof {
                crate::json::lemma_view_entries(before);
                crate::json::lemma_view_entries(es@);
                assert(crate::json::view_entries(es@) =~= head + c_part);
            }
        },
        None => {
            proof {
                assert(crate::json::view_entries(es@) =~= head + c_part);
            }
        },
    }
    let ghost mid = crate::json::view_entries(es@);
    match &o.metadata {
        Some(m) => {
            let ghost before = es@;
            es.push(entry("metadata", m.deep_clone()));
            proof {
                crate::json::lemma_view_entries(before);
                crate::json::lemma_view_entries(es@);
                assert(crate::json::view_entries(es@) =~= mid + seq![("metadata"@, m@)]);
            }
        },
        None => {
            proof {
                assert(crate::json::view_entries(es@) =~= mid + Seq::<(Seq<char>, JsonV)>::empty());
            }
        },
    }
    Json::Obj(es)
}

/// The `/v1/models` response as a document: what serde writes for the
/// listing, with empty `created` and `metadata` left out.
pub fn model_list_json(list: &ModelList) -> (r: Json)
    ensures
        r@ == list_json(list.object@, object_views(list.data@)),
{
    let ghost ov = object_views(list.data@);
    let mut items: Vec<Json> = Vec::new();
    let mut i: usize = 0;
    while i < list.data.len()
        invariant
            i <= list.data@.len(),
            ov == object_views(list.data@),
            crate::json::view_items(items@) == objects_json(ov.take(i as int)),
        decreases list.data@.len() - i,
    {
        let x = object_to_json(&list.data[i]);
        let ghost xv = x@;
        proof {
            assert(xv == object_json(object_view(list.data@[i as int])));
        }
        let ghost before = items@;
        items.push(x);
        proof {
            crate::json::lemma_view_items_push(before, x);
            assert(ov[i as int] == object_view(list.data@[i as int]));
            assert(crate::json::view_json(x) == xv);
            assert(objects_json(ov.take(i + 1)) =~= objects_json(ov.take(i as int)).push(object_json(ov[i as int])));
        }
        i = i + 1;
    }
    proof {
        assert(ov.take(list.data@.len() as int) =~= ov);
    }
    let mut es: Vec<(String, Json)> = Vec::new();
    es.push(entry("object", Json::Str(list.object.to_string())));
    es.push(entry("data", Json::Arr(items)));
    proof {
        crate::json::lemma_view_entries(es@);
        assert(crate::json::view_entries(es@) =~= seq![
            ("object"@, JsonV::Str(list.object@)),
            ("data"@, JsonV::Arr(objects_json(ov))),
        ]);
    }
    Json::Obj(es)
}

} // verus!
