//! Manifest resolution: which family the user runs, which tier of a mode's
//! ladder the host qualifies for, and which runtime serves it.
//!
//! A manifest exposes named families; each family owns a per-mode table of
//! tiers, tried in order. A tier carries thresholds for discrete-GPU hosts
//! (`min_vram_gb`, and `min_ram_gb` taken after the manifest's headroom) and
//! for unified-memory hosts (`min_unified_ram_gb`, raw RAM).

use vstd::prelude::*;
use crate::hardware::{
    default_headroom_nano_gb, gpu_key, is_unified_memory, spec_default_headroom, spec_gpu_key,
    spec_is_unified, HardwareProfile,
};
use crate::json::{entries_get, lookup, str_eq, view_entries, view_items, Json, JsonV};
use crate::num::{json_nano, nano_of};
use crate::sorted::{sort_dedup, strictly_sorted, views};
use crate::json::{lemma_view_items, lemma_view_entries};

verus! {

/// The prefix that marks a virtual model id, such as `myownllm-text`.
pub const VIRTUAL_PREFIX: &'static str = "myownllm-";

/// The value under `key` of an entry list, when it is a string.
pub open spec fn str_field(es: Seq<(Seq<char>, JsonV)>, key: Seq<char>) -> Option<Seq<char>> {
    match entries_get(es, key) {
        Some(v) => v.as_str(),
        None => None,
    }
}

/// The object under `key` of an entry list, when it is one.
pub open spec fn obj_field(es: Seq<(Seq<char>, JsonV)>, key: Seq<char>) -> Option<
    Seq<(Seq<char>, JsonV)>,
> {
    match entries_get(es, key) {
        Some(v) => v.as_obj(),
        None => None,
    }
}

/// `v.get(key)` followed by `as_object`.
pub open spec fn get_obj(v: Option<JsonV>, key: Seq<char>) -> Option<Seq<(Seq<char>, JsonV)>> {
    match v {
        Some(x) => match x.get(key) {
            Some(y) => y.as_obj(),
            None => None,
        },
        None => None,
    }
}

/// The runtime a mode gets when its spec names none: whisper for
/// transcription, Ollama for everything else.
pub open spec fn spec_default_runtime(mode: Seq<char>) -> Seq<char> {
    if mode == "transcribe"@ {
        "whisper"@
    } else {
        "ollama"@
    }
}

pub fn default_runtime_for(mode: &str) -> (r: &'static str)
    ensures
        r@ == spec_default_runtime(mode@),
{
    if str_eq(mode, "transcribe") {
        "whisper"
    } else {
        "ollama"
    }
}

/// The family `k` of a family table, when `k` is non-empty and names an
/// object there.
pub open spec fn family_named(fams: Seq<(Seq<char>, JsonV)>, k: Seq<char>) -> Option<
    Seq<(Seq<char>, JsonV)>,
> {
    if k.len() == 0 {
        None
    } else {
        obj_field(fams, k)
    }
}

/// The family a manifest serves for a request: the requested one, else the
/// manifest's `default_family`, else the first family in document order.
pub open spec fn spec_pick_family(m: JsonV, requested: Seq<char>) -> Option<
    (Seq<char>, Seq<(Seq<char>, JsonV)>),
> {
    match m.at("families"@).as_obj() {
        None => None,
        Some(fams) => {
            let dflt = match m.at("default_family"@).as_str() {
                Some(s) => s,
                None => Seq::empty(),
            };
            match family_named(fams, requested) {
                Some(f) => Some((requested, f)),
                None => match family_named(fams, dflt) {
                    Some(f) => Some((dflt, f)),
                    None => if fams.len() > 0 {
                        match fams[0].1.as_obj() {
                            Some(f) => Some((fams[0].0, f)),
                            None => None,
                        }
                    } else {
                        None
                    },
                },
            }
        },
    }
}

/// The family `k` of `fams`, when `k` is non-empty and names an object.
fn family_by_name<'a>(fams: &'a Vec<(String, Json)>, k: &str) -> (r: Option<
    &'a Vec<(String, Json)>,
>)
    ensures
        r is Some == family_named(view_entries(fams@), k@) is Some,
        r is Some ==> view_entries(r->0@) == family_named(view_entries(fams@), k@)->0,
{
    if k.is_empty() {
        return None;
    }
    match lookup(fams, k) {
        Some(v) => v.as_object(),
        None => None,
    }
}

/// Pick the family the user selected, falling back to the manifest's
/// `default_family` and then to the first family in document order.
pub fn pick_family<'a>(manifest: &'a Json, requested: &str) -> (r: Option<
    (String, &'a Vec<(String, Json)>),
>)
    ensures
        r is Some == spec_pick_family(manifest@, requested@) is Some,
        r is Some ==> (r->0).0@ == (spec_pick_family(manifest@, requested@)->0).0,
        r is Some ==> view_entries((r->0).1@) == (spec_pick_family(manifest@, requested@)->0).1,
{
    let fams_v = match manifest.get("families") {
        Some(v) => v,
        None => {
            return None;
        },
    };
    let fams = match fams_v.as_object() {
        Some(f) => f,
        None => {
            return None;
        },
    };
    let dflt: &str = match manifest.get("default_family") {
        Some(d) => match d.as_str() {
            Some(s) => s,
            None => "",
        },
        None => "",
    };
    proof {
        assert(dflt@ == (match manifest@.at("default_family"@).as_str() {
            Some(s) => s,
            None => Seq::<char>::empty(),
        })) by {
            if manifest@.get("default_family"@) is None || manifest@.at(
                "default_family"@,
            ).as_str() is None {
                reveal_strlit("");
            }
        }
    }
    if let Some(f) = family_by_name(fams, requested) {
        return Some((requested.to_string(), f));
    }
    if let Some(f) = family_by_name(fams, dflt) {
        return Some((dflt.to_string(), f));
    }
    if fams.len() == 0 {
        return None;
    }
    proof {
        crate::json::lemma_view_entries(fams@);
    }
    match fams[0].1.as_object() {
        Some(f) => Some((fams[0].0.clone(), f)),
        None => None,
    }
}


/// Why a manifest gives no model for a request.
#[derive(Debug, Clone, Copy, PartialEq, Eq, Structural)]
pub enum ResolveError {
    /// The manifest has no usable family.
    NoFamilies,
    /// Neither the mode nor the family's default mode is declared.
    ModeNotFound,
    /// The mode's spec has no `tiers` array.
    NoTiers,
    /// No tier names a model.
    NoModel,
}

/// The spec object of `mode` under `modes` of a family.
pub open spec fn family_mode(fam: Seq<(Seq<char>, JsonV)>, mode: Seq<char>) -> Option<
    Seq<(Seq<char>, JsonV)>,
> {
    get_obj(entries_get(fam, "modes"@), mode)
}

/// The spec object of a mode: the family's own declaration, else the
/// manifest's `shared_modes` block.
pub open spec fn spec_exact_mode(m: JsonV, fam: Seq<(Seq<char>, JsonV)>, mode: Seq<char>) -> Option<
    Seq<(Seq<char>, JsonV)>,
> {
    match family_mode(fam, mode) {
        Some(s) => Some(s),
        None => get_obj(m.get("shared_modes"@), mode),
    }
}

/// The runtime bound to a mode: the one its spec names, else the default
/// for the mode.
pub open spec fn spec_mode_spec_runtime(exact: Option<Seq<(Seq<char>, JsonV)>>, mode: Seq<char>) -> Seq<
    char,
> {
    match exact {
        Some(es) => match str_field(es, "runtime"@) {
            Some(r) => r,
            None => spec_default_runtime(mode),
        },
        None => spec_default_runtime(mode),
    }
}

/// A number, or zero when the value is not one.
pub open spec fn num_or_zero(v: JsonV) -> int {
    match json_nano(v) {
        Some(x) => x,
        None => 0,
    }
}

/// The headroom a manifest reserves for a GPU class, in billionths of a GB.
pub open spec fn spec_headroom(m: JsonV, gpu: crate::hardware::GpuType) -> int {
    match m.get("headroom_gb"@) {
        Some(h) => match json_nano(h.at(spec_gpu_key(gpu))) {
            Some(x) => x,
            None => spec_default_headroom(gpu),
        },
        None => spec_default_headroom(gpu),
    }
}

/// Raw RAM a tier needs on a unified-memory host: `min_unified_ram_gb`
/// when given, else `min_ram_gb` plus the headroom.
pub open spec fn spec_unified_threshold(tier: JsonV, headroom: int) -> int {
    match json_nano(tier.at("min_unified_ram_gb"@)) {
        Some(u) => u,
        None => num_or_zero(tier.at("min_ram_gb"@)) + headroom,
    }
}

/// Whether a host qualifies for a tier. Unified memory: raw RAM against the
/// unified threshold. Discrete GPU: VRAM against `min_vram_gb`, or RAM less
/// the headroom (never below zero) against `min_ram_gb`.
pub open spec fn spec_tier_matches(tier: JsonV, hw: HardwareProfile, unified: bool, headroom: int) -> bool {
    if unified {
        hw.ram_nano_gb >= spec_unified_threshold(tier, headroom)
    } else {
        let vram: int = match hw.vram_nano_gb {
            Some(v) => v as int,
            None => 0,
        };
        let budget: int = if hw.ram_nano_gb - headroom > 0 {
            hw.ram_nano_gb - headroom
        } else {
            0
        };
        vram >= num_or_zero(tier.at("min_vram_gb"@)) || budget >= num_or_zero(tier.at("min_ram_gb"@))
    }
}

/// The model of the first tier the host qualifies for that names one.
pub open spec fn spec_pick_tier(tiers: Seq<JsonV>, hw: HardwareProfile, unified: bool, headroom: int) -> Option<
    Seq<char>,
>
    decreases tiers.len(),
{
    if tiers.len() == 0 {
        None
    } else if spec_tier_matches(tiers[0], hw, unified, headroom) && tiers[0].at(
        "model"@,
    ).as_str() is Some {
        tiers[0].at("model"@).as_str()
    } else {
        spec_pick_tier(tiers.drop_first(), hw, unified, headroom)
    }
}

/// The `(model, runtime)` a manifest gives a mode on a host, or why none.
pub open spec fn spec_resolve(m: JsonV, hw: HardwareProfile, mode: Seq<char>, family: Seq<char>) -> Result<
    (Seq<char>, Seq<char>),
    ResolveError,
> {
    match spec_pick_family(m, family) {
        None => Err(ResolveError::NoFamilies),
        Some(picked) => {
            let fam = picked.1;
            let exact = spec_exact_mode(m, fam, mode);
            let runtime = spec_mode_spec_runtime(exact, mode);
            if exact is None && runtime == "whisper"@ {
                Ok(("tiny.en"@, runtime))
            } else {
                let dm = match str_field(fam, "default_mode"@) {
                    Some(d) => d,
                    None => "text"@,
                };
                let tier_spec = match exact {
                    Some(e) => Some(e),
                    None => family_mode(fam, dm),
                };
                match tier_spec {
                    None => Err(ResolveError::ModeNotFound),
                    Some(ts) => match entries_get(ts, "tiers"@) {
                        Some(tv) => match tv.as_arr() {
                            Some(tiers) => {
                                let unified = spec_is_unified(hw.gpu_type);
                                let headroom = spec_headroom(m, hw.gpu_type);
                                match spec_pick_tier(tiers, hw, unified, headroom) {
                                    Some(model) => Ok((model, runtime)),
                                    None => if tiers.len() > 0 && tiers.last().at(
                                        "model"@,
                                    ).as_str() is Some {
                                        Ok((tiers.last().at("model"@).as_str()->0, runtime))
                                    } else {
                                        Err(ResolveError::NoModel)
                                    },
                                }
                            },
                            None => Err(ResolveError::NoTiers),
                        },
                        None => Err(ResolveError::NoTiers),
                    },
                }
            }
        },
    }
}

/// `value.get(key)` followed by `as_object`.
fn get_object<'a>(v: Option<&'a Json>, key: &str) -> (r: Option<&'a Vec<(String, Json)>>)
    ensures
        r is Some == get_obj(
            match v {
                Some(x) => Some(x@),
                None => None,
            },
            key@,
        ) is Some,
        r is Some ==> view_entries(r->0@) == get_obj(
            match v {
                Some(x) => Some(x@),
                None => None,
            },
            key@,
        )->0,
{
    match v {
        Some(x) => match x.get(key) {
            Some(y) => y.as_object(),
            None => None,
        },
        None => None,
    }
}

/// The entry `key` of an object, when it is a string.
fn str_in<'a>(es: &'a Vec<(String, Json)>, key: &str) -> (r: Option<&'a str>)
    ensures
        r is Some == str_field(view_entries(es@), key@) is Some,
        r is Some ==> r->0@ == str_field(view_entries(es@), key@)->0,
{
    match lookup(es, key) {
        Some(v) => v.as_str(),
        None => None,
    }
}

/// A number in billionths, or zero when the value is not one.
fn nano_or_zero(v: Option<&Json>) -> (r: i128)
    ensures
        r == num_or_zero(
            match v {
                Some(x) => x@,
                None => JsonV::Null,
            },
        ),
        -1000000000000000000000000000000 < r < 1000000000000000000000000000000,
{
    match v {
        Some(x) => match nano_of(x) {
            Some(n) => n,
            None => 0,
        },
        None => 0,
    }
}

/// The headroom a manifest reserves for the host's GPU class.
fn headroom_nano_gb(manifest: &Json, gpu: crate::hardware::GpuType) -> (r: i128)
    ensures
        r == spec_headroom(manifest@, gpu),
        -1000000000000000000000000000000 < r < 1000000000000000000000000000000,
{
    match manifest.get("headroom_gb") {
        Some(h) => {
            let key = gpu_key(gpu);
            match h.get(key) {
                Some(v) => match nano_of(v) {
                    Some(x) => x,
                    None => default_headroom_nano_gb(gpu),
                },
                None => default_headroom_nano_gb(gpu),
            }
        },
        None => default_headroom_nano_gb(gpu),
    }
}

/// Whether the host qualifies for `tier`.
fn tier_matches(tier: &Json, hw: &HardwareProfile, unified: bool, headroom: i128) -> (r: bool)
    requires
        hw.wf(),
        -1000000000000000000000000000000 < headroom < 1000000000000000000000000000000,
    ensures
        r == spec_tier_matches(tier@, *hw, unified, headroom as int),
{
    if unified {
        let threshold = match tier.get("min_unified_ram_gb") {
            Some(u) => match nano_of(u) {
                Some(x) => x,
                None => nano_or_zero(tier.get("min_ram_gb")) + headroom,
            },
            None => nano_or_zero(tier.get("min_ram_gb")) + headroom,
        };
        return hw.ram_nano_gb >= threshold;
    }
    let min_vram = nano_or_zero(tier.get("min_vram_gb"));
    let vram: i128 = match hw.vram_nano_gb {
        Some(v) => v,
        None => 0,
    };
    if vram >= min_vram {
        return true;
    }
    let min_ram = nano_or_zero(tier.get("min_ram_gb"));
    let budget: i128 = if hw.ram_nano_gb - headroom > 0 {
        hw.ram_nano_gb - headroom
    } else {
        0
    };
    budget >= min_ram
}

/// The model of the first tier the host qualifies for that names one.
fn pick_tier<'a>(tiers: &'a Vec<Json>, hw: &HardwareProfile, unified: bool, headroom: i128) -> (r: Option<
    &'a str,
>)
    requires
        hw.wf(),
        -1000000000000000000000000000000 < headroom < 1000000000000000000000000000000,
    ensures
        r is Some == spec_pick_tier(view_items(tiers@), *hw, unified, headroom as int) is Some,
        r is Some ==> r->0@ == spec_pick_tier(view_items(tiers@), *hw, unified, headroom as int)->0,
{
    let ghost t = view_items(tiers@);
    proof {
        crate::json::lemma_view_items(tiers@);
        assert(t.skip(0) == t);
    }
    let mut i: usize = 0;
    while i < tiers.len()
        invariant
            i <= tiers.len(),
            hw.wf(),
            -1000000000000000000000000000000 < headroom < 1000000000000000000000000000000,
            t == view_items(tiers@),
            t.len() == tiers@.len(),
            forall|j: int| 0 <= j < tiers@.len() ==> #[trigger] t[j] == tiers@[j]@,
            spec_pick_tier(t.skip(i as int), *hw, unified, headroom as int) == spec_pick_tier(
                t,
                *hw,
                unified,
                headroom as int,
            ),
        decreases tiers.len() - i,
    {
        let tier = &tiers[i];
        proof {
            assert(t.skip(i as int)[0] == t[i as int]);
            assert(t.skip(i as int).drop_first() == t.skip(i as int + 1));
        }
        if tier_matches(tier, hw, unified, headroom) {
            match tier.get("model") {
                Some(m) => match m.as_str() {
                    Some(s) => {
                        return Some(s);
                    },
                    None => {},
                },
                None => {},
            }
        }
        i = i + 1;
    }
    proof {
        assert(t.skip(i as int).len() == 0);
    }
    None
}

/// Resolve a mode to `(model, runtime)` against the chosen family's tier
/// table. The runtime comes from the requested mode's own spec, never from
/// the default mode it may fall back to.
pub fn resolve_full(manifest: &Json, hw: &HardwareProfile, mode: &str, active_family: &str) -> (r:
    Result<(String, String), ResolveError>)
    requires
        hw.wf(),
    ensures
        match (r, spec_resolve(manifest@, *hw, mode@, active_family@)) {
            (Ok(p), Ok(q)) => p.0@ == q.0 && p.1@ == q.1,
            (Err(e), Err(f)) => e == f,
            _ => false,
        },
{
    let (_name, fam) = match pick_family(manifest, active_family) {
        Some(p) => p,
        None => {
            return Err(ResolveError::NoFamilies);
        },
    };
    let own = get_object(lookup(fam, "modes"), mode);
    let exact = match own {
        Some(e) => Some(e),
        None => get_object(manifest.get("shared_modes"), mode),
    };
    let runtime: &str = match exact {
        Some(e) => match str_in(e, "runtime") {
            Some(rt) => rt,
            None => default_runtime_for(mode),
        },
        None => default_runtime_for(mode),
    };
    if exact.is_none() && str_eq(runtime, "whisper") {
        return Ok(("tiny.en".to_string(), runtime.to_string()));
    }
    let dm: &str = match str_in(fam, "default_mode") {
        Some(d) => d,
        None => "text",
    };
    let tier_spec = match exact {
        Some(e) => Some(e),
        None => get_object(lookup(fam, "modes"), dm),
    };
    let ts = match tier_spec {
        Some(ts) => ts,
        None => {
            return Err(ResolveError::ModeNotFound);
        },
    };
    let tiers = match lookup(ts, "tiers") {
        Some(tv) => match tv.as_array() {
            Some(a) => a,
            None => {
                return Err(ResolveError::NoTiers);
            },
        },
        None => {
            return Err(ResolveError::NoTiers);
        },
    };
    let unified = is_unified_memory(hw);
    let headroom = headroom_nano_gb(manifest, hw.gpu_type);
    if let Some(model) = pick_tier(tiers, hw, unified, headroom) {
        return Ok((model.to_string(), runtime.to_string()));
    }
    let n = tiers.len();
    if n == 0 {
        return Err(ResolveError::NoModel);
    }
    proof {
        crate::json::lemma_view_items(tiers@);
    }
    match tiers[n - 1].get("model") {
        Some(m) => match m.as_str() {
            Some(s) => Ok((s.to_string(), runtime.to_string())),
            None => Err(ResolveError::NoModel),
        },
        None => Err(ResolveError::NoModel),
    }
}

/// The model `resolve_full` picks.
pub fn resolve_in_manifest(manifest: &Json, hw: &HardwareProfile, mode: &str, active_family: &str) -> (r:
    Result<String, ResolveError>)
    requires
        hw.wf(),
    ensures
        match (r, spec_resolve(manifest@, *hw, mode@, active_family@)) {
            (Ok(p), Ok(q)) => p@ == q.0,
            (Err(e), Err(f)) => e == f,
            _ => false,
        },
{
    match resolve_full(manifest, hw, mode, active_family) {
        Ok((model, _runtime)) => Ok(model),
        Err(e) => Err(e),
    }
}


/// The runtime named under `mode` of a `modes` block, if any.
pub open spec fn runtime_in(block: Option<JsonV>, mode: Seq<char>) -> Option<Seq<char>> {
    match block {
        Some(ms) => match ms.get(mode) {
            Some(x) => match x.get("runtime"@) {
                Some(r) => r.as_str(),
                None => None,
            },
            None => None,
        },
        None => None,
    }
}

/// The runtime of a mode under the chosen family: the family's declaration,
/// else the shared one, else the default for the mode.
pub open spec fn spec_mode_runtime(m: JsonV, mode: Seq<char>, family: Seq<char>) -> Option<Seq<char>> {
    match spec_pick_family(m, family) {
        None => None,
        Some(p) => Some(
            match runtime_in(entries_get(p.1, "modes"@), mode) {
                Some(r) => r,
                None => match runtime_in(m.get("shared_modes"@), mode) {
                    Some(r) => r,
                    None => spec_default_runtime(mode),
                },
            },
        ),
    }
}

fn runtime_of<'a>(block: Option<&'a Json>, mode: &str) -> (r: Option<&'a str>)
    ensures
        r is Some == runtime_in(
            match block {
                Some(b) => Some(b@),
                None => None,
            },
            mode@,
        ) is Some,
        r is Some ==> r->0@ == runtime_in(
            match block {
                Some(b) => Some(b@),
                None => None,
            },
            mode@,
        )->0,
{
    match block {
        Some(ms) => match ms.get(mode) {
            Some(x) => match x.get("runtime") {
                Some(rt) => rt.as_str(),
                None => None,
            },
            None => None,
        },
        None => None,
    }
}

/// The runtime that serves `mode` under the chosen family; `None` only when
/// the manifest has no usable family.
pub fn mode_runtime(manifest: &Json, mode: &str, active_family: &str) -> (r: Option<String>)
    ensures
        r is Some == spec_mode_runtime(manifest@, mode@, active_family@) is Some,
        r is Some ==> r->0@ == spec_mode_runtime(manifest@, mode@, active_family@)->0,
{
    let (_name, fam) = match pick_family(manifest, active_family) {
        Some(p) => p,
        None => {
            return None;
        },
    };
    let declared = match runtime_of(lookup(fam, "modes"), mode) {
        Some(rt) => rt,
        None => match runtime_of(manifest.get("shared_modes"), mode) {
            Some(rt) => rt,
            None => default_runtime_for(mode),
        },
    };
    Some(declared.to_string())
}

/// The string in an optional value, as a list of zero or one items.
pub open spec fn opt_str_seq(v: JsonV) -> Seq<Seq<char>> {
    match v.as_str() {
        Some(s) => seq![s],
        None => Seq::empty(),
    }
}

/// The `model` and `fallback` tags of each tier, in order.
pub open spec fn tier_tags(ts: Seq<JsonV>) -> Seq<Seq<char>>
    decreases ts.len(),
{
    if ts.len() == 0 {
        Seq::empty()
    } else {
        tier_tags(ts.drop_last()) + opt_str_seq(ts.last().at("model"@)) + opt_str_seq(
            ts.last().at("fallback"@),
        )
    }
}

/// The tags a mode spec recommends to Ollama: none when its runtime is
/// another one.
pub open spec fn mode_tags(spec: JsonV) -> Seq<Seq<char>> {
    let rt = match spec.get("runtime"@) {
        Some(r) => match r.as_str() {
            Some(x) => x,
            None => "ollama"@,
        },
        None => "ollama"@,
    };
    if rt != "ollama"@ {
        Seq::empty()
    } else {
        match spec.at("tiers"@).as_arr() {
            Some(ts) => tier_tags(ts),
            None => Seq::empty(),
        }
    }
}

/// The tags of every mode of a `modes` block, in order.
pub open spec fn modes_tags(ms: Seq<(Seq<char>, JsonV)>) -> Seq<Seq<char>>
    decreases ms.len(),
{
    if ms.len() == 0 {
        Seq::empty()
    } else {
        modes_tags(ms.drop_last()) + mode_tags(ms.last().1)
    }
}

/// The tags of every family, in order.
pub open spec fn families_tags(fs: Seq<(Seq<char>, JsonV)>) -> Seq<Seq<char>>
    decreases fs.len(),
{
    if fs.len() == 0 {
        Seq::empty()
    } else {
        families_tags(fs.drop_last()) + match fs.last().1.at("modes"@).as_obj() {
            Some(ms) => modes_tags(ms),
            None => Seq::empty(),
        }
    }
}

/// Every Ollama tag a manifest recommends, across all families, their
/// modes and tiers, and the shared modes, counted with repetition.
pub open spec fn spec_manifest_tags(m: JsonV) -> Seq<Seq<char>> {
    (match m.at("families"@).as_obj() {
        Some(fs) => families_tags(fs),
        None => Seq::empty(),
    }) + (match m.at("shared_modes"@).as_obj() {
        Some(sm) => modes_tags(sm),
        None => Seq::empty(),
    })
}

fn push_str_of(out: &mut Vec<String>, v: Option<&Json>)
    ensures
        views(final(out)@) == views(old(out)@) + opt_str_seq(
            match v {
                Some(x) => x@,
                None => JsonV::Null,
            },
        ),
{
    match v {
        Some(x) => match x.as_str() {
            Some(s) => {
                out.push(s.to_string());
                proof {
                    assert(views(out@) =~= views(old(out)@) + seq![s@]);
                }
            },
            None => {
                proof {
                    assert(views(out@) =~= views(old(out)@) + Seq::<Seq<char>>::empty());
                }
            },
        },
        None => {
            proof {
                assert(views(out@) =~= views(old(out)@) + Seq::<Seq<char>>::empty());
            }
        },
    }
}

fn push_mode_tags(out: &mut Vec<String>, spec: &Json)
    ensures
        views(final(out)@) == views(old(out)@) + mode_tags(spec@),
{
    let rt: &str = match spec.get("runtime") {
        Some(r) => match r.as_str() {
            Some(x) => x,
            None => "ollama",
        },
        None => "ollama",
    };
    if !str_eq(rt, "ollama") {
        proof {
            assert(views(out@) =~= views(old(out)@) + Seq::<Seq<char>>::empty());
        }
        return;
    }
    let tiers = match spec.get("tiers") {
        Some(t) => match t.as_array() {
            Some(a) => a,
            None => {
                proof {
                    assert(views(out@) =~= views(old(out)@) + Seq::<Seq<char>>::empty());
                }
                return;
            },
        },
        None => {
            proof {
                assert(views(out@) =~= views(old(out)@) + Seq::<Seq<char>>::empty());
            }
            return;
        },
    };
    let ghost ts = view_items(tiers@);
    proof {
        lemma_view_items(tiers@);
        assert(ts.take(0) =~= Seq::<JsonV>::empty());
        assert(views(out@) =~= views(old(out)@) + tier_tags(ts.take(0)));
    }
    let mut i: usize = 0;
    while i < tiers.len()
        invariant
            i <= tiers@.len(),
            ts == view_items(tiers@),
            ts.len() == tiers@.len(),
            forall|j: int| 0 <= j < tiers@.len() ==> #[trigger] ts[j] == tiers@[j]@,
            views(out@) == views(old(out)@) + tier_tags(ts.take(i as int)),
        decreases tiers.len() - i,
    {
        let ghost before = views(out@);
        push_str_of(out, tiers[i].get("model"));
        push_str_of(out, tiers[i].get("fallback"));
        proof {
            let p = ts.take(i as int + 1);
            assert(p.drop_last() =~= ts.take(i as int));
            assert(p.last() == tiers@[i as int]@);
            assert(views(out@) =~= views(old(out)@) + tier_tags(p));
        }
        i = i + 1;
    }
    proof {
        assert(ts.take(i as int) =~= ts);
    }
}

fn push_modes_tags(out: &mut Vec<String>, ms: &Vec<(String, Json)>)
    ensures
        views(final(out)@) == views(old(out)@) + modes_tags(view_entries(ms@)),
{
    let ghost es = view_entries(ms@);
    proof {
        lemma_view_entries(ms@);
        assert(es.take(0) =~= Seq::<(Seq<char>, JsonV)>::empty());
        assert(views(out@) =~= views(old(out)@) + modes_tags(es.take(0)));
    }
    let mut i: usize = 0;
    while i < ms.len()
        invariant
            i <= ms@.len(),
            es == view_entries(ms@),
            es.len() == ms@.len(),
            forall|j: int| 0 <= j < ms@.len() ==> #[trigger] es[j] == crate::json::view_entry(ms@[j]),
            views(out@) == views(old(out)@) + modes_tags(es.take(i as int)),
        decreases ms.len() - i,
    {
        push_mode_tags(out, &ms[i].1);
        proof {
            let p = es.take(i as int + 1);
            assert(p.drop_last() =~= es.take(i as int));
            assert(p.last() == es[i as int]);
            assert(views(out@) =~= views(old(out)@) + modes_tags(p));
        }
        i = i + 1;
    }
    proof {
        assert(es.take(i as int) =~= es);
    }
}

fn push_families_tags(out: &mut Vec<String>, fs: &Vec<(String, Json)>)
    ensures
        views(final(out)@) == views(old(out)@) + families_tags(view_entries(fs@)),
{
    let ghost es = view_entries(fs@);
    proof {
        lemma_view_entries(fs@);
        assert(es.take(0) =~= Seq::<(Seq<char>, JsonV)>::empty());
        assert(views(out@) =~= views(old(out)@) + families_tags(es.take(0)));
    }
    let mut i: usize = 0;
    while i < fs.len()
        invariant
            i <= fs@.len(),
            es == view_entries(fs@),
            es.len() == fs@.len(),
            forall|j: int| 0 <= j < fs@.len() ==> #[trigger] es[j] == crate::json::view_entry(fs@[j]),
            views(out@) == views(old(out)@) + families_tags(es.take(i as int)),
        decreases fs.len() - i,
    {
        match fs[i].1.get("modes") {
            Some(mv) => match mv.as_object() {
                Some(ms) => {
                    push_modes_tags(out, ms);
                },
                None => {
                    proof {
                        assert(views(out@) =~= views(out@) + Seq::<Seq<char>>::empty());
                    }
                },
            },
            None => {
                proof {
                    assert(views(out@) =~= views(out@) + Seq::<Seq<char>>::empty());
                }
            },
        }
        proof {
            let p = es.take(i as int + 1);
            assert(p.drop_last() =~= es.take(i as int));
            assert(p.last() == es[i as int]);
            assert(views(out@) =~= views(old(out)@) + families_tags(p));
        }
        i = i + 1;
    }
    proof {
        assert(es.take(i as int) =~= es);
    }
}

/// Every Ollama tag a manifest recommends, sorted, each once.
pub fn tags_in_manifest(manifest: &Json) -> (r: Vec<String>)
    ensures
        strictly_sorted(views(r@)),
        views(r@).to_set() == spec_manifest_tags(manifest@).to_set(),
{
    let mut out: Vec<String> = Vec::new();
    proof {
        assert(views(out@) =~= Seq::<Seq<char>>::empty());
    }
    match manifest.get("families") {
        Some(f) => match f.as_object() {
            Some(fs) => push_families_tags(&mut out, fs),
            None => {},
        },
        None => {},
    }
    let ghost mid = views(out@);
    match manifest.get("shared_modes") {
        Some(sv) => match sv.as_object() {
            Some(sm) => push_modes_tags(&mut out, sm),
            None => {},
        },
        None => {},
    }
    proof {
        assert(views(out@) =~= spec_manifest_tags(manifest@));
    }
    sort_dedup(out)
}


/// The manifest used when no provider is configured.
pub open spec fn fallback_manifest_url() -> Seq<char> {
    "https://raw.githubusercontent.com/mrjeeves/MyOwnLLM/main/manifests/default.json"@
}

/// How a mode is to be resolved.
#[derive(Debug, Clone)]
pub enum ResolvePlan {
    /// The configuration pins the mode to this tag.
    Override(String),
    /// Resolve against the manifest at `url`, for family `family`.
    Manifest { url: String, family: String },
}

/// The plan for a mode: a non-empty override wins; otherwise the profile
/// URL, else the active provider's, else the default manifest, with the
/// configured family (or none).
pub open spec fn spec_plan(config: JsonV, mode: Seq<char>, profile: Option<Seq<char>>) -> (Option<Seq<char>>, Seq<char>, Seq<char>) {
    let over = config.at("mode_overrides"@).at(mode).as_str();
    let url = match profile {
        Some(u) => u,
        None => match crate::config::spec_active_provider_url(config) {
            Some(u) => u,
            None => fallback_manifest_url(),
        },
    };
    let fam = match config.at("active_family"@).as_str() {
        Some(f) => f,
        None => Seq::empty(),
    };
    (
        match over {
            Some(o) => if o.len() > 0 {
                Some(o)
            } else {
                None
            },
            None => None,
        },
        url,
        fam,
    )
}

pub fn resolve_plan(config: &Json, mode: &str, profile_url: Option<&str>) -> (r: ResolvePlan)
    ensures
        ({
            let p = spec_plan(
                config@,
                mode@,
                match profile_url {
                    Some(u) => Some(u@),
                    None => None,
                },
            );
            match r {
                ResolvePlan::Override(o) => p.0 == Some(o@),
                ResolvePlan::Manifest { url, family } => p.0 is None && url@ == p.1 && family@ == p.2,
            }
        }),
{
    let ov = crate::cli::child(config, "mode_overrides");
    match ov.get(mode) {
        Some(o) => match o.as_str() {
            Some(s) => {
                if !s.is_empty() {
                    return ResolvePlan::Override(s.to_string());
                }
            },
            None => {},
        },
        None => {},
    }
    let url: String = match profile_url {
        Some(u) => u.to_string(),
        None => match crate::config::active_provider_url(config) {
            Some(u) => u,
            None => "https://raw.githubusercontent.com/mrjeeves/MyOwnLLM/main/manifests/default.json".to_string(),
        },
    };
    let fam: &str = match config.get("active_family") {
        Some(f) => match f.as_str() {
            Some(s) => s,
            None => "",
        },
        None => "",
    };
    proof {
        reveal_strlit("");
    }
    ResolvePlan::Manifest { url, family: fam.to_string() }
}

/// The mode a requested model id stands for: `myownllm-<mode>` or a bare
/// mode name, for a known mode.
pub open spec fn spec_virtual_mode(requested: Seq<char>) -> Option<Seq<char>> {
    let p = "myownllm-"@;
    if requested.len() >= p.len() && requested.take(p.len() as int) == p && crate::cli::spec_known_mode(
        requested.skip(p.len() as int),
    ) {
        Some(requested.skip(p.len() as int))
    } else if crate::cli::spec_known_mode(requested) {
        Some(requested)
    } else {
        None
    }
}

/// The mode behind a virtual model id, if it is one; other ids pass
/// through unresolved.
pub fn virtual_mode(requested: &str) -> (r: Option<String>)
    ensures
        r is Some == spec_virtual_mode(requested@) is Some,
        r is Some ==> r->0@ == spec_virtual_mode(requested@)->0,
{
    let cs = crate::text::chars_of(requested);
    let p = crate::text::chars_of(VIRTUAL_PREFIX);
    proof {
        reveal_strlit("myownllm-");
        assert(p@ == "myownllm-"@);
    }
    if cs.len() >= p.len() {
        let mut k: usize = 0;
        let mut same = true;
        while k < p.len()
            invariant
                k <= p@.len() <= cs@.len(),
                cs@ == requested@,
                same == (forall|j: int| 0 <= j < k ==> cs@[j] == p@[j]),
            decreases p.len() - k,
        {
            if cs[k] != p[k] {
                same = false;
            }
            k = k + 1;
        }
        if same {
            proof {
                assert(requested@.take(p@.len() as int) =~= p@);
            }
            let mut rest: Vec<char> = Vec::new();
            crate::text::append_from(&mut rest, &cs, p.len());
            let m = crate::text::string_of(rest.as_slice());
            if crate::cli::is_known_mode(m.as_str()) {
                return Some(m);
            }
        } else {
            proof {
                if requested@.take(p@.len() as int) == p@ {
                    let j = choose|j: int| 0 <= j < p@.len() && cs@[j] != p@[j];
                    assert(requested@.take(p@.len() as int)[j] == cs@[j]);
                }
            }
        }
    }
    if crate::cli::is_known_mode(requested) {
        return Some(requested.to_string());
    }
    None
}

} // verus!
