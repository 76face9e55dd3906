//! Danger-zone purges: the report they return and the configuration keys
//! a model purge resets.

use vstd::prelude::*;
use crate::json::{Json, JsonV};

verus! {

/// What a purge removed. `bytes_freed` and `items_removed` saturate;
/// `errors` holds one line per item that could not be removed.
#[derive(Debug, Clone)]
pub struct PurgeReport {
    pub bytes_freed: u64,
    pub items_removed: u32,
    pub errors: Vec<String>,
}

pub open spec fn sat_add_u64(a: u64, b: u64) -> u64 {
    if a + b > u64::MAX {
        u64::MAX
    } else {
        (a + b) as u64
    }
}

pub open spec fn sat_add_u32(a: u32, b: u32) -> u32 {
    if a + b > u32::MAX {
        u32::MAX
    } else {
        (a + b) as u32
    }
}

impl PurgeReport {
    /// An empty report.
    pub fn new() -> (r: PurgeReport)
        ensures
            r.bytes_freed == 0,
            r.items_removed == 0,
            r.errors@.len() == 0,
    {
        PurgeReport { bytes_freed: 0, items_removed: 0, errors: Vec::new() }
    }

    /// Count a removal of `items` items holding `bytes` bytes.
    pub fn record(&mut self, bytes: u64, items: u32)
        ensures
            final(self).bytes_freed == sat_add_u64(old(self).bytes_freed, bytes),
            final(self).items_removed == sat_add_u32(old(self).items_removed, items),
            final(self).errors == old(self).errors,
    {
        self.bytes_freed = self.bytes_freed.saturating_add(bytes);
        self.items_removed = self.items_removed.saturating_add(items);
    }

    /// Count freed bytes without items (the application root).
    pub fn record_bytes(&mut self, bytes: u64)
        ensures
            final(self).bytes_freed == sat_add_u64(old(self).bytes_freed, bytes),
            final(self).items_removed == old(self).items_removed,
            final(self).errors == old(self).errors,
    {
        self.bytes_freed = self.bytes_freed.saturating_add(bytes);
    }

    /// Note an item that could not be removed.
    pub fn record_error(&mut self, line: String)
        ensures
            final(self).bytes_freed == old(self).bytes_freed,
            final(self).items_removed == old(self).items_removed,
            final(self).errors@ == old(self).errors@.push(line),
    {
        self.errors.push(line);
    }
}

/// The configuration after a model purge: nothing kept, no mode or family
/// overrides.
pub open spec fn spec_reset_model_config(c: JsonV) -> JsonV {
    c.with_key("kept_models"@, JsonV::Arr(Seq::empty())).with_key(
        "mode_overrides"@,
        JsonV::Obj(Seq::empty()),
    ).with_key("family_overrides"@, JsonV::Obj(Seq::empty()))
}

/// Clear the keys that pin or override models.
pub fn reset_model_config(config: &mut Json)
    requires
        old(config)@.is_keyable(),
    ensures
        final(config)@ == spec_reset_model_config(old(config)@),
{
    proof {
        assert(crate::json::view_items(Seq::<Json>::empty()) =~= Seq::empty());
        assert(crate::json::view_entries(Seq::<(String, Json)>::empty()) =~= Seq::empty());
    }
    config.set_key("kept_models", Json::Arr(Vec::new()));
    config.set_key("mode_overrides", Json::Obj(Vec::new()));
    config.set_key("family_overrides", Json::Obj(Vec::new()));
}

/// What `Path::starts_with` answers for two paths: whether the components
/// of `root` are the leading components of `path`.
pub uninterp spec fn path_starts_with(path: Seq<char>, root: Seq<char>) -> bool;

/// `std::path::Path::starts_with`, which compares whole components (so
/// `/a/bc` does not start with `/a/b`). Its result is taken to be the
/// name `path_starts_with` of the two texts; the component rules are not
/// restated here.
#[verifier::external_body]
fn path_has_prefix(path: &str, root: &str) -> (r: bool)
    ensures
        r == path_starts_with(path@, root@),
{
    std::path::Path::new(path).starts_with(root)
}

/// The conversations directory when it lies outside the application root
/// (a full purge removes it separately); `None` when the root contains
/// it.
pub fn redirected_conversation_dir(root: &str, conversation_dir: &str) -> (r: Option<String>)
    ensures
        r is None == path_starts_with(conversation_dir@, root@),
        r matches Some(d) ==> d@ == conversation_dir@,
{
    if path_has_prefix(conversation_dir, root) {
        None
    } else {
        Some(conversation_dir.to_string())
    }
}

} // verus!
