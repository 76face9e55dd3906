//! The conversation store's rules: which ids are allowed, where a
//! conversation lives, and the order the sidebar lists them in.
//!
//! Ids are restricted to `[a-zA-Z0-9_-]{1,64}` so that a remote caller
//! cannot reach outside the conversations directory with a crafted id.

use vstd::prelude::*;
use crate::json::{Json, JsonV};
use crate::text::{chars_of, concat, join_path, spec_join};
use crate::sorted::{seq_lt, str_lt};

verus! {

#[derive(Debug, Clone)]
pub struct StoredMessage {
    pub role: String,
    pub content: String,
    pub thinking: Option<String>,
}

#[derive(Debug, Clone)]
pub struct Conversation {
    pub id: String,
    pub title: String,
    pub mode: String,
    pub model: String,
    pub family: String,
    pub created_at: String,
    pub updated_at: String,
    pub messages: Vec<StoredMessage>,
}

/// What the sidebar shows of a conversation.
#[derive(Debug, Clone)]
pub struct ConversationMeta {
    pub id: String,
    pub title: String,
    pub mode: String,
    pub updated_at: String,
}

impl ConversationMeta {
    /// The sidebar projection of a conversation.
    pub fn of(c: &Conversation) -> (r: ConversationMeta)
        ensures
            r.id@ == c.id@,
            r.title@ == c.title@,
            r.mode@ == c.mode@,
            r.updated_at@ == c.updated_at@,
    {
        ConversationMeta {
            id: c.id.clone(),
            title: c.title.clone(),
            mode: c.mode.clone(),
            updated_at: c.updated_at.clone(),
        }
    }
}

/// Why an id is refused.
#[derive(Debug, Clone, Copy, PartialEq, Eq, Structural)]
pub enum IdError {
    /// Empty, or longer than 64 bytes.
    Length,
    /// A character other than an ASCII letter, digit, `-` or `_`.
    Characters,
}

pub open spec fn id_char_ok(c: char) -> bool {
    ('a' <= c && c <= 'z') || ('A' <= c && c <= 'Z') || ('0' <= c && c <= '9') || c == '-' || c
        == '_'
}

/// The verdict on an id: length first, then characters.
pub open spec fn spec_validate_id(id: &str) -> Result<(), IdError> {
    if id@.len() == 0 || id.len() > 64 {
        Err(IdError::Length)
    } else if forall|i: int| 0 <= i < id@.len() ==> id_char_ok(#[trigger] id@[i]) {
        Ok(())
    } else {
        Err(IdError::Characters)
    }
}

/// Reject any id that could escape the conversations directory or carry
/// shell-unfriendly characters.
pub fn validate_id(id: &str) -> (r: Result<(), IdError>)
    ensures
        r == spec_validate_id(id),
{
    if id.is_empty() || id.len() > 64 {
        return Err(IdError::Length);
    }
    let cs = chars_of(id);
    let mut i: usize = 0;
    while i < cs.len()
        invariant
            i <= cs@.len(),
            cs@ == id@,
            !(id@.len() == 0 || id.len() > 64),
            forall|j: int| 0 <= j < i ==> id_char_ok(#[trigger] id@[j]),
        decreases cs.len() - i,
    {
        let c = cs[i];
        if !(('a' <= c && c <= 'z') || ('A' <= c && c <= 'Z') || ('0' <= c && c <= '9') || c == '-'
            || c == '_') {
            proof {
                assert(!id_char_ok(id@[i as int]));
            }
            return Err(IdError::Characters);
        }
        i = i + 1;
    }
    Ok(())
}

/// The directory conversations live in: the configured
/// `conversation_dir` when it is a non-empty string, else `conversations`
/// under the application root.
pub open spec fn spec_dir(config: JsonV, root: Seq<char>) -> Seq<char> {
    match config.at("conversation_dir"@).as_str() {
        Some(p) => if p.len() > 0 {
            p
        } else {
            spec_join(root, "conversations"@)
        },
        None => spec_join(root, "conversations"@),
    }
}

pub fn dir(config: &Json, root: &str) -> (r: String)
    ensures
        r@ == spec_dir(config@, root@),
{
    match config.get("conversation_dir") {
        Some(v) => match v.as_str() {
            Some(p) => {
                if !p.is_empty() {
                    return p.to_string();
                }
            },
            None => {},
        },
        None => {},
    }
    join_path(root, "conversations")
}

/// The file of conversation `id` under `dir`, once the id is accepted.
pub fn path_for(dir: &str, id: &str) -> (r: Result<String, IdError>)
    ensures
        r is Err <==> spec_validate_id(id) is Err,
        r is Err ==> r->Err_0 == spec_validate_id(id)->Err_0,
        r is Ok ==> r->Ok_0@ == spec_join(dir@, id@ + ".json"@),
{
    match validate_id(id) {
        Err(e) => Err(e),
        Ok(()) => {
            let name = concat(id, ".json");
            Ok(join_path(dir, name.as_str()))
        },
    }
}

/// A conversation's sidebar entry as the contracts see it: id, title,
/// mode and last-update time.
pub type MetaView = (Seq<char>, Seq<char>, Seq<char>, Seq<char>);

pub open spec fn meta_view(m: ConversationMeta) -> MetaView {
    (m.id@, m.title@, m.mode@, m.updated_at@)
}

pub open spec fn meta_views(v: Seq<ConversationMeta>) -> Seq<MetaView> {
    v.map_values(|m: ConversationMeta| meta_view(m))
}

/// Where `x` goes in a list ordered newest first: after every entry at
/// least as recent, before the first older one.
pub open spec fn newest_pos(s: Seq<MetaView>, x: MetaView) -> int
    decreases s.len(),
{
    if s.len() == 0 {
        0
    } else if seq_lt(s[0].3, x.3) {
        0
    } else {
        1 + newest_pos(s.drop_first(), x)
    }
}

/// The entries ordered by `updated_at`, newest first; entries updated at
/// the same time keep their order (a stable sort).
pub open spec fn spec_newest_first(s: Seq<MetaView>) -> Seq<MetaView>
    decreases s.len(),
{
    if s.len() == 0 {
        Seq::empty()
    } else {
        let t = spec_newest_first(s.drop_last());
        t.insert(newest_pos(t, s.last()), s.last())
    }
}

/// No entry is older than a later one.
pub open spec fn newest_first_sorted(s: Seq<MetaView>) -> bool {
    forall|i: int, j: int| 0 <= i < j < s.len() ==> !seq_lt(#[trigger] s[i].3, #[trigger] s[j].3)
}

proof fn lemma_newest_pos(s: Seq<MetaView>, x: MetaView)
    ensures
        0 <= newest_pos(s, x) <= s.len(),
        forall|i: int| 0 <= i < newest_pos(s, x) ==> !seq_lt(#[trigger] s[i].3, x.3),
        newest_pos(s, x) < s.len() ==> seq_lt(s[newest_pos(s, x)].3, x.3),
    decreases s.len(),
{
    if s.len() > 0 && !seq_lt(s[0].3, x.3) {
        let t = s.drop_first();
        lemma_newest_pos(t, x);
        assert forall|i: int| 0 <= i < newest_pos(s, x) implies !seq_lt(#[trigger] s[i].3, x.3) by {
            if i > 0 {
                assert(s[i] == t[i - 1]);
            }
        }
    }
}

/// Inserting at the place `newest_pos` finds keeps a list in order.
proof fn lemma_insert_sorted(t: Seq<MetaView>, x: MetaView)
    requires
        newest_first_sorted(t),
    ensures
        newest_first_sorted(t.insert(newest_pos(t, x), x)),
{
    lemma_newest_pos(t, x);
    let p = newest_pos(t, x);
    let r = t.insert(p, x);
    assert forall|i: int, j: int| 0 <= i < j < r.len() implies !seq_lt(#[trigger] r[i].3, #[trigger] r[j].3) by {
        if j < p {
            assert(r[i] == t[i] && r[j] == t[j]);
        } else if j == p {
            assert(r[i] == t[i] && r[j] == x);
        } else if i == p {
            assert(r[j] == t[j - 1] && r[i] == x);
            if seq_lt(x.3, t[j - 1].3) {
                if j - 1 == p {
                    crate::sorted::lemma_lt_trans(x.3, t[p].3, x.3);
                    crate::sorted::lemma_lt_irrefl(x.3);
                } else {
                    crate::sorted::lemma_lt_trans(t[p].3, x.3, t[j - 1].3);
                    assert(!seq_lt(t[p].3, t[j - 1].3));
                }
            }
        } else if i < p {
            assert(r[i] == t[i] && r[j] == t[j - 1]);
        } else {
            assert(r[i] == t[i - 1] && r[j] == t[j - 1]);
        }
    }
}

/// Ordering newest first gives a list in order that holds the same
/// entries, each as often as before.
pub proof fn law_newest_first(s: Seq<MetaView>)
    ensures
        newest_first_sorted(spec_newest_first(s)),
        spec_newest_first(s).to_multiset() == s.to_multiset(),
    decreases s.len(),
{
    broadcast use vstd::seq_lib::to_multiset_insert;
    broadcast use vstd::seq_lib::to_multiset_build;
    if s.len() > 0 {
        let d = s.drop_last();
        let x = s.last();
        law_newest_first(d);
        let t = spec_newest_first(d);
        lemma_newest_pos(t, x);
        lemma_insert_sorted(t, x);
        assert(s =~= d.push(x));
        assert(t.insert(newest_pos(t, x), x).to_multiset() == t.to_multiset().insert(x));
        assert(d.push(x).to_multiset() == d.to_multiset().insert(x));
    } else {
        assert(s =~= spec_newest_first(s));
    }
}

fn copy_meta(m: &ConversationMeta) -> (r: ConversationMeta)
    ensures
        meta_view(r) == meta_view(*m),
{
    ConversationMeta {
        id: m.id.clone(),
        title: m.title.clone(),
        mode: m.mode.clone(),
        updated_at: m.updated_at.clone(),
    }
}

/// The sidebar order: most recently updated first, ties in the order
/// given.
pub fn newest_first(metas: &Vec<ConversationMeta>) -> (r: Vec<ConversationMeta>)
    ensures
        meta_views(r@) == spec_newest_first(meta_views(metas@)),
{
    let ghost mv = meta_views(metas@);
    let mut out: Vec<ConversationMeta> = Vec::new();
    let mut i: usize = 0;
    proof {
        assert(mv.take(0) =~= Seq::<MetaView>::empty());
        assert(meta_views(out@) =~= Seq::<MetaView>::empty());
    }
    while i < metas.len()
        invariant
            i <= metas@.len(),
            mv == meta_views(metas@),
            meta_views(out@) == spec_newest_first(mv.take(i as int)),
        decreases metas.len() - i,
    {
        let x = &metas[i];
        let ghost xv = meta_view(*x);
        let ghost ov = meta_views(out@);
        let mut p: usize = 0;
        proof {
            assert(ov.skip(0) =~= ov);
        }
        while p < out.len() && !str_lt(out[p].updated_at.as_str(), x.updated_at.as_str())
            invariant
                p <= out@.len(),
                ov == meta_views(out@),
                xv == meta_view(*x),
                newest_pos(ov, xv) == p + newest_pos(ov.skip(p as int), xv),
            decreases out.len() - p,
        {
            proof {
                let t = ov.skip(p as int);
                assert(t[0] == ov[p as int]);
                assert(t.drop_first() =~= ov.skip(p as int + 1));
            }
            p = p + 1;
        }
        proof {
            let t = ov.skip(p as int);
            if p < out.len() {
                assert(t[0] == ov[p as int]);
            }
        }
        let c = copy_meta(x);
        out.insert(p, c);
        proof {
            let q = mv.take(i as int + 1);
            assert(q.drop_last() =~= mv.take(i as int));
            assert(q.last() == xv);
            assert(meta_views(out@) =~= ov.insert(p as int, xv));
        }
        i = i + 1;
    }
    proof {
        assert(mv.take(i as int) =~= mv);
    }
    out
}

} // verus!
