//! What the Ollama daemon reports: the installed tags of `/api/tags`.

use vstd::prelude::*;
use crate::json::{lemma_view_items, view_items, Json, JsonV};
use crate::json_text::{json_parse, parse_document};
use crate::num::{json_u64, u64_of};

verus! {

/// One installed model.
#[derive(Debug, Clone)]
pub struct ModelInfo {
    pub name: String,
    pub size: u64,
}

/// The `(name, size)` an entry of the `models` array gives: its name
/// string (or empty) and its size as an unsigned integer (or zero).
pub open spec fn entry_info(e: JsonV) -> (Seq<char>, u64) {
    (
        match e.at("name"@).as_str() {
            Some(n) => n,
            None => Seq::empty(),
        },
        match json_u64(e.at("size"@)) {
            Some(s) => s,
            None => 0,
        },
    )
}

/// The models of the entries, skipping those without a name.
pub open spec fn infos(es: Seq<JsonV>) -> Seq<(Seq<char>, u64)>
    decreases es.len(),
{
    if es.len() == 0 {
        Seq::empty()
    } else {
        infos(es.drop_last()) + if entry_info(es.last()).0.len() > 0 {
            seq![entry_info(es.last())]
        } else {
            Seq::empty()
        }
    }
}

/// The models a `/api/tags` response lists: none unless it is an object
/// whose `models` is an array.
pub open spec fn spec_tags(body: JsonV) -> Seq<(Seq<char>, u64)> {
    match body.at("models"@).as_arr() {
        Some(es) => infos(es),
        None => Seq::empty(),
    }
}

pub open spec fn info_views(v: Seq<ModelInfo>) -> Seq<(Seq<char>, u64)> {
    v.map_values(|m: ModelInfo| (m.name@, m.size))
}

/// The installed models a parsed `/api/tags` response lists, in order,
/// skipping entries without a name.
pub fn parse_tags_value(body: &Json) -> (r: Vec<ModelInfo>)
    ensures
        info_views(r@) == spec_tags(body@),
{
    let mut out: Vec<ModelInfo> = Vec::new();
    let es = match body.get("models") {
        Some(m) => match m.as_array() {
            Some(a) => a,
            None => {
                proof {
                    assert(info_views(out@) =~= Seq::<(Seq<char>, u64)>::empty());
                }
                return out;
            },
        },
        None => {
            proof {
                assert(info_views(out@) =~= Seq::<(Seq<char>, u64)>::empty());
            }
            return out;
        },
    };
    let ghost t = view_items(es@);
    proof {
        lemma_view_items(es@);
        assert(t.take(0) =~= Seq::<JsonV>::empty());
        assert(info_views(out@) =~= infos(t.take(0)));
    }
    let mut i: usize = 0;
    while i < es.len()
        invariant
            i <= es@.len(),
            t == view_items(es@),
            t.len() == es@.len(),
            forall|j: int| 0 <= j < es@.len() ==> #[trigger] t[j] == es@[j]@,
            info_views(out@) == infos(t.take(i as int)),
        decreases es.len() - i,
    {
        let e = &es[i];
        let name: &str = match e.get("name") {
            Some(n) => match n.as_str() {
                Some(s) => s,
                None => "",
            },
            None => "",
        };
        let size: u64 = match e.get("size") {
            Some(s) => match u64_of(s) {
                Some(x) => x,
                None => 0,
            },
            None => 0,
        };
        proof {
            let p = t.take(i as int + 1);
            assert(p.drop_last() =~= t.take(i as int));
            assert(p.last() == es@[i as int]@);
            reveal_strlit("");
            assert(name@ == entry_info(p.last()).0);
            assert(size == entry_info(p.last()).1);
        }
        let ghost before = info_views(out@);
        if !name.is_empty() {
            out.push(ModelInfo { name: name.to_string(), size });
            proof {
                assert(info_views(out@) =~= before + seq![entry_info(t[i as int])]);
            }
        } else {
            proof {
                assert(before =~= before + Seq::<(Seq<char>, u64)>::empty());
            }
        }
        i = i + 1;
    }
    proof {
        assert(t.take(i as int) =~= t);
    }
    out
}

/// The models of an `/api/tags` response: none when the body is not JSON,
/// else those of the document it reads as.
pub open spec fn spec_tags_response(body: Seq<char>) -> Seq<(Seq<char>, u64)> {
    match json_parse(body) {
        Some(v) => spec_tags(v),
        None => Seq::empty(),
    }
}

/// The installed models an `/api/tags` response body lists, in order,
/// skipping entries without a name; none when the body is not JSON.
pub fn parse_tags_response(body: &str) -> (r: Vec<ModelInfo>)
    ensures
        info_views(r@) == spec_tags_response(body@),
{
    match parse_document(body) {
        Some(v) => parse_tags_value(&v),
        None => {
            let out: Vec<ModelInfo> = Vec::new();
            proof {
                assert(info_views(out@) =~= Seq::<(Seq<char>, u64)>::empty());
            }
            out
        },
    }
}

/// What one line of a streamed `/api/chat` answer means.
#[derive(Debug, Clone, PartialEq)]
pub enum ChatFrame {
    /// A blank line, or one that is not JSON.
    Skip,
    /// The daemon reported an error.
    Failed(String),
    /// A piece of the answer (none when empty) and whether it is the last.
    Part { delta: Option<String>, done: bool },
}

/// The value of a [`ChatFrame`].
pub enum ChatFrameV {
    Skip,
    Failed(Seq<char>),
    Part(Option<Seq<char>>, bool),
}

impl View for ChatFrame {
    type V = ChatFrameV;

    open spec fn view(&self) -> ChatFrameV {
        match self {
            ChatFrame::Skip => ChatFrameV::Skip,
            ChatFrame::Failed(e) => ChatFrameV::Failed(e@),
            ChatFrame::Part { delta, done } => ChatFrameV::Part(
                match delta {
                    Some(d) => Some(d@),
                    None => None,
                },
                *done,
            ),
        }
    }
}

/// A string value that is not empty.
pub open spec fn nonempty_str(v: JsonV) -> Option<Seq<char>> {
    match v.as_str() {
        Some(d) => if d.len() > 0 {
            Some(d)
        } else {
            None
        },
        None => None,
    }
}

/// The meaning of a parsed frame: its `error` string when it has one,
/// else its `message.content` and whether `done` is true.
pub open spec fn frame_of(v: JsonV) -> ChatFrameV {
    match v.at("error"@).as_str() {
        Some(e) => ChatFrameV::Failed(e),
        None => ChatFrameV::Part(nonempty_str(v.at("message"@).at("content"@)), v.at("done"@).as_bool() == Some(true)),
    }
}

pub open spec fn spec_chat_frame(line: Seq<char>) -> ChatFrameV {
    if line.len() == 0 {
        ChatFrameV::Skip
    } else {
        match json_parse(line) {
            Some(v) => frame_of(v),
            None => ChatFrameV::Skip,
        }
    }
}

fn str_at<'a>(v: &'a Json, key: &str) -> (r: Option<&'a str>)
    ensures
        r is Some == v@.at(key@).as_str() is Some,
        r is Some ==> r->0@ == v@.at(key@).as_str()->0,
{
    match v.get(key) {
        Some(x) => x.as_str(),
        None => None,
    }
}

/// One line (without its `\n`) of a streamed chat answer.
pub fn chat_frame(line: &str) -> (r: ChatFrame)
    ensures
        r@ == spec_chat_frame(line@),
{
    if crate::text::chars_of(line).len() == 0 {
        return ChatFrame::Skip;
    }
    let v = match parse_document(line) {
        Some(v) => v,
        None => {
            return ChatFrame::Skip;
        },
    };
    if let Some(e) = str_at(&v, "error") {
        return ChatFrame::Failed(e.to_string());
    }
    let content = match v.get("message") {
        Some(m) => str_at(m, "content"),
        None => None,
    };
    proof {
        if v@.get("message"@) is None {
            assert(v@.at("message"@) == JsonV::Null);
            assert(JsonV::Null.get("content"@) is None);
        }
    }
    let delta = match content {
        Some(d) => if crate::text::chars_of(d).len() > 0 {
            Some(d.to_string())
        } else {
            None
        },
        None => None,
    };
    let done = match v.get("done") {
        Some(d) => match d.as_bool() {
            Some(b) => b,
            None => false,
        },
        None => false,
    };
    ChatFrame::Part { delta, done }
}

/// The error a pull progress line reports, when it is JSON with an
/// `error` string.
pub open spec fn spec_pull_error(line: Seq<char>) -> Option<Seq<char>> {
    match json_parse(line) {
        Some(v) => v.at("error"@).as_str(),
        None => None,
    }
}

pub fn pull_line_error(line: &str) -> (r: Option<String>)
    ensures
        match r {
            Some(e) => spec_pull_error(line@) == Some(e@),
            None => spec_pull_error(line@) is None,
        },
{
    match parse_document(line) {
        Some(v) => match str_at(&v, "error") {
            Some(e) => Some(e.to_string()),
            None => None,
        },
        None => None,
    }
}

/// Whether a pull status is `success` in any ASCII case, the daemon's
/// word for a finished pull.
pub open spec fn spec_is_success(status: Seq<char>) -> bool {
    status.map_values(|c: char| crate::api::lower(c)) == "success"@
}

pub fn is_success_status(status: &str) -> (r: bool)
    ensures
        r == spec_is_success(status@),
{
    let cs = crate::text::chars_of(status);
    let mut out: Vec<char> = Vec::new();
    let mut i: usize = 0;
    while i < cs.len()
        invariant
            i <= cs@.len(),
            cs@ == status@,
            out@ == status@.take(i as int).map_values(|c: char| crate::api::lower(c)),
        decreases cs.len() - i,
    {
        let c = cs[i];
        let d = if 'A' <= c && c <= 'Z' {
            ((c as u8) + 32) as char
        } else {
            c
        };
        out.push(d);
        proof {
            assert(status@.take(i as int + 1).map_values(|c: char| crate::api::lower(c)) =~= status@.take(
                i as int,
            ).map_values(|c: char| crate::api::lower(c)).push(d));
        }
        i = i + 1;
    }
    proof {
        assert(status@.take(i as int) =~= status@);
    }
    let l = crate::text::string_of(out.as_slice());
    crate::json::str_eq(l.as_str(), "success")
}

/// Take the first complete line off the front of a buffer of streamed
/// newline-delimited bytes, without its `\n`; none, with the buffer
/// untouched, while no line is complete.
pub fn take_line(buf: &mut Vec<u8>) -> (r: Option<Vec<u8>>)
    ensures
        match r {
            Some(line) => {
                let n = line@.len() as int;
                &&& n < old(buf)@.len()
                &&& old(buf)@[n] == 10u8
                &&& line@ == old(buf)@.take(n)
                &&& forall|j: int| 0 <= j < n ==> old(buf)@[j] != 10u8
                &&& final(buf)@ == old(buf)@.skip(n + 1)
            },
            None => (forall|j: int| 0 <= j < old(buf)@.len() ==> old(buf)@[j] != 10u8) && final(buf)@ == old(
                buf,
            )@,
        },
{
    let mut nl: usize = 0;
    while nl < buf.len() && buf[nl] != 10u8
        invariant
            nl <= buf@.len(),
            buf@ == old(buf)@,
            forall|j: int| 0 <= j < nl ==> buf@[j] != 10u8,
        decreases buf@.len() - nl,
    {
        nl = nl + 1;
    }
    if nl == buf.len() {
        return None;
    }
    let mut line: Vec<u8> = Vec::new();
    let mut i: usize = 0;
    while i < nl
        invariant
            i <= nl < buf@.len(),
            buf@ == old(buf)@,
            line@ == buf@.take(i as int),
        decreases nl - i,
    {
        line.push(buf[i]);
        proof {
            assert(buf@.take(i + 1) =~= buf@.take(i as int).push(buf@[i as int]));
        }
        i = i + 1;
    }
    let mut rest: Vec<u8> = Vec::new();
    let mut k: usize = nl + 1;
    while k < buf.len()
        invariant
            nl + 1 <= k <= buf@.len(),
            buf@ == old(buf)@,
            rest@ == buf@.subrange(nl + 1, k as int),
        decreases buf@.len() - k,
    {
        rest.push(buf[k]);
        proof {
            assert(buf@.subrange(nl + 1, k + 1) =~= buf@.subrange(nl + 1, k as int).push(buf@[k as int]));
        }
        k = k + 1;
    }
    proof {
        assert(buf@.subrange(nl + 1, buf@.len() as int) =~= buf@.skip(nl + 1));
    }
    *buf = rest;
    Some(line)
}

} // verus!
