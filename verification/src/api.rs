//! The OpenAI-compatible server's rules: bearer authentication, the
//! request flags it honours, the `model` rewrite that shows clients the
//! id they asked for, the error bodies, and the `serve` arguments.

use vstd::prelude::*;
use crate::json::{str_eq, Json, JsonV};

use crate::text::{chars_of, string_of, trim, trim_chars};

verus! {

/// Progress of a pull started on demand.
#[derive(Debug, Clone)]
pub struct PullStatus {
    pub done: bool,
    pub error: Option<String>,
    pub last_line: String,
}

/// The `?wait=` query flag.
#[derive(Debug, Clone, Copy)]
pub struct WaitQuery {
    pub wait: bool,
}

/// A preload request warms the models unless told not to.
pub fn default_warm() -> (r: bool)
    ensures
        r,
{
    true
}

/// `s` with every leading copy of `p` removed, as `trim_start_matches`.
pub open spec fn strip_all_prefix(s: Seq<char>, p: Seq<char>) -> Seq<char>
    decreases s.len(),
{
    if p.len() > 0 && s.len() >= p.len() && s.take(p.len() as int) == p {
        strip_all_prefix(s.skip(p.len() as int), p)
    } else {
        s
    }
}

/// Why a request is refused.
#[derive(Debug, Clone, Copy, PartialEq, Eq, Structural)]
pub enum AuthError {
    /// No usable `Authorization` header.
    Missing,
    /// The header's token is not the configured one.
    BadToken,
}

/// The verdict on a request: any request passes when no token is set;
/// otherwise the header, less leading `Bearer ` prefixes and surrounding
/// white space, must equal the token.
pub open spec fn spec_check_auth(expected: Option<Seq<char>>, authorization: Option<Seq<char>>) -> Result<
    (),
    AuthError,
> {
    match expected {
        None => Ok(()),
        Some(tok) => match authorization {
            None => Err(AuthError::Missing),
            Some(h) => if trim(strip_all_prefix(h, "Bearer "@)) == tok {
                Ok(())
            } else {
                Err(AuthError::BadToken)
            },
        },
    }
}

fn starts_with_at(cs: &Vec<char>, at: usize, p: &Vec<char>) -> (r: bool)
    requires
        at <= cs@.len(),
    ensures
        r == (p@.len() > 0 && cs@.len() - at >= p@.len() && cs@.skip(at as int).take(p@.len() as int)
            == p@),
{
    if p.len() == 0 || cs.len() - at < p.len() {
        return false;
    }
    let mut k: usize = 0;
    while k < p.len()
        invariant
            k <= p@.len(),
            at + p@.len() <= cs@.len(),
            cs@.len() == cs.len(),
            forall|j: int| 0 <= j < k ==> cs@[at + j] == p@[j],
        decreases p.len() - k,
    {
        if cs[at + k] != p[k] {
            proof {
                assert(cs@.skip(at as int).take(p@.len() as int)[k as int] != p@[k as int]);
            }
            return false;
        }
        k = k + 1;
    }
    proof {
        assert(cs@.skip(at as int).take(p@.len() as int) =~= p@);
    }
    true
}

/// The token a header carries: leading `Bearer ` prefixes removed, then
/// trimmed.
pub fn bearer_token_of(h: &str) -> (r: String)
    ensures
        r@ == trim(strip_all_prefix(h@, "Bearer "@)),
{
    let cs = chars_of(h);
    let p = chars_of("Bearer ");
    let mut at: usize = 0;
    proof {
        assert(h@.skip(0) =~= h@);
    }
    while starts_with_at(&cs, at, &p)
        invariant
            at <= cs@.len(),
            cs@ == h@,
            p@ == "Bearer "@,
            strip_all_prefix(h@, p@) == strip_all_prefix(h@.skip(at as int), p@),
        decreases cs.len() - at,
    {
        proof {
            let s = h@.skip(at as int);
            assert(s.skip(p@.len() as int) =~= h@.skip(at + p@.len()));
        }
        at = at + p.len();
    }
    let mut rest: Vec<char> = Vec::new();
    let mut i: usize = at;
    while i < cs.len()
        invariant
            at <= i <= cs@.len(),
            rest@ == cs@.subrange(at as int, i as int),
        decreases cs.len() - i,
    {
        rest.push(cs[i]);
        proof {
            assert(cs@.subrange(at as int, i as int + 1) =~= cs@.subrange(at as int, i as int).push(
                cs@[i as int],
            ));
        }
        i = i + 1;
    }
    proof {
        assert(rest@ =~= h@.skip(at as int));
    }
    let t = trim_chars(&rest);
    string_of(t.as_slice())
}

/// Check a request's `Authorization` header against the configured token.
pub fn check_auth(expected: Option<&str>, authorization: Option<&str>) -> (r: Result<(), AuthError>)
    ensures
        r == spec_check_auth(
            match expected {
                Some(e) => Some(e@),
                None => None,
            },
            match authorization {
                Some(a) => Some(a@),
                None => None,
            },
        ),
{
    let tok = match expected {
        None => {
            return Ok(());
        },
        Some(t) => t,
    };
    let h = match authorization {
        None => {
            return Err(AuthError::Missing);
        },
        Some(h) => h,
    };
    let got = bearer_token_of(h);
    if str_eq(got.as_str(), tok) {
        Ok(())
    } else {
        Err(AuthError::BadToken)
    }
}

/// ASCII lower case.
pub open spec fn lower(c: char) -> char {
    if 'A' <= c && c <= 'Z' {
        ((c as u8) + 32) as char
    } else {
        c
    }
}

/// Whether a header value is a yes: `1`, `true` or `yes`, in any ASCII case.
pub open spec fn spec_header_bool(v: Option<Seq<char>>) -> bool {
    match v {
        Some(s) => {
            let l = s.map_values(|c: char| lower(c));
            l == "1"@ || l == "true"@ || l == "yes"@
        },
        None => false,
    }
}

pub fn header_bool(value: Option<&str>) -> (r: bool)
    ensures
        r == spec_header_bool(
            match value {
                Some(v) => Some(v@),
                None => None,
            },
        ),
{
    let v = match value {
        Some(v) => v,
        None => {
            return false;
        },
    };
    let cs = chars_of(v);
    let mut out: Vec<char> = Vec::new();
    let mut i: usize = 0;
    while i < cs.len()
        invariant
            i <= cs@.len(),
            cs@ == v@,
            out@ == v@.take(i as int).map_values(|c: char| lower(c)),
        decreases cs.len() - i,
    {
        let c = cs[i];
        let d = if 'A' <= c && c <= 'Z' {
            ((c as u8) + 32) as char
        } else {
            c
        };
        out.push(d);
        proof {
            assert(v@.take(i as int + 1).map_values(|c: char| lower(c)) =~= v@.take(i as int).map_values(
                |c: char| lower(c),
            ).push(d));
        }
        i = i + 1;
    }
    proof {
        assert(v@.take(i as int) =~= v@);
    }
    let l = string_of(out.as_slice());
    str_eq(l.as_str(), "1") || str_eq(l.as_str(), "true") || str_eq(l.as_str(), "yes")
}

/// The document with its top-level `model` set to `to` where it was the
/// string `from`.
pub open spec fn spec_rewrite_model(v: JsonV, from: Seq<char>, to: Seq<char>) -> JsonV {
    match v {
        JsonV::Obj(_) => match v.get("model"@) {
            Some(m) => if m.as_str() == Some(from) {
                v.with_key("model"@, JsonV::Str(to))
            } else {
                v
            },
            None => v,
        },
        _ => v,
    }
}

/// Show the client the model id it asked for: a top-level `model` field
/// equal to `from` becomes `to`.
pub fn rewrite_model_field(v: &mut Json, from: &str, to: &str)
    ensures
        final(v)@ == spec_rewrite_model(old(v)@, from@, to@),
{
    let hit = match v {
        Json::Obj(_) => match v.get("model") {
            Some(m) => match m.as_str() {
                Some(s) => str_eq(s, from),
                None => false,
            },
            None => false,
        },
        _ => false,
    };
    if hit {
        v.set_key("model", Json::string(to));
    }
}

/// Whether a response needs its `model` field rewritten: both ids are
/// known and differ.
pub fn needs_rewrite(requested: Option<&str>, resolved: Option<&str>) -> (r: bool)
    ensures
        r == (requested is Some && resolved is Some && requested->0@ != resolved->0@),
{
    match (requested, resolved) {
        (Some(a), Some(b)) => !str_eq(a, b),
        _ => false,
    }
}

/// The message of a pull that has not finished: its failure, or that it runs.
pub open spec fn pull_message(tag: Seq<char>, error: Option<Seq<char>>) -> Seq<char> {
    match error {
        Some(e) => "pull failed for "@ + tag + ": "@ + e,
        None => "model "@ + tag + " is being pulled"@,
    }
}

/// The error code of a pull that has not finished.
pub open spec fn pull_code(error: Option<Seq<char>>) -> Seq<char> {
    if error is Some {
        "pull_failed"@
    } else {
        "warming_up"@
    }
}

pub open spec fn opt_view(o: Option<String>) -> Option<Seq<char>> {
    match o {
        Some(s) => Some(s@),
        None => None,
    }
}

/// The body of the `503` answered while a model is still being pulled:
/// the message and code say whether the pull failed, and the last
/// progress line is passed on.
pub open spec fn spec_pull_pending_body(tag: Seq<char>, error: Option<Seq<char>>, last_line: Seq<char>) -> JsonV {
    JsonV::Obj(
        seq![
            ("error"@, JsonV::Obj(
                seq![
                    ("message"@, JsonV::Str(pull_message(tag, error))),
                    ("type"@, JsonV::Str("anyai_error"@)),
                    ("code"@, JsonV::Str(pull_code(error))),
                    ("model"@, JsonV::Str(tag)),
                    ("progress"@, JsonV::Str(last_line)),
                ],
            )),
        ],
    )
}

pub fn pull_pending_body(tag: &str, status: &PullStatus) -> (r: Json)
    ensures
        r@ == spec_pull_pending_body(tag@, opt_view(status.error), status.last_line@),
{
    let message = match &status.error {
        Some(e) => {
            let a = crate::text::concat("pull failed for ", tag);
            let b = crate::text::concat(a.as_str(), ": ");
            crate::text::concat(b.as_str(), e.as_str())
        },
        None => {
            let a = crate::text::concat("model ", tag);
            crate::text::concat(a.as_str(), " is being pulled")
        },
    };
    let code = if status.error.is_some() { "pull_failed" } else { "warming_up" };
    let mut inner: Vec<(String, Json)> = Vec::new();
    inner.push(("message".to_string(), Json::string(message.as_str())));
    inner.push(("type".to_string(), Json::string("anyai_error")));
    inner.push(("code".to_string(), Json::string(code)));
    inner.push(("model".to_string(), Json::string(tag)));
    inner.push(("progress".to_string(), Json::string(status.last_line.as_str())));
    let mut outer: Vec<(String, Json)> = Vec::new();
    outer.push(("error".to_string(), Json::Obj(inner)));
    let r = Json::Obj(outer);
    proof {
        let ev = opt_view(status.error);
        assert(message@ == pull_message(tag@, ev));
        assert(code@ == pull_code(ev));
        crate::json::lemma_view_entries(inner@);
        crate::json::lemma_view_entries(outer@);
        assert(crate::json::view_entries(inner@) =~= seq![
            ("message"@, JsonV::Str(pull_message(tag@, ev))),
            ("type"@, JsonV::Str("anyai_error"@)),
            ("code"@, JsonV::Str(pull_code(ev))),
            ("model"@, JsonV::Str(tag@)),
            ("progress"@, JsonV::Str(status.last_line@)),
        ]);
        assert(crate::json::view_entries(outer@) =~= seq![
            ("error"@, JsonV::Obj(crate::json::view_entries(inner@))),
        ]);
    }
    r
}

/// The body of an error response.
pub open spec fn spec_error_body(code: Seq<char>, msg: Seq<char>) -> JsonV {
    JsonV::Obj(
        seq![
            ("error"@, JsonV::Obj(
                seq![
                    ("message"@, JsonV::Str(msg)),
                    ("type"@, JsonV::Str("anyai_error"@)),
                    ("code"@, JsonV::Str(code)),
                ],
            )),
        ],
    )
}

pub fn error_body(code: &str, msg: &str) -> (r: Json)
    ensures
        r@ == spec_error_body(code@, msg@),
{
    let mut inner: Vec<(String, Json)> = Vec::new();
    inner.push(("message".to_string(), Json::string(msg)));
    inner.push(("type".to_string(), Json::string("anyai_error")));
    inner.push(("code".to_string(), Json::string(code)));
    let mut outer: Vec<(String, Json)> = Vec::new();
    outer.push(("error".to_string(), Json::Obj(inner)));
    let r = Json::Obj(outer);
    proof {
        crate::json::lemma_view_entries(inner@);
        crate::json::lemma_view_entries(outer@);
        assert(crate::json::view_entries(inner@) =~= seq![
            ("message"@, JsonV::Str(msg@)),
            ("type"@, JsonV::Str("anyai_error"@)),
            ("code"@, JsonV::Str(code@)),
        ]);
        assert(crate::json::view_entries(outer@) =~= seq![
            ("error"@, JsonV::Obj(crate::json::view_entries(inner@))),
        ]);
    }
    r
}


/// The value of a decimal text as a `u16`, as `str::parse` reads one: an
/// optional `+`, then digits.
pub open spec fn spec_parse_u16(t: Seq<char>) -> Option<u16> {
    let d = if t.len() > 0 && t[0] == '+' {
        t.drop_first()
    } else {
        t
    };
    if d.len() > 0 && crate::num::all_digits(d) && crate::num::digits_val(d) <= u16::MAX {
        Some(crate::num::digits_val(d) as u16)
    } else {
        None
    }
}

pub fn parse_u16(t: &str) -> (r: Option<u16>)
    ensures
        r == spec_parse_u16(t@),
{
    let cs = chars_of(t);
    let start: usize = if cs.len() > 0 && cs[0] == '+' { 1 } else { 0 };
    let ghost d = if t@.len() > 0 && t@[0] == '+' { t@.drop_first() } else { t@ };
    proof {
        assert(d =~= cs@.skip(start as int));
    }
    if cs.len() == start {
        return None;
    }
    let mut v: u32 = 0;
    let mut i: usize = start;
    proof {
        assert(d.take(0) =~= Seq::<char>::empty());
    }
    while i < cs.len()
        invariant
            start <= i <= cs@.len(),
            cs@ == t@,
            d == (if t@.len() > 0 && t@[0] == '+' { t@.drop_first() } else { t@ }),
            d =~= cs@.skip(start as int),
            crate::num::all_digits(d.take(i - start)),
            v == crate::num::digits_val(d.take(i - start)),
            v <= u16::MAX,
        decreases cs.len() - i,
    {
        let c = cs[i];
        let ghost p = d.take(i - start);
        let ghost q = d.take(i - start + 1);
        proof {
            assert(q.drop_last() =~= p);
            assert(q.last() == c);
        }
        if !('0' <= c && c <= '9') {
            proof {
                assert(d[i - start] == c);
                assert(!crate::num::is_digit(d[i - start]));
                assert(!crate::num::all_digits(d));
            }
            return None;
        }
        proof {
            assert forall|k: int| 0 <= k < q.len() implies crate::num::is_digit(#[trigger] q[k]) by {
                if k < p.len() {
                    assert(q[k] == p[k]);
                }
            }
        }
        let dv = (c as u32) - ('0' as u32);
        let nv = v * 10 + dv;
        if nv > 65535 {
            proof {
                assert(crate::num::digits_val(q) == v * 10 + dv);
                assert(d.take(i - start + 1) == q);
                lemma_prefix_le(d, i - start + 1);
                assert(crate::num::all_digits(d) ==> crate::num::digits_val(d) > u16::MAX);
            }
            return None;
        }
        v = nv;
        i = i + 1;
    }
    proof {
        assert(d.take(i - start) =~= d);
    }
    Some(v as u16)
}

/// A prefix of a digit string never spells more than the whole.
proof fn lemma_prefix_le(s: Seq<char>, k: int)
    requires
        0 <= k <= s.len(),
        crate::num::all_digits(s.take(k)),
    ensures
        crate::num::all_digits(s) ==> crate::num::digits_val(s.take(k)) <= crate::num::digits_val(s),
    decreases s.len() - k,
{
    if k < s.len() && crate::num::all_digits(s) {
        let p = s.take(k);
        let q = s.take(k + 1);
        assert(q.drop_last() == p);
        assert(crate::num::all_digits(q)) by {
            assert forall|j: int| 0 <= j < q.len() implies crate::num::is_digit(#[trigger] q[j]) by {
                assert(q[j] == s[j]);
            }
        }
        assert(crate::num::is_digit(s[k]));
        crate::num::lemma_digits_val_bound(p);
        lemma_prefix_le(s, k + 1);
        assert(s.take(s.len() as int) == s);
    }
    if k == s.len() {
        assert(s.take(k) == s);
    }
}

/// What `serve` starts with: the address texts (the configured one, then
/// the one given with `--host`, each checked by the caller), the port,
/// CORS, the bearer token and whether to start Ollama.
#[derive(Debug, Clone, PartialEq)]
pub struct ServeArgs {
    pub config_host: Option<String>,
    pub arg_host: Option<String>,
    pub port: u16,
    pub cors_all: bool,
    pub bearer: Option<String>,
    pub auto_ollama: bool,
}

/// Why `serve` refuses its arguments.
#[derive(Debug, Clone, PartialEq)]
pub enum ServeArgError {
    /// `--host` without a value.
    HostMissing,
    /// `--port` without a value.
    PortMissing,
    /// `--port` with a value that is not a port number.
    BadPort(String),
    /// `--host` with a value that is not an IP address.
    BadHost(String),
}

/// The scan state: `(arg host, port, cors, bearer, auto ollama)`.
pub type ServeState = (Option<Seq<char>>, u16, bool, Option<Seq<char>>, bool);

/// Where the scan of the `serve` flags stops: a flag without its value,
/// or the position of a value that is not an address or a port.
pub enum ScanStop {
    HostMissing,
    PortMissing,
    BadHost(int),
    BadPort(int),
}

/// The `serve` flags read from position `i`, or where they fail; `ip[j]`
/// says whether argument `j` reads as an IP address.
pub open spec fn scan_serve(a: Seq<Seq<char>>, ip: Seq<bool>, i: int, st: ServeState) -> Result<ServeState, ScanStop>
    decreases a.len() + 2 - i,
{
    if i < 0 || i >= a.len() {
        Ok(st)
    } else if a[i] == "--host"@ {
        if i + 1 < a.len() {
            if ip[i + 1] {
                scan_serve(a, ip, i + 2, (Some(a[i + 1]), st.1, st.2, st.3, st.4))
            } else {
                Err(ScanStop::BadHost(i + 1))
            }
        } else {
            Err(ScanStop::HostMissing)
        }
    } else if a[i] == "--port"@ {
        if i + 1 < a.len() {
            match spec_parse_u16(a[i + 1]) {
                Some(p) => scan_serve(a, ip, i + 2, (st.0, p, st.2, st.3, st.4)),
                None => Err(ScanStop::BadPort(i + 1)),
            }
        } else {
            Err(ScanStop::PortMissing)
        }
    } else if a[i] == "--cors-allow-all"@ {
        scan_serve(a, ip, i + 1, (st.0, st.1, true, st.3, st.4))
    } else if a[i] == "--bearer-token"@ {
        scan_serve(
            a,
            ip,
            i + 2,
            (st.0, st.1, st.2, if i + 1 < a.len() { Some(a[i + 1]) } else { None }, st.4),
        )
    } else if a[i] == "--no-ollama"@ {
        scan_serve(a, ip, i + 1, (st.0, st.1, st.2, st.3, false))
    } else {
        scan_serve(a, ip, i + 1, st)
    }
}

/// The defaults `serve` takes from the configuration's `api` block:
/// `(host, port, cors, bearer)`. The port is truncated to 16 bits.
pub open spec fn serve_defaults(cfg: Option<JsonV>) -> (Option<Seq<char>>, u16, bool, Option<Seq<char>>) {
    match cfg {
        None => (None, 1473, false, None),
        Some(c) => {
            let api = c.at("api"@);
            (
                api.at("host"@).as_str(),
                match crate::num::json_u64(api.at("port"@)) {
                    Some(p) => p as u16,
                    None => 1473,
                },
                api.at("cors_allow_all"@).as_bool() == Some(true),
                match api.at("bearer_token"@).as_str() {
                    Some(t) => if t.len() > 0 {
                        Some(t)
                    } else {
                        None
                    },
                    None => None,
                },
            )
        },
    }
}

fn sub_str<'a>(v: &'a Json, k: &str) -> (r: Option<&'a Json>)
    ensures
        r is Some == v@.get(k@) is Some,
        r is Some ==> r->0@ == v@.get(k@)->0,
{
    v.get(k)
}

/// Read the `serve` arguments over the configuration's defaults;
/// `is_ip[j]` says whether argument `j` reads as an IP address, as
/// `--host` takes only such a value (the first one that is not fails).
pub fn parse_serve_args(args: &[String], is_ip: &[bool], cfg: Option<&Json>) -> (r: Result<ServeArgs, ServeArgError>)
    requires
        is_ip@.len() == args@.len(),
    ensures
        ({
            let d = serve_defaults(
                match cfg {
                    Some(c) => Some(c@),
                    None => None,
                },
            );
            let s = scan_serve(crate::sorted::views(args@), is_ip@, 0, (None, d.1, d.2, d.3, true));
            match r {
                Ok(o) => s == Ok::<ServeState, ScanStop>(
                    (
                        crate::cli::opt_views(o.arg_host),
                        o.port,
                        o.cors_all,
                        crate::cli::opt_views(o.bearer),
                        o.auto_ollama,
                    ),
                ) && crate::cli::opt_views(o.config_host) == d.0,
                Err(ServeArgError::HostMissing) => s == Err::<ServeState, ScanStop>(ScanStop::HostMissing),
                Err(ServeArgError::PortMissing) => s == Err::<ServeState, ScanStop>(ScanStop::PortMissing),
                Err(ServeArgError::BadPort(t)) => s matches Err(ScanStop::BadPort(j)) && 1 <= j < args@.len()
                    && t@ == args@[j]@,
                Err(ServeArgError::BadHost(t)) => s matches Err(ScanStop::BadHost(j)) && 1 <= j < args@.len()
                    && t@ == args@[j]@,
            }
        }),
{
    let mut config_host: Option<String> = None;
    let mut port: u16 = 1473;
    let mut cors_all = false;
    let mut bearer: Option<String> = None;
    if let Some(c) = cfg {
        let api = crate::cli::child(c, "api");
        match sub_str(&api, "host") {
            Some(h) => match h.as_str() {
                Some(hs) => {
                    config_host = Some(hs.to_string());
                },
                None => {},
            },
            None => {},
        }
        match sub_str(&api, "port") {
            Some(p) => match crate::num::u64_of(p) {
                Some(pv) => {
                    port = pv as u16;
                },
                None => {},
            },
            None => {},
        }
        match sub_str(&api, "cors_allow_all") {
            Some(b) => {
                if b.as_bool() == Some(true) {
                    cors_all = true;
                }
            },
            None => {},
        }
        match sub_str(&api, "bearer_token") {
            Some(t) => match t.as_str() {
                Some(ts) => {
                    if !ts.is_empty() {
                        bearer = Some(ts.to_string());
                    }
                },
                None => {},
            },
            None => {},
        }
    }
    let ghost a = crate::sorted::views(args@);
    let ghost d = serve_defaults(
        match cfg {
            Some(c) => Some(c@),
            None => None,
        },
    );
    assert(crate::cli::opt_views(config_host) == d.0 && port == d.1 && cors_all == d.2
        && crate::cli::opt_views(bearer) == d.3) by {
        reveal_strlit("");
    }
    let mut arg_host: Option<String> = None;
    let mut auto_ollama = true;
    let n = args.len();
    let mut i: usize = 0;
    while i < n
        invariant
            i <= n == args@.len(),
            is_ip@.len() == n,
            a == crate::sorted::views(args@),
            d == serve_defaults(
                match cfg {
                    Some(c) => Some(c@),
                    None => None,
                },
            ),
            scan_serve(a, is_ip@, 0, (None, d.1, d.2, d.3, true)) == scan_serve(
                a,
                is_ip@,
                i as int,
                (crate::cli::opt_views(arg_host), port, cors_all, crate::cli::opt_views(bearer), auto_ollama),
            ),
        decreases n - i,
    {
        let ghost st0 = (crate::cli::opt_views(arg_host), port, cors_all, crate::cli::opt_views(bearer), auto_ollama);
        let arg = args[i].as_str();
        let next2: usize = if n - i >= 2 { i + 2 } else { n };
        proof {
            assert(a[i as int] == arg@);
            assert forall|st: ServeState| #[trigger] scan_serve(a, is_ip@, i as int + 2, st) == scan_serve(a, is_ip@, next2 as int, st) by {
                if next2 == n {
                    assert(scan_serve(a, is_ip@, i as int + 2, st) == Ok::<ServeState, ScanStop>(st));
                }
            }
        }
        if str_eq(arg, "--host") {
            if i + 1 >= n {
                proof {
                    assert(scan_serve(a, is_ip@, i as int, st0) == Err::<ServeState, ScanStop>(ScanStop::HostMissing));
                }
                return Err(ServeArgError::HostMissing);
            }
            if !is_ip[i + 1] {
                let t = args[i + 1].clone();
                proof {
                    assert(a[i + 1] == args@[i + 1]@);
                }
                return Err(ServeArgError::BadHost(t));
            }
            arg_host = Some(args[i + 1].clone());
            proof {
                assert(a[i + 1] == args@[i + 1]@);
                let nst = (crate::cli::opt_views(arg_host), st0.1, st0.2, st0.3, st0.4);
                assert(scan_serve(a, is_ip@, i as int, st0) == scan_serve(a, is_ip@, i as int + 2, nst));
            }
            i = next2;
        } else if str_eq(arg, "--port") {
            if i + 1 >= n {
                proof {
                    assert(scan_serve(a, is_ip@, i as int, st0) == Err::<ServeState, ScanStop>(ScanStop::PortMissing));
                }
                return Err(ServeArgError::PortMissing);
            }
            match parse_u16(args[i + 1].as_str()) {
                Some(p) => {
                    port = p;
                },
                None => {
                    let t = args[i + 1].clone();
                    proof {
                        assert(a[i + 1] == args@[i + 1]@);
                        assert(spec_parse_u16(a[i + 1]) is None);
                        assert(scan_serve(a, is_ip@, i as int, st0) == Err::<ServeState, ScanStop>(
                            ScanStop::BadPort(i + 1),
                        ));
                        assert(t@ == args@[i + 1]@);
                    }
                    return Err(ServeArgError::BadPort(t));
                },
            }
            proof {
                assert(a[i + 1] == args@[i + 1]@);
                let nst = (st0.0, port, st0.2, st0.3, st0.4);
                assert(scan_serve(a, is_ip@, i as int, st0) == scan_serve(a, is_ip@, i as int + 2, nst));
            }
            i = next2;
        } else if str_eq(arg, "--cors-allow-all") {
            cors_all = true;
            proof {
                let nst = (st0.0, st0.1, true, st0.3, st0.4);
                assert(scan_serve(a, is_ip@, i as int, st0) == scan_serve(a, is_ip@, i as int + 1, nst));
            }
            i = i + 1;
        } else if str_eq(arg, "--bearer-token") {
            bearer = crate::cli::arg_clone(args, i + 1);
            proof {
                let nst = (st0.0, st0.1, st0.2, crate::cli::opt_views(bearer), st0.4);
                assert(scan_serve(a, is_ip@, i as int, st0) == scan_serve(a, is_ip@, i as int + 2, nst));
            }
            i = next2;
        } else if str_eq(arg, "--no-ollama") {
            auto_ollama = false;
            proof {
                let nst = (st0.0, st0.1, st0.2, st0.3, false);
                assert(scan_serve(a, is_ip@, i as int, st0) == scan_serve(a, is_ip@, i as int + 1, nst));
            }
            i = i + 1;
        } else {
            proof {
                assert(scan_serve(a, is_ip@, i as int, st0) == scan_serve(a, is_ip@, i as int + 1, st0));
            }
            i = i + 1;
        }
    }
    Ok(ServeArgs { config_host, arg_host, port, cors_all, bearer, auto_ollama })
}

/// The lines of a stream chunk as `split_inclusive('\n')` gives them:
/// each ends with its `\n`, except perhaps the last; no empty line.
pub open spec fn split_lines(s: Seq<char>) -> Seq<Seq<char>>
    decreases s.len(),
{
    if s.len() == 0 {
        Seq::empty()
    } else {
        let i = crate::num::first_index(s, '\n');
        if i < 0 {
            seq![s]
        } else {
            proof {
                crate::num::lemma_first_index(s, '\n');
            }
            seq![s.take(i + 1)] + split_lines(s.skip(i + 1))
        }
    }
}

/// `s` without its trailing `\n` and `\r` characters.
pub open spec fn trim_end_crlf(s: Seq<char>) -> Seq<char>
    decreases s.len(),
{
    if s.len() > 0 && (s.last() == '\n' || s.last() == '\r') {
        trim_end_crlf(s.drop_last())
    } else {
        s
    }
}

/// The JSON text of a stream line: leading `data: ` prefixes and trailing
/// line ends removed; none for a blank line or the `[DONE]` marker, which
/// pass through as they are.
pub open spec fn spec_line_payload(line: Seq<char>) -> Option<Seq<char>> {
    let t = trim_end_crlf(strip_all_prefix(line, "data: "@));
    if t.len() == 0 || t == "[DONE]"@ {
        None
    } else {
        Some(t)
    }
}

/// A line put back together around its rewritten JSON: one `data: `
/// prefix when it had one, then the JSON, then `\n` when it ended with
/// one. A line whose JSON did not parse stays as it was.
pub open spec fn spec_reframe(line: Seq<char>, rewritten: Option<Seq<char>>) -> Seq<char> {
    match rewritten {
        None => line,
        Some(j) => (if line.len() >= 6 && line.take(6) == "data: "@ {
            "data: "@
        } else {
            Seq::empty()
        }) + j + (if line.len() > 0 && line.last() == '\n' {
            seq!['\n']
        } else {
            Seq::empty()
        }),
    }
}

/// Split a stream chunk into its lines, each with its `\n`.
pub fn stream_lines(chunk: &str) -> (r: Vec<String>)
    ensures
        crate::sorted::views(r@) == split_lines(chunk@),
{
    let cs = chars_of(chunk);
    let mut out: Vec<String> = Vec::new();
    let mut start: usize = 0;
    let mut cur: Vec<char> = Vec::new();
    let mut i: usize = 0;
    proof {
        assert(chunk@.skip(0) =~= chunk@);
        assert(crate::sorted::views(out@) =~= Seq::<Seq<char>>::empty());
    }
    while i < cs.len()
        invariant
            start <= i <= cs@.len(),
            cs@ == chunk@,
            cur@ == cs@.subrange(start as int, i as int),
            forall|j: int| start <= j < i ==> cs@[j] != '\n',
            crate::sorted::views(out@) + split_lines(chunk@.skip(start as int)) == split_lines(chunk@),
        decreases cs.len() - i,
    {
        let c = cs[i];
        cur.push(c);
        proof {
            assert(cs@.subrange(start as int, i as int + 1) =~= cs@.subrange(start as int, i as int).push(c));
        }
        if c == '\n' {
            let line = string_of(cur.as_slice());
            proof {
                let rest = chunk@.skip(start as int);
                assert forall|j: int| 0 <= j < i - start implies rest[j] != '\n' by {
                    assert(rest[j] == cs@[start + j]);
                }
                assert(rest[i - start] == '\n');
                crate::num::first_index_found(rest, '\n', i - start);
                assert(rest.take(i - start + 1) =~= line@);
                assert(rest.skip(i - start + 1) =~= chunk@.skip(i as int + 1));
                assert(split_lines(rest) == seq![line@] + split_lines(chunk@.skip(i as int + 1)));
                assert(crate::sorted::views(out@.push(line)) =~= crate::sorted::views(out@).push(line@));
                assert(crate::sorted::views(out@).push(line@) + split_lines(chunk@.skip(i as int + 1))
                    =~= crate::sorted::views(out@) + (seq![line@] + split_lines(chunk@.skip(i as int + 1))));
            }
            out.push(line);
            cur = Vec::new();
            start = i + 1;
        }
        i = i + 1;
    }
    if cur.len() > 0 {
        let line = string_of(cur.as_slice());
        proof {
            let rest = chunk@.skip(start as int);
            assert(rest =~= line@);
            assert forall|j: int| 0 <= j < rest.len() implies rest[j] != '\n' by {
                assert(rest[j] == cs@[start + j]);
            }
            crate::num::first_index_found(rest, '\n', rest.len() as int);
            assert(crate::sorted::views(out@.push(line)) =~= crate::sorted::views(out@).push(line@));
            assert(crate::sorted::views(out@) + seq![line@] =~= crate::sorted::views(out@).push(line@));
        }
        out.push(line);
    } else {
        proof {
            assert(chunk@.skip(start as int).len() == 0);
            assert(crate::sorted::views(out@) + Seq::<Seq<char>>::empty() =~= crate::sorted::views(out@));
        }
    }
    out
}

/// The JSON text of one stream line, or none when the line passes through
/// untouched.
pub fn line_payload(line: &str) -> (r: Option<String>)
    ensures
        crate::cli::opt_views(r) == spec_line_payload(line@),
{
    let cs = chars_of(line);
    let p = chars_of("data: ");
    let mut at: usize = 0;
    proof {
        assert(line@.skip(0) =~= line@);
    }
    while starts_with_at(&cs, at, &p)
        invariant
            at <= cs@.len(),
            cs@ == line@,
            p@ == "data: "@,
            strip_all_prefix(line@, p@) == strip_all_prefix(line@.skip(at as int), p@),
        decreases cs.len() - at,
    {
        proof {
            let s = line@.skip(at as int);
            assert(s.skip(p@.len() as int) =~= line@.skip(at + p@.len()));
        }
        at = at + p.len();
    }
    let ghost u = line@.skip(at as int);
    let mut end: usize = cs.len();
    proof {
        assert(line@.skip(at as int) == strip_all_prefix(line@.skip(at as int), p@));
        assert(cs@.subrange(at as int, end as int) =~= u);
    }
    while end > at && (cs[end - 1] == '\n' || cs[end - 1] == '\r')
        invariant
            at <= end <= cs@.len(),
            cs@ == line@,
            trim_end_crlf(cs@.subrange(at as int, end as int)) == trim_end_crlf(u),
        decreases end,
    {
        proof {
            let w = cs@.subrange(at as int, end as int);
            assert(w.drop_last() =~= cs@.subrange(at as int, end as int - 1));
        }
        end = end - 1;
    }
    let mut t: Vec<char> = Vec::new();
    let mut k: usize = at;
    while k < end
        invariant
            at <= k <= end <= cs@.len(),
            t@ == cs@.subrange(at as int, k as int),
        decreases end - k,
    {
        t.push(cs[k]);
        proof {
            assert(cs@.subrange(at as int, k as int + 1) =~= cs@.subrange(at as int, k as int).push(cs@[k as int]));
        }
        k = k + 1;
    }
    proof {
        let w = cs@.subrange(at as int, end as int);
        assert(trim_end_crlf(w) == w);
        assert(t@ == trim_end_crlf(u));
        reveal_strlit("[DONE]");
    }
    let ts = string_of(t.as_slice());
    if t.len() == 0 || str_eq(ts.as_str(), "[DONE]") {
        None
    } else {
        Some(ts)
    }
}

/// Put a stream line back together around its rewritten JSON (or leave
/// it as it was when its JSON did not parse).
pub fn reframe_line(line: &str, rewritten: Option<&str>) -> (r: String)
    ensures
        r@ == spec_reframe(
            line@,
            match rewritten {
                Some(j) => Some(j@),
                None => None,
            },
        ),
{
    let j = match rewritten {
        Some(j) => j,
        None => {
            return line.to_string();
        },
    };
    let cs = chars_of(line);
    let p = chars_of("data: ");
    let has_prefix = starts_with_at(&cs, 0, &p);
    let mut out = String::new();
    proof {
        reveal_strlit("data: ");
        assert(cs@.skip(0) =~= cs@);
        reveal_strlit("");
        assert(out@ =~= Seq::<char>::empty());
    }
    if has_prefix {
        crate::text::push_str(&mut out, "data: ");
    }
    crate::text::push_str(&mut out, j);
    if cs.len() > 0 && cs[cs.len() - 1] == '\n' {
        crate::text::push_char(&mut out, '\n');
    }
    proof {
        let pre: Seq<char> = if line@.len() >= 6 && line@.take(6) == "data: "@ {
            "data: "@
        } else {
            Seq::empty()
        };
        let post: Seq<char> = if line@.len() > 0 && line@.last() == '\n' {
            seq!['\n']
        } else {
            Seq::empty()
        };
        assert(out@ =~= pre + j@ + post);
    }
    out
}

/// The rewritten JSON of a payload: none when it does not parse.
pub open spec fn rewritten_payload(p: Seq<char>, from: Seq<char>, to: Seq<char>) -> Option<Seq<char>> {
    match crate::json_text::json_parse(p) {
        Some(v) => Some(crate::json_text::json_serialize(spec_rewrite_model(v, from, to))),
        None => None,
    }
}

/// A stream line with the `model` of its JSON changed from `from` to
/// `to`; blank lines, the `[DONE]` marker and lines that are not JSON
/// stay as they are.
pub open spec fn rewrite_line(line: Seq<char>, from: Seq<char>, to: Seq<char>) -> Seq<char> {
    match spec_line_payload(line) {
        None => line,
        Some(p) => spec_reframe(line, rewritten_payload(p, from, to)),
    }
}

pub open spec fn opt_str(o: Option<&str>) -> Option<Seq<char>> {
    match o {
        Some(s) => Some(s@),
        None => None,
    }
}

/// Whether the ids differ so that responses must be rewritten.
pub open spec fn spec_needs_rewrite(requested: Option<Seq<char>>, resolved: Option<Seq<char>>) -> bool {
    requested is Some && resolved is Some && requested->0 != resolved->0
}

/// A streamed chunk as the client sees it: when the ids differ, each
/// line with the resolved id turned back into the requested one.
pub open spec fn spec_rewrite_chunk(
    chunk: Seq<char>,
    requested: Option<Seq<char>>,
    resolved: Option<Seq<char>>,
) -> Seq<char> {
    if spec_needs_rewrite(requested, resolved) {
        split_lines(chunk).map_values(|l: Seq<char>| rewrite_line(l, resolved->0, requested->0)).flatten()
    } else {
        chunk
    }
}

/// A whole response body as the client sees it: when the ids differ and
/// the body is JSON, the document rewritten and written back compactly.
pub open spec fn spec_rewrite_body(
    body: Seq<char>,
    requested: Option<Seq<char>>,
    resolved: Option<Seq<char>>,
) -> Seq<char> {
    if spec_needs_rewrite(requested, resolved) {
        match rewritten_payload(body, resolved->0, requested->0) {
            Some(t) => t,
            None => body,
        }
    } else {
        body
    }
}

fn rewrite_one_line(line: &str, from: &str, to: &str) -> (r: String)
    ensures
        r@ == rewrite_line(line@, from@, to@),
{
    match line_payload(line) {
        None => line.to_string(),
        Some(p) => match crate::json_text::parse_document(p.as_str()) {
            Some(v) => {
                let mut doc = v;
                rewrite_model_field(&mut doc, from, to);
                let t = crate::json_text::document_text(&doc);
                reframe_line(line, Some(t.as_str()))
            },
            None => reframe_line(line, None),
        },
    }
}

/// Turn the resolved model id in a streamed chunk back into the one the
/// client asked for, line by line.
pub fn rewrite_stream_chunk(chunk: &str, requested: Option<&str>, resolved: Option<&str>) -> (r: String)
    ensures
        r@ == spec_rewrite_chunk(chunk@, opt_str(requested), opt_str(resolved)),
{
    if !needs_rewrite(requested, resolved) {
        return chunk.to_string();
    }
    let req = match requested {
        Some(t) => t,
        None => {
            return chunk.to_string();
        },
    };
    let res = match resolved {
        Some(t) => t,
        None => {
            return chunk.to_string();
        },
    };
    let lines = stream_lines(chunk);
    let ghost ls = crate::sorted::views(lines@);
    let mut out = String::new();
    let mut i: usize = 0;
    proof {
        assert(ls.len() == lines@.len());
        assert(ls.take(0).map_values(|l: Seq<char>| rewrite_line(l, res@, req@)).flatten() =~= Seq::<char>::empty());
    }
    while i < lines.len()
        invariant
            i <= lines@.len(),
            ls == crate::sorted::views(lines@),
            ls.len() == lines@.len(),
            out@ == ls.take(i as int).map_values(|l: Seq<char>| rewrite_line(l, res@, req@)).flatten(),
        decreases lines@.len() - i,
    {
        let piece = rewrite_one_line(lines[i].as_str(), res, req);
        let ghost before = out@;
        crate::text::push_str(&mut out, piece.as_str());
        proof {
            assert(ls[i as int] == lines@[i as int]@);
            let f = |l: Seq<char>| rewrite_line(l, res@, req@);
            assert(ls.take(i + 1).map_values(f) =~= ls.take(i as int).map_values(f).push(f(ls[i as int])));
            ls.take(i as int).map_values(f).lemma_flatten_push(f(ls[i as int]));
        }
        i = i + 1;
    }
    proof {
        assert(ls.take(lines@.len() as int) =~= ls);
    }
    out
}

/// Turn the resolved model id in a whole JSON response body back into the
/// one the client asked for; a body that is not JSON passes unchanged.
pub fn rewrite_json_body(body: &str, requested: Option<&str>, resolved: Option<&str>) -> (r: String)
    ensures
        r@ == spec_rewrite_body(body@, opt_str(requested), opt_str(resolved)),
{
    match (requested, resolved) {
        (Some(req), Some(res)) => {
            if str_eq(req, res) {
                return body.to_string();
            }
            match crate::json_text::parse_document(body) {
                Some(v) => {
                    let mut doc = v;
                    rewrite_model_field(&mut doc, res, req);
                    crate::json_text::document_text(&doc)
                },
                None => body.to_string(),
            }
        },
        _ => body.to_string(),
    }
}

} // verus!
