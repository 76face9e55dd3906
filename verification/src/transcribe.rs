//! Live transcription bookkeeping: the running sessions and their flags,
//! the chunk files queued on disk, and the join of recognised text with
//! speaker turns.

use vstd::prelude::*;
use crate::json::str_eq;
use crate::text::{chars_of, string_of};

verus! {

/// One recognised piece of text, with times relative to its chunk.
#[derive(Debug, Clone)]
pub struct AsrSegment {
    pub start_ms: u64,
    pub end_ms: u64,
    pub text: String,
}

/// A stretch of audio attributed to one speaker cluster. Times are
/// session-relative milliseconds.
#[derive(Debug, Clone, Copy, PartialEq, Eq, Structural)]
pub struct SpeakerTurn {
    pub start_ms: u64,
    pub end_ms: u64,
    pub speaker: u32,
    pub overlap: bool,
}

/// One unit of output, optionally tagged with a speaker.
#[derive(Debug, Clone)]
pub struct EmittedSegment {
    pub start_ms: u64,
    pub end_ms: u64,
    pub text: String,
    /// The speaker cluster, when a turn overlaps the segment.
    pub speaker: Option<u32>,
    /// The overlapping turn had more than one voice.
    pub overlap: bool,
    /// The speaker assignment may still change.
    pub provisional: bool,
}

/// A buffer directory left over from an earlier session.
#[derive(Debug, Clone)]
pub struct PendingStream {
    pub stream_id: String,
    pub pending_chunks: u32,
    pub runtime: Option<String>,
    pub model: Option<String>,
    pub diarize_model: Option<String>,
}

/// An audio input the host offers.
#[derive(Debug, Clone)]
pub struct AudioInputDevice {
    pub name: String,
    pub is_default: bool,
}

/// Whether a flag is off; serialisation leaves such flags out.
pub fn is_false(b: &bool) -> (r: bool)
    ensures
        r == !*b,
{
    !*b
}

pub open spec fn min_u(a: int, b: int) -> int {
    if a <= b {
        a
    } else {
        b
    }
}

pub open spec fn max_u(a: int, b: int) -> int {
    if a >= b {
        a
    } else {
        b
    }
}

/// The turn that overlaps `[a, b)` most among the first `k` turns, with
/// the overlap; on a tie the turn that starts earlier wins, and of turns
/// that also start together the one listed first.
pub open spec fn best_turn(turns: Seq<SpeakerTurn>, a: int, b: int, k: int) -> Option<(SpeakerTurn, int)>
    decreases k,
{
    if k <= 0 {
        None
    } else {
        let prev = best_turn(turns, a, b, k - 1);
        let t = turns[k - 1];
        let lo = max_u(a, t.start_ms as int);
        let hi = min_u(b, t.end_ms as int);
        if hi > lo {
            match prev {
                Some(p) => if hi - lo > p.1 || (hi - lo == p.1 && t.start_ms < p.0.start_ms) {
                    Some((t, hi - lo))
                } else {
                    prev
                },
                None => Some((t, hi - lo)),
            }
        } else {
            prev
        }
    }
}

/// What `join_segments` makes of one recognised segment.
pub open spec fn joined(e: EmittedSegment, seg: AsrSegment, turns: Seq<SpeakerTurn>, t0: int) -> bool {
    let a = t0 + seg.start_ms;
    let b = t0 + seg.end_ms;
    let best = best_turn(turns, a, b, turns.len() as int);
    &&& e.start_ms == a
    &&& e.end_ms == b
    &&& e.text@ == seg.text@
    &&& e.speaker == (match best {
        Some(p) => Some(p.0.speaker),
        None => None,
    })
    &&& e.overlap == (match best {
        Some(p) => p.0.overlap,
        None => false,
    })
    &&& !e.provisional
}

fn best_turn_of(turns: &[SpeakerTurn], a: u64, b: u64) -> (r: Option<(u32, bool)>)
    ensures
        r == (match best_turn(turns@, a as int, b as int, turns@.len() as int) {
            Some(p) => Some((p.0.speaker, p.0.overlap)),
            None => None,
        }),
{
    let mut best: Option<(u32, bool, u64, u64)> = None;
    let mut i: usize = 0;
    while i < turns.len()
        invariant
            i <= turns@.len(),
            best == (match best_turn(turns@, a as int, b as int, i as int) {
                Some(p) => Some((p.0.speaker, p.0.overlap, p.1 as u64, p.0.start_ms)),
                None => None,
            }),
            best_turn(turns@, a as int, b as int, i as int) matches Some(p) ==> 0 < p.1 <= u64::MAX,
        decreases turns.len() - i,
    {
        let t = turns[i];
        let lo = if a >= t.start_ms {
            a
        } else {
            t.start_ms
        };
        let hi = if b <= t.end_ms {
            b
        } else {
            t.end_ms
        };
        if hi > lo {
            let ov = hi - lo;
            let better = match best {
                Some((_, _, o, st)) => ov > o || (ov == o && t.start_ms < st),
                None => true,
            };
            if better {
                best = Some((t.speaker, t.overlap, ov, t.start_ms));
            }
        }
        i = i + 1;
    }
    match best {
        Some((s, o, _, _)) => Some((s, o)),
        None => None,
    }
}

/// Tag each recognised segment with the speaker whose turn overlaps it
/// most (on a tie, the turn that starts earlier); segments no turn overlaps get no
/// speaker. Times become session-relative by adding the chunk start.
pub fn join_segments(asr_segments: &[AsrSegment], turns: &[SpeakerTurn], chunk_t0_ms: u64) -> (r: Vec<
    EmittedSegment,
>)
    requires
        forall|i: int|
            0 <= i < asr_segments@.len() ==> chunk_t0_ms + (#[trigger] asr_segments@[i]).start_ms
                <= u64::MAX && chunk_t0_ms + asr_segments@[i].end_ms <= u64::MAX,
    ensures
        r@.len() == asr_segments@.len(),
        forall|i: int|
            0 <= i < r@.len() ==> joined(#[trigger] r@[i], asr_segments@[i], turns@, chunk_t0_ms as int),
{
    let mut out: Vec<EmittedSegment> = Vec::new();
    let mut i: usize = 0;
    while i < asr_segments.len()
        invariant
            i <= asr_segments@.len(),
            out@.len() == i,
            forall|j: int|
                0 <= j < asr_segments@.len() ==> chunk_t0_ms + (#[trigger] asr_segments@[j]).start_ms
                    <= u64::MAX && chunk_t0_ms + asr_segments@[j].end_ms <= u64::MAX,
            forall|j: int|
                0 <= j < i ==> joined(#[trigger] out@[j], asr_segments@[j], turns@, chunk_t0_ms as int),
        decreases asr_segments.len() - i,
    {
        let seg = &asr_segments[i];
        let a = chunk_t0_ms + seg.start_ms;
        let b = chunk_t0_ms + seg.end_ms;
        let (speaker, overlap) = match best_turn_of(turns, a, b) {
            Some((s, o)) => (Some(s), o),
            None => (None, false),
        };
        out.push(
            EmittedSegment {
                start_ms: a,
                end_ms: b,
                text: seg.text.clone(),
                speaker,
                overlap,
                provisional: false,
            },
        );
        i = i + 1;
    }
    out
}

pub open spec fn stream_char_ok(c: char) -> bool {
    ('a' <= c && c <= 'z') || ('A' <= c && c <= 'Z') || ('0' <= c && c <= '9') || c == '-' || c
        == '_'
}

/// A stream id made safe for a directory name: every character other than
/// an ASCII letter, digit, `-` or `_` becomes `_`.
pub open spec fn spec_sanitize(s: Seq<char>) -> Seq<char> {
    s.map_values(|c: char| if stream_char_ok(c) { c } else { '_' })
}

pub fn sanitize_stream_id(s: &str) -> (r: String)
    ensures
        r@ == spec_sanitize(s@),
{
    let cs = chars_of(s);
    let mut out: Vec<char> = Vec::new();
    let mut i: usize = 0;
    while i < cs.len()
        invariant
            i <= cs@.len(),
            cs@ == s@,
            out@ == spec_sanitize(s@.take(i as int)),
        decreases cs.len() - i,
    {
        let c = cs[i];
        let d = if ('a' <= c && c <= 'z') || ('A' <= c && c <= 'Z') || ('0' <= c && c <= '9') || c
            == '-' || c == '_' {
            c
        } else {
            '_'
        };
        out.push(d);
        proof {
            assert(spec_sanitize(s@.take(i as int + 1)) =~= spec_sanitize(s@.take(i as int)).push(d));
        }
        i = i + 1;
    }
    proof {
        assert(s@.take(i as int) =~= s@);
    }
    string_of(out.as_slice())
}

#[verifier::external_type_specification]
#[verifier::external_body]
#[verifier::reject_recursive_types(K)]
#[verifier::reject_recursive_types(V)]
#[verifier::reject_recursive_types(S)]
pub struct ExDashMap<K, V, S>(dashmap::DashMap<K, V, S>);

/// The table of running sessions: stream id to cancel and pause flags.
pub type SessionTable = dashmap::DashMap<String, (bool, bool)>;

/// What a session table holds: each running stream id with its cancel
/// and pause flags.
pub uninterp spec fn session_map(m: SessionTable) -> Map<Seq<char>, (bool, bool)>;

/// No session at all.
pub open spec fn no_sessions() -> Map<Seq<char>, (bool, bool)> {
    Map::empty()
}

/// `DashMap::new`: an empty table.
#[verifier::external_body]
fn table_new() -> (r: SessionTable)
    ensures
        session_map(r) == no_sessions(),
{
    dashmap::DashMap::new()
}

/// `DashMap::contains_key`: whether a session runs under the id.
#[verifier::external_body]
fn table_contains(m: &SessionTable, id: &str) -> (r: bool)
    ensures
        r == session_map(*m).dom().contains(id@),
{
    m.contains_key(id)
}

/// `DashMap::get`, copying the flags out of the entry.
#[verifier::external_body]
fn table_get(m: &SessionTable, id: &str) -> (r: Option<(bool, bool)>)
    ensures
        r == (if session_map(*m).dom().contains(id@) {
            Some(session_map(*m)[id@])
        } else {
            None
        }),
{
    m.get(id).map(|e| *e.value())
}

/// `DashMap::insert`: the id now maps to the flags, replacing what it
/// mapped to before.
#[verifier::external_body]
fn table_insert(m: &mut SessionTable, id: String, flags: (bool, bool))
    ensures
        session_map(*final(m)) == session_map(*old(m)).insert(id@, flags),
{
    m.insert(id, flags);
}

/// `DashMap::remove`: the id no longer maps to anything.
#[verifier::external_body]
fn table_remove(m: &mut SessionTable, id: &str)
    ensures
        session_map(*final(m)) == session_map(*old(m)).remove(id@),
{
    m.remove(id);
}

/// The running transcription sessions, by stream id, each with its cancel
/// flag (the worker should unwind) and pause flag (capture is paused;
/// queued chunks still drain).
pub struct Sessions {
    table: SessionTable,
}

impl View for Sessions {
    type V = Map<Seq<char>, (bool, bool)>;

    closed spec fn view(&self) -> Map<Seq<char>, (bool, bool)> {
        session_map(self.table)
    }
}

impl Sessions {
    pub fn new() -> (r: Sessions)
        ensures
            r@ == no_sessions(),
    {
        Sessions { table: table_new() }
    }

    /// Whether a session runs under `id`.
    pub open spec fn spec_contains(&self, id: Seq<char>) -> bool {
        self@.dom().contains(id)
    }

    /// The flags of session `id`, when it runs.
    pub open spec fn spec_flags(&self, id: Seq<char>) -> Option<(bool, bool)> {
        if self@.dom().contains(id) {
            Some(self@[id])
        } else {
            None
        }
    }

    pub fn contains(&self, id: &str) -> (r: bool)
        ensures
            r == self.spec_contains(id@),
    {
        table_contains(&self.table, id)
    }

    /// The cancel and pause flags of session `id`, when it runs.
    pub fn flags(&self, id: &str) -> (r: Option<(bool, bool)>)
        ensures
            r == self.spec_flags(id@),
    {
        table_get(&self.table, id)
    }

    /// Register a new session with both flags off; refused while one runs
    /// under the same id.
    pub fn start(&mut self, id: &str) -> (r: bool)
        ensures
            r == !old(self).spec_contains(id@),
            r ==> final(self)@ == old(self)@.insert(id@, (false, false)),
            !r ==> final(self)@ == old(self)@,
    {
        if table_contains(&self.table, id) {
            return false;
        }
        table_insert(&mut self.table, id.to_string(), (false, false));
        true
    }

    /// Forget session `id`; every other session keeps its flags.
    pub fn remove(&mut self, id: &str)
        ensures
            final(self)@ == old(self)@.remove(id@),
    {
        table_remove(&mut self.table, id);
    }

    fn set_flag(&mut self, id: &str, cancel: Option<bool>, paused: Option<bool>)
        ensures
            final(self)@ == (if old(self)@.dom().contains(id@) {
                old(self)@.insert(
                    id@,
                    (
                        match cancel {
                            Some(c) => c,
                            None => old(self)@[id@].0,
                        },
                        match paused {
                            Some(p) => p,
                            None => old(self)@[id@].1,
                        },
                    ),
                )
            } else {
                old(self)@
            }),
    {
        match table_get(&self.table, id) {
            Some(f) => {
                let c = match cancel {
                    Some(c) => c,
                    None => f.0,
                };
                let p = match paused {
                    Some(p) => p,
                    None => f.1,
                };
                table_insert(&mut self.table, id.to_string(), (c, p));
            },
            None => {},
        }
    }
}

/// The refusal when a session already runs under `id`.
pub open spec fn running_msg(id: Seq<char>) -> Seq<char> {
    "transcription "@ + id + " is already running"@
}

/// The refusal of a live session whose speech model is not installed.
pub open spec fn live_asr_msg(model: Seq<char>, runtime: Seq<char>) -> Seq<char> {
    "ASR model '"@ + model + "' ("@ + runtime
        + ") isn't installed yet \u{2014} pull it first from Settings \u{2192} Transcription."@
}

/// The refusal of a live session whose diarization model is not installed.
pub open spec fn diarize_msg(d: Seq<char>) -> Seq<char> {
    "diarize model '"@ + d + "' isn't installed yet \u{2014} toggle off diarization or pull it first."@
}

/// The refusal of a drain or an upload whose speech model is not installed.
pub open spec fn asr_msg(model: Seq<char>) -> Seq<char> {
    "ASR model '"@ + model + "' isn't installed \u{2014} install it from Settings \u{2192} Models."@
}

/// The refusal of an upload whose file is not there.
pub open spec fn file_msg(path: Seq<char>) -> Seq<char> {
    "audio file not found: "@ + path
}

/// Why a live session may not start, checked in this order: one runs
/// under the id, the speech model is missing, the diarization model asked
/// for is missing.
pub open spec fn spec_refuse_live(
    live: Map<Seq<char>, (bool, bool)>,
    id: Seq<char>,
    runtime: Seq<char>,
    model: Seq<char>,
    asr_installed: bool,
    diarize: Option<(Seq<char>, bool)>,
) -> Option<Seq<char>> {
    if live.dom().contains(id) {
        Some(running_msg(id))
    } else if !asr_installed {
        Some(live_asr_msg(model, runtime))
    } else {
        match diarize {
            Some((d, false)) => Some(diarize_msg(d)),
            _ => None,
        }
    }
}

/// Why a drain of a leftover buffer may not start.
pub open spec fn spec_refuse_drain(live: Map<Seq<char>, (bool, bool)>, id: Seq<char>, model: Seq<char>, asr_installed: bool) -> Option<
    Seq<char>,
> {
    if live.dom().contains(id) {
        Some(running_msg(id))
    } else if !asr_installed {
        Some(asr_msg(model))
    } else {
        None
    }
}

/// Why the transcription of a file may not start.
pub open spec fn spec_refuse_upload(
    live: Map<Seq<char>, (bool, bool)>,
    id: Seq<char>,
    model: Seq<char>,
    asr_installed: bool,
    path: Seq<char>,
    file_exists: bool,
) -> Option<Seq<char>> {
    match spec_refuse_drain(live, id, model, asr_installed) {
        Some(m) => Some(m),
        None => if !file_exists {
            Some(file_msg(path))
        } else {
            None
        },
    }
}

fn cat(a: &str, b: &str) -> (r: String)
    ensures
        r@ == a@ + b@,
{
    crate::text::concat(a, b)
}

/// Settle an admission: register the session when nothing refused it.
fn settle(sessions: &mut Sessions, id: &str, refusal: Option<String>) -> (r: Result<(), String>)
    requires
        refusal is None ==> !old(sessions).spec_contains(id@),
    ensures
        match r {
            Ok(()) => refusal is None && final(sessions)@ == old(sessions)@.insert(id@, (false, false)),
            Err(m) => refusal == Some(m) && final(sessions)@ == old(sessions)@,
        },
{
    match refusal {
        Some(m) => Err(m),
        None => {
            let started = sessions.start(id);
            assert(started);
            Ok(())
        },
    }
}

/// Admit a live recording session under `stream_id`, given whether the
/// speech model and the diarization model asked for (if any) are
/// installed; an admitted session is registered with both flags off.
pub fn admit_live(
    sessions: &mut Sessions,
    stream_id: &str,
    runtime: &str,
    model_name: &str,
    asr_installed: bool,
    diarize: Option<(&str, bool)>,
) -> (r: Result<(), String>)
    ensures
        match r {
            Ok(()) => spec_refuse_live(
                old(sessions)@,
                stream_id@,
                runtime@,
                model_name@,
                asr_installed,
                match diarize {
                    Some((d, ok)) => Some((d@, ok)),
                    None => None,
                },
            ) is None && final(sessions)@ == old(sessions)@.insert(stream_id@, (false, false)),
            Err(m) => spec_refuse_live(
                old(sessions)@,
                stream_id@,
                runtime@,
                model_name@,
                asr_installed,
                match diarize {
                    Some((d, ok)) => Some((d@, ok)),
                    None => None,
                },
            ) == Some(m@) && final(sessions)@ == old(sessions)@,
        },
{
    let refusal = if sessions.contains(stream_id) {
        Some(cat(cat("transcription ", stream_id).as_str(), " is already running"))
    } else if !asr_installed {
        let a = cat(cat("ASR model '", model_name).as_str(), "' (");
        Some(cat(
            cat(a.as_str(), runtime).as_str(),
            ") isn't installed yet \u{2014} pull it first from Settings \u{2192} Transcription.",
        ))
    } else {
        match diarize {
            Some((d, false)) => Some(cat(
                cat("diarize model '", d).as_str(),
                "' isn't installed yet \u{2014} toggle off diarization or pull it first.",
            )),
            _ => None,
        }
    };
    settle(sessions, stream_id, refusal)
}

fn drain_refusal(sessions: &Sessions, stream_id: &str, model_name: &str, asr_installed: bool) -> (r: Option<String>)
    ensures
        match r {
            Some(m) => spec_refuse_drain(sessions@, stream_id@, model_name@, asr_installed) == Some(m@),
            None => spec_refuse_drain(sessions@, stream_id@, model_name@, asr_installed) is None,
        },
{
    if sessions.contains(stream_id) {
        Some(cat(cat("transcription ", stream_id).as_str(), " is already running"))
    } else if !asr_installed {
        Some(cat(
            cat("ASR model '", model_name).as_str(),
            "' isn't installed \u{2014} install it from Settings \u{2192} Models.",
        ))
    } else {
        None
    }
}

/// Admit a worker that drains the leftover buffer of `stream_id`.
pub fn admit_drain(sessions: &mut Sessions, stream_id: &str, model_name: &str, asr_installed: bool) -> (r: Result<
    (),
    String,
>)
    ensures
        match r {
            Ok(()) => spec_refuse_drain(old(sessions)@, stream_id@, model_name@, asr_installed) is None
                && final(sessions)@ == old(sessions)@.insert(stream_id@, (false, false)),
            Err(m) => spec_refuse_drain(old(sessions)@, stream_id@, model_name@, asr_installed) == Some(m@)
                && final(sessions)@ == old(sessions)@,
        },
{
    let refusal = drain_refusal(sessions, stream_id, model_name, asr_installed);
    settle(sessions, stream_id, refusal)
}

/// Admit the transcription of the audio file at `path`.
pub fn admit_upload(
    sessions: &mut Sessions,
    stream_id: &str,
    model_name: &str,
    asr_installed: bool,
    path: &str,
    file_exists: bool,
) -> (r: Result<(), String>)
    ensures
        match r {
            Ok(()) => spec_refuse_upload(old(sessions)@, stream_id@, model_name@, asr_installed, path@, file_exists)
                is None && final(sessions)@ == old(sessions)@.insert(stream_id@, (false, false)),
            Err(m) => spec_refuse_upload(old(sessions)@, stream_id@, model_name@, asr_installed, path@, file_exists)
                == Some(m@) && final(sessions)@ == old(sessions)@,
        },
{
    let refusal = match drain_refusal(sessions, stream_id, model_name, asr_installed) {
        Some(m) => Some(m),
        None => if !file_exists {
            Some(cat("audio file not found: ", path))
        } else {
            None
        },
    };
    settle(sessions, stream_id, refusal)
}

/// What a buffer directory's metadata file records of the session that
/// spilled it.
#[derive(Debug, Clone)]
pub struct BufferMeta {
    pub runtime: String,
    pub model: String,
    pub diarize_model: Option<String>,
}

pub open spec fn opt_seq(o: Option<String>) -> Option<Seq<char>> {
    match o {
        Some(s) => Some(s@),
        None => None,
    }
}

/// A buffer directory as values: its stream id, its pending chunks and
/// its metadata (runtime, model, diarization model) when it has any.
pub open spec fn buffer_dir_view(d: (String, u32, Option<BufferMeta>)) -> (
    Seq<char>,
    u32,
    Option<(Seq<char>, Seq<char>, Option<Seq<char>>)>,
) {
    (d.0@, d.1, match d.2 {
        Some(m) => Some((m.runtime@, m.model@, opt_seq(m.diarize_model))),
        None => None,
    })
}

pub open spec fn pending_view(p: PendingStream) -> (
    Seq<char>,
    u32,
    Option<Seq<char>>,
    Option<Seq<char>>,
    Option<Seq<char>>,
) {
    (p.stream_id@, p.pending_chunks, opt_seq(p.runtime), opt_seq(p.model), opt_seq(p.diarize_model))
}

/// The entry a directory gives: its id and count, with the metadata's
/// fields where it has metadata.
pub open spec fn pending_of(d: (Seq<char>, u32, Option<(Seq<char>, Seq<char>, Option<Seq<char>>)>)) -> (
    Seq<char>,
    u32,
    Option<Seq<char>>,
    Option<Seq<char>>,
    Option<Seq<char>>,
) {
    match d.2 {
        Some(m) => (d.0, d.1, Some(m.0), Some(m.1), m.2),
        None => (d.0, d.1, None, None, None),
    }
}

/// The directories that can be drained: those with pending chunks whose
/// stream is not being recorded right now, in order.
pub open spec fn spec_pending_streams(
    dirs: Seq<(Seq<char>, u32, Option<(Seq<char>, Seq<char>, Option<Seq<char>>)>)>,
    live: Map<Seq<char>, (bool, bool)>,
) -> Seq<(Seq<char>, u32, Option<Seq<char>>, Option<Seq<char>>, Option<Seq<char>>)>
    decreases dirs.len(),
{
    if dirs.len() == 0 {
        Seq::empty()
    } else {
        let d = dirs.last();
        spec_pending_streams(dirs.drop_last(), live) + if d.1 > 0 && !live.dom().contains(d.0) {
            seq![pending_of(d)]
        } else {
            Seq::empty()
        }
    }
}

fn pending_entry(d: &(String, u32, Option<BufferMeta>)) -> (r: PendingStream)
    ensures
        pending_view(r) == pending_of(buffer_dir_view(*d)),
{
    match &d.2 {
        Some(m) => PendingStream {
            stream_id: d.0.clone(),
            pending_chunks: d.1,
            runtime: Some(m.runtime.clone()),
            model: Some(m.model.clone()),
            diarize_model: match &m.diarize_model {
                Some(t) => Some(t.clone()),
                None => None,
            },
        },
        None => PendingStream {
            stream_id: d.0.clone(),
            pending_chunks: d.1,
            runtime: None,
            model: None,
            diarize_model: None,
        },
    }
}

/// The streams left over in the buffer that can be offered for draining:
/// `dirs` holds each buffer directory's stream id, pending chunk count
/// and metadata; directories with nothing pending, and those of a
/// session that is still running, are left out.
pub fn pending_streams(dirs: &[(String, u32, Option<BufferMeta>)], sessions: &Sessions) -> (r: Vec<PendingStream>)
    ensures
        r@.map_values(|p: PendingStream| pending_view(p)) == spec_pending_streams(
            dirs@.map_values(|d: (String, u32, Option<BufferMeta>)| buffer_dir_view(d)),
            sessions@,
        ),
{
    let ghost dv = dirs@.map_values(|d: (String, u32, Option<BufferMeta>)| buffer_dir_view(d));
    let mut out: Vec<PendingStream> = Vec::new();
    let mut i: usize = 0;
    while i < dirs.len()
        invariant
            i <= dirs@.len(),
            dv == dirs@.map_values(|d: (String, u32, Option<BufferMeta>)| buffer_dir_view(d)),
            out@.map_values(|p: PendingStream| pending_view(p)) == spec_pending_streams(dv.take(i as int), sessions@),
        decreases dirs@.len() - i,
    {
        let ghost before = out@;
        proof {
            assert(dv.take(i + 1).drop_last() =~= dv.take(i as int));
            assert(dv.take(i + 1).last() == buffer_dir_view(dirs@[i as int]));
        }
        if dirs[i].1 > 0 && !sessions.contains(dirs[i].0.as_str()) {
            let e = pending_entry(&dirs[i]);
            out.push(e);
            proof {
                assert(out@.map_values(|p: PendingStream| pending_view(p)) =~= before.map_values(
                    |p: PendingStream| pending_view(p),
                ).push(pending_view(e)));
            }
        } else {
            proof {
                assert(out@.map_values(|p: PendingStream| pending_view(p)) =~= before.map_values(
                    |p: PendingStream| pending_view(p),
                ) + Seq::empty());
            }
        }
        i = i + 1;
    }
    proof {
        assert(dv.take(dirs@.len() as int) =~= dv);
    }
    out
}

/// Ask session `id` to stop; nothing happens when no such session runs.
pub fn stop(sessions: &mut Sessions, stream_id: &str)
    ensures
        final(sessions)@ == (if old(sessions)@.dom().contains(stream_id@) {
            old(sessions)@.insert(stream_id@, (true, old(sessions)@[stream_id@].1))
        } else {
            old(sessions)@
        }),
{
    sessions.set_flag(stream_id, Some(true), None);
}

/// Pause capture of session `id`; nothing happens when no such session runs.
pub fn pause(sessions: &mut Sessions, stream_id: &str)
    ensures
        final(sessions)@ == (if old(sessions)@.dom().contains(stream_id@) {
            old(sessions)@.insert(stream_id@, (old(sessions)@[stream_id@].0, true))
        } else {
            old(sessions)@
        }),
{
    sessions.set_flag(stream_id, None, Some(true));
}

/// Resume capture of session `id`; nothing happens when no such session runs.
pub fn resume(sessions: &mut Sessions, stream_id: &str)
    ensures
        final(sessions)@ == (if old(sessions)@.dom().contains(stream_id@) {
            old(sessions)@.insert(stream_id@, (old(sessions)@[stream_id@].0, false))
        } else {
            old(sessions)@
        }),
{
    sessions.set_flag(stream_id, None, Some(false));
}


/// The file a chunk is spilled to: its sequence number in ten
/// zero-padded digits, then `.f32`.
pub open spec fn spec_chunk_file(seq: u64) -> Seq<char> {
    crate::iso::fmt_int(seq as int, 10) + ".f32"@
}

pub fn chunk_file_name(seq: u64) -> (r: String)
    ensures
        r@ == spec_chunk_file(seq),
{
    let mut out: Vec<char> = Vec::new();
    crate::iso::fmt_int_exec(seq as i128, 10, &mut out);
    let s = string_of(out.as_slice());
    crate::text::concat(s.as_str(), ".f32")
}

/// Index of the last `.` in `s`, or -1.
pub open spec fn last_dot(s: Seq<char>) -> int
    decreases s.len(),
{
    if s.len() == 0 {
        -1
    } else if s.last() == '.' {
        s.len() - 1
    } else {
        last_dot(s.drop_last())
    }
}

/// A file name's stem and extension as `Path` splits them: at the last
/// `.`, unless that dot starts the name.
pub open spec fn stem_ext(name: Seq<char>) -> (Seq<char>, Option<Seq<char>>) {
    let i = last_dot(name);
    if i <= 0 || name == ".."@ {
        (name, None)
    } else {
        (name.take(i), Some(name.skip(i + 1)))
    }
}

proof fn lemma_last_dot(s: Seq<char>)
    ensures
        -1 <= last_dot(s) < s.len(),
        last_dot(s) >= 0 ==> s[last_dot(s)] == '.',
        forall|j: int| last_dot(s) < j < s.len() ==> s[j] != '.',
    decreases s.len(),
{
    if s.len() > 0 {
        let p = s.drop_last();
        lemma_last_dot(p);
        assert forall|j: int| last_dot(s) < j < s.len() implies s[j] != '.' by {
            if j < s.len() - 1 {
                assert(s[j] == p[j]);
            }
        }
    }
}

fn stem_ext_of(name: &str) -> (r: (String, Option<String>))
    ensures
        r.0@ == stem_ext(name@).0,
        crate::cli::opt_views(r.1) == stem_ext(name@).1,
{
    let cs = chars_of(name);
    proof {
        lemma_last_dot(name@);
    }
    let mut i: usize = cs.len();
    while i > 0 && cs[i - 1] != '.'
        invariant
            i <= cs@.len(),
            cs@ == name@,
            forall|j: int| i <= j < cs@.len() ==> cs@[j] != '.',
        decreases i,
    {
        i = i - 1;
    }
    proof {
        let ld = last_dot(name@);
        if i > 0 {
            assert(cs@[i - 1] == '.');
            assert(ld == i - 1) by {
                if ld > i - 1 {
                    assert(cs@[ld] == '.');
                }
            }
        } else {
            assert(ld < 0) by {
                if ld >= 0 {
                    assert(cs@[ld] == '.');
                }
            }
        }
    }
    if i <= 1 || str_eq(name, "..") {
        return (name.to_string(), None);
    }
    let mut stem: Vec<char> = Vec::new();
    let mut k: usize = 0;
    while k < i - 1
        invariant
            k <= i - 1,
            1 < i <= cs@.len(),
            stem@ == cs@.take(k as int),
        decreases i - 1 - k,
    {
        stem.push(cs[k]);
        proof {
            assert(cs@.take(k as int + 1) =~= cs@.take(k as int).push(cs@[k as int]));
        }
        k = k + 1;
    }
    let mut ext: Vec<char> = Vec::new();
    crate::text::append_from(&mut ext, &cs, i);
    (string_of(stem.as_slice()), Some(string_of(ext.as_slice())))
}

/// The sequence number of a chunk file name: a `.f32` extension and a
/// stem that reads as an unsigned integer.
pub open spec fn chunk_seq(name: Seq<char>) -> Option<u64> {
    let (stem, ext) = stem_ext(name);
    if ext == Some(".f32"@.skip(1)) {
        crate::num::spec_parse_u64_str(stem)
    } else {
        None
    }
}

/// The smallest of `a` and `b`, either of which may be absent.
pub open spec fn min_opt(a: Option<u64>, b: Option<u64>) -> Option<u64> {
    match (a, b) {
        (Some(x), Some(y)) => Some(if x <= y { x } else { y }),
        (Some(x), None) => Some(x),
        (None, y) => y,
    }
}

/// The smallest chunk sequence number among file names.
pub open spec fn lowest_seq(names: Seq<Seq<char>>) -> Option<u64>
    decreases names.len(),
{
    if names.len() == 0 {
        None
    } else {
        min_opt(lowest_seq(names.drop_last()), chunk_seq(names.last()))
    }
}

fn chunk_seq_of(name: &str) -> (r: Option<u64>)
    ensures
        r == chunk_seq(name@),
{
    let (stem, ext) = stem_ext_of(name);
    proof {
        reveal_strlit(".f32");
        reveal_strlit("f32");
        assert(".f32"@.skip(1) =~= "f32"@);
    }
    match ext {
        Some(e) => {
            if str_eq(e.as_str(), "f32") {
                crate::num::parse_u64_str(stem.as_str())
            } else {
                None
            }
        },
        None => None,
    }
}

/// The lowest sequence number among the chunk files of a directory
/// listing; `None` when there is none.
pub fn lowest_pending_seq(names: &[String]) -> (r: Option<u64>)
    ensures
        r == lowest_seq(crate::sorted::views(names@)),
{
    let ghost nv = crate::sorted::views(names@);
    let mut best: Option<u64> = None;
    let mut i: usize = 0;
    proof {
        assert(nv.take(0) =~= Seq::<Seq<char>>::empty());
    }
    while i < names.len()
        invariant
            i <= names@.len(),
            nv == crate::sorted::views(names@),
            best == lowest_seq(nv.take(i as int)),
        decreases names.len() - i,
    {
        proof {
            let p = nv.take(i as int + 1);
            assert(p.drop_last() =~= nv.take(i as int));
            assert(p.last() == names@[i as int]@);
        }
        let c = chunk_seq_of(names[i].as_str());
        best = match (best, c) {
            (Some(x), Some(y)) => Some(if x <= y { x } else { y }),
            (Some(x), None) => Some(x),
            (None, y) => y,
        };
        i = i + 1;
    }
    proof {
        assert(nv.take(i as int) =~= nv);
    }
    best
}

/// The number of chunk files (`.f32` extension) in a listing, capped.
pub open spec fn pending_count(names: Seq<Seq<char>>) -> u32
    decreases names.len(),
{
    if names.len() == 0 {
        0
    } else {
        let n = pending_count(names.drop_last());
        if stem_ext(names.last()).1 == Some(".f32"@.skip(1)) {
            if n == u32::MAX { n } else { (n + 1) as u32 }
        } else {
            n
        }
    }
}

pub fn count_pending_chunks(names: &[String]) -> (r: u32)
    ensures
        r == pending_count(crate::sorted::views(names@)),
{
    let ghost nv = crate::sorted::views(names@);
    let mut n: u32 = 0;
    let mut i: usize = 0;
    proof {
        assert(nv.take(0) =~= Seq::<Seq<char>>::empty());
        reveal_strlit(".f32");
        reveal_strlit("f32");
        assert(".f32"@.skip(1) =~= "f32"@);
    }
    while i < names.len()
        invariant
            i <= names@.len(),
            nv == crate::sorted::views(names@),
            n == pending_count(nv.take(i as int)),
            ".f32"@.skip(1) == "f32"@,
        decreases names.len() - i,
    {
        proof {
            let p = nv.take(i as int + 1);
            assert(p.drop_last() =~= nv.take(i as int));
            assert(p.last() == names@[i as int]@);
        }
        let (_stem, ext) = stem_ext_of(names[i].as_str());
        let is_chunk = match ext {
            Some(e) => str_eq(e.as_str(), "f32"),
            None => false,
        };
        if is_chunk {
            n = n.saturating_add(1);
        }
        i = i + 1;
    }
    proof {
        assert(nv.take(i as int) =~= nv);
    }
    n
}


/// What became of one queued chunk.
#[derive(Debug, Clone, Copy, PartialEq, Eq, Structural)]
pub enum ChunkOutcome {
    /// The chunk file could not be read; it is dropped.
    ReadFailed,
    /// The chunk is below the silence threshold; it is skipped.
    Silent { chunk_ms: u64 },
    /// Recognition failed; `cancelled` when the session was stopping.
    AsrFailed { chunk_ms: u64, cancelled: bool },
    /// Recognition succeeded; `used_state` when the backend carried state
    /// across chunks.
    Transcribed { chunk_ms: u64, used_state: bool },
}

/// The bookkeeping of a transcription loop: the next chunk file, the
/// session time at which the next chunk starts, and the count of chunks
/// since the recogniser's state was last reset.
#[derive(Debug, Clone, Copy, PartialEq, Eq, Structural)]
pub struct ChunkLoop {
    pub next_seq: u64,
    pub chunk_t0_ms: u64,
    pub chunks_since_reset: u64,
    /// Reset the recogniser's state every this many stateful chunks; 0
    /// never.
    pub state_reset_chunks: u64,
}

/// What the loop does after a chunk.
#[derive(Debug, Clone, Copy, PartialEq, Eq, Structural)]
pub struct ChunkStep {
    /// Leave the loop.
    pub stop: bool,
    /// Reset the recogniser's state.
    pub reset_state: bool,
    /// The session time the chunk's segments are relative to.
    pub chunk_t0_ms: u64,
}

/// The loop after `o`, and what to do.
pub open spec fn spec_chunk_step(s: ChunkLoop, o: ChunkOutcome) -> (ChunkLoop, ChunkStep) {
    let keep = ChunkStep { stop: false, reset_state: false, chunk_t0_ms: s.chunk_t0_ms };
    match o {
        ChunkOutcome::ReadFailed => (ChunkLoop { next_seq: (s.next_seq + 1) as u64, ..s }, keep),
        ChunkOutcome::Silent { chunk_ms } => (
            ChunkLoop { next_seq: (s.next_seq + 1) as u64, chunk_t0_ms: (s.chunk_t0_ms + chunk_ms) as u64, ..s },
            keep,
        ),
        ChunkOutcome::AsrFailed { chunk_ms, cancelled } => if cancelled {
            (s, ChunkStep { stop: true, ..keep })
        } else {
            (
                ChunkLoop {
                    next_seq: (s.next_seq + 1) as u64,
                    chunk_t0_ms: (s.chunk_t0_ms + chunk_ms) as u64,
                    ..s
                },
                keep,
            )
        },
        ChunkOutcome::Transcribed { chunk_ms, used_state } => {
            let counted = used_state && s.state_reset_chunks > 0;
            let since = if counted { s.chunks_since_reset + 1 } else { s.chunks_since_reset as int };
            let reset = counted && since >= s.state_reset_chunks;
            (
                ChunkLoop {
                    next_seq: (s.next_seq + 1) as u64,
                    chunk_t0_ms: (s.chunk_t0_ms + chunk_ms) as u64,
                    chunks_since_reset: if reset { 0 } else { since as u64 },
                    state_reset_chunks: s.state_reset_chunks,
                },
                ChunkStep { stop: false, reset_state: reset, chunk_t0_ms: s.chunk_t0_ms },
            )
        },
    }
}

/// The counters stay within `u64` after the outcome.
pub open spec fn chunk_step_fits(s: ChunkLoop, o: ChunkOutcome) -> bool {
    &&& s.next_seq < u64::MAX
    &&& s.chunks_since_reset < u64::MAX
    &&& match o {
        ChunkOutcome::Silent { chunk_ms } => s.chunk_t0_ms + chunk_ms <= u64::MAX,
        ChunkOutcome::AsrFailed { chunk_ms, .. } => s.chunk_t0_ms + chunk_ms <= u64::MAX,
        ChunkOutcome::Transcribed { chunk_ms, .. } => s.chunk_t0_ms + chunk_ms <= u64::MAX,
        ChunkOutcome::ReadFailed => true,
    }
}

impl ChunkLoop {
    /// A loop starting at chunk `first_seq`, time zero.
    pub fn new(first_seq: u64, state_reset_chunks: u64) -> (r: ChunkLoop)
        ensures
            r == (ChunkLoop { next_seq: first_seq, chunk_t0_ms: 0, chunks_since_reset: 0, state_reset_chunks }),
    {
        ChunkLoop { next_seq: first_seq, chunk_t0_ms: 0, chunks_since_reset: 0, state_reset_chunks }
    }

    /// Account for one chunk: every chunk but a cancelled one moves to the
    /// next file; all but a failed read advance the time by the chunk's
    /// length; a cancelled recognition stops the loop; a stateful chunk
    /// counts toward the periodic state reset.
    pub fn step(&mut self, o: ChunkOutcome) -> (r: ChunkStep)
        requires
            chunk_step_fits(*old(self), o),
        ensures
            (*final(self), r) == spec_chunk_step(*old(self), o),
    {
        let t0 = self.chunk_t0_ms;
        let keep = ChunkStep { stop: false, reset_state: false, chunk_t0_ms: t0 };
        match o {
            ChunkOutcome::ReadFailed => {
                self.next_seq = self.next_seq + 1;
                keep
            },
            ChunkOutcome::Silent { chunk_ms } => {
                self.next_seq = self.next_seq + 1;
                self.chunk_t0_ms = self.chunk_t0_ms + chunk_ms;
                keep
            },
            ChunkOutcome::AsrFailed { chunk_ms, cancelled } => {
                if cancelled {
                    ChunkStep { stop: true, reset_state: false, chunk_t0_ms: t0 }
                } else {
                    self.next_seq = self.next_seq + 1;
                    self.chunk_t0_ms = self.chunk_t0_ms + chunk_ms;
                    keep
                }
            },
            ChunkOutcome::Transcribed { chunk_ms, used_state } => {
                self.next_seq = self.next_seq + 1;
                self.chunk_t0_ms = self.chunk_t0_ms + chunk_ms;
                let mut reset = false;
                if used_state && self.state_reset_chunks > 0 {
                    self.chunks_since_reset = self.chunks_since_reset + 1;
                    if self.chunks_since_reset >= self.state_reset_chunks {
                        self.chunks_since_reset = 0;
                        reset = true;
                    }
                }
                ChunkStep { stop: false, reset_state: reset, chunk_t0_ms: t0 }
            },
        }
    }
}

/// Where a drain goes when the next chunk file is missing: on to the
/// lowest pending one when it is further, one on otherwise, and nowhere
/// (the drain ends) when no chunk is left.
pub fn drain_next_seq(next_seq: u64, lowest: Option<u64>) -> (r: Option<u64>)
    requires
        lowest is Some ==> next_seq < u64::MAX,
    ensures
        r == (match lowest {
            Some(s) => Some(if s > next_seq { s } else { (next_seq + 1) as u64 }),
            None => None,
        }),
{
    match lowest {
        Some(s) => {
            if s > next_seq {
                Some(s)
            } else {
                Some(next_seq + 1)
            }
        },
        None => None,
    }
}

pub open spec fn emitted_views(v: Seq<EmittedSegment>) -> Seq<(u64, u64, Seq<char>, Option<u32>, bool, bool)> {
    v.map_values(|e: EmittedSegment| (e.start_ms, e.end_ms, e.text@, e.speaker, e.overlap, e.provisional))
}

/// The segments whose text is not blank, in order.
pub open spec fn non_blank_emitted(v: Seq<(u64, u64, Seq<char>, Option<u32>, bool, bool)>) -> Seq<
    (u64, u64, Seq<char>, Option<u32>, bool, bool),
>
    decreases v.len(),
{
    if v.len() == 0 {
        Seq::empty()
    } else {
        non_blank_emitted(v.drop_last()) + if crate::text::trim(v.last().2).len() > 0 {
            seq![v.last()]
        } else {
            Seq::empty()
        }
    }
}

/// Drop segments whose text is blank.
pub fn retain_spoken(segments: Vec<EmittedSegment>) -> (r: Vec<EmittedSegment>)
    ensures
        emitted_views(r@) == non_blank_emitted(emitted_views(segments@)),
{
    let ghost sv = emitted_views(segments@);
    let n = segments.len();
    let mut rest = segments;
    let mut rev: Vec<EmittedSegment> = Vec::new();
    let ghost orig = rest@;
    let mut k: usize = 0;
    while k < n
        invariant
            k <= n == orig.len(),
            rest@ == orig.take(n - k),
            rev@.len() == k,
            forall|j: int| 0 <= j < k ==> #[trigger] rev@[j] == orig[n - 1 - j],
        decreases n - k,
    {
        let x = rest.pop().unwrap();
        proof {
            assert(orig.take(n - k).last() == orig[n - 1 - k]);
            assert(orig.take(n - k).drop_last() =~= orig.take(n - k - 1));
        }
        rev.push(x);
        k = k + 1;
    }
    let mut out: Vec<EmittedSegment> = Vec::new();
    let mut i: usize = 0;
    proof {
        assert(sv.take(0) =~= Seq::<(u64, u64, Seq<char>, Option<u32>, bool, bool)>::empty());
        assert(emitted_views(out@) =~= non_blank_emitted(sv.take(0)));
    }
    while i < n
        invariant
            i <= n == orig.len(),
            sv == emitted_views(orig),
            rev@.len() == n - i,
            forall|j: int| 0 <= j < n - i ==> #[trigger] rev@[j] == orig[n - 1 - j],
            emitted_views(out@) == non_blank_emitted(sv.take(i as int)),
        decreases n - i,
    {
        let x = rev.pop().unwrap();
        proof {
            assert(x == orig[i as int]);
            let p = sv.take(i as int + 1);
            assert(p.drop_last() =~= sv.take(i as int));
        }
        let cs = chars_of(x.text.as_str());
        let t = crate::text::trim_chars(&cs);
        let ghost before = emitted_views(out@);
        if t.len() > 0 {
            out.push(x);
            proof {
                assert(emitted_views(out@) =~= before + seq![sv[i as int]]);
            }
        } else {
            proof {
                assert(before =~= before + Seq::<(u64, u64, Seq<char>, Option<u32>, bool, bool)>::empty());
            }
        }
        i = i + 1;
    }
    proof {
        assert(sv.take(i as int) =~= sv);
    }
    out
}

} // verus!
