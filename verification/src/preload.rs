//! Preloading modes: the per-mode sequence of resolve, pull and warm steps
//! as a state machine, and the bookkeeping of tracked modes.
//!
//! The caller performs each [`Step`] (resolving a mode, asking Ollama
//! whether a tag is present, pulling it, warming it) and reports what
//! happened; the machine answers with the progress events to publish and
//! the next step. Modes served by another runtime than Ollama are reported
//! ready without any step.

use vstd::prelude::*;
use crate::config::{spec_tracked_list, tracked_list};
use crate::json::{str_eq, Json, JsonV};
use crate::sorted::{sort_dedup, strictly_sorted, views};
use crate::text::{concat, push_str};

verus! {

/// One progress report.
#[derive(Debug, Clone)]
pub struct PreloadEvent {
    pub mode: String,
    pub model: String,
    /// `resolved`, `pulling`, `pulled`, `warming`, `ready` or `error`.
    pub status: String,
    pub detail: String,
}

pub open spec fn ev(e: PreloadEvent) -> (Seq<char>, Seq<char>, Seq<char>, Seq<char>) {
    (e.mode@, e.model@, e.status@, e.detail@)
}

pub open spec fn evs(v: Seq<PreloadEvent>) -> Seq<(Seq<char>, Seq<char>, Seq<char>, Seq<char>)> {
    v.map_values(|e: PreloadEvent| ev(e))
}

/// What the caller does next.
#[derive(Debug, Clone)]
pub enum Step {
    /// Resolve the mode to a tag.
    Resolve(String),
    /// Ask Ollama whether the tag is present.
    CheckPulled(String),
    /// Pull the tag, forwarding its progress lines.
    Pull(String),
    /// Warm the tag up.
    Warm(String),
    /// Every mode is done.
    Finish,
}

/// What the caller reports.
#[derive(Debug)]
pub enum Outcome {
    /// The mode resolved to a tag, or failed with a message.
    Resolved(Result<String, String>),
    /// Whether the tag is already present.
    Present(bool),
    /// The pull ended, or failed with a message.
    Pulled(Result<(), String>),
    /// The warm-up ended, or failed with a message.
    Warmed(Result<(), String>),
}

/// The step is to resolve `m`.
pub open spec fn resolves(s: Step, m: Seq<char>) -> bool {
    match s {
        Step::Resolve(x) => x@ == m,
        _ => false,
    }
}

/// The step is to check whether `m` is present.
pub open spec fn checks(s: Step, m: Seq<char>) -> bool {
    match s {
        Step::CheckPulled(x) => x@ == m,
        _ => false,
    }
}

/// The step is to pull `m`.
pub open spec fn pulls(s: Step, m: Seq<char>) -> bool {
    match s {
        Step::Pull(x) => x@ == m,
        _ => false,
    }
}

/// The step is to warm `m` up.
pub open spec fn warms(s: Step, m: Seq<char>) -> bool {
    match s {
        Step::Warm(x) => x@ == m,
        _ => false,
    }
}

#[derive(Debug, Clone, Copy, PartialEq, Eq, Structural)]
pub enum Phase {
    Resolving,
    Checking,
    Pulling,
    Warming,
    Done,
}

/// The machine: the modes, the runtime of each mode that is not served
/// by Ollama, whether to warm, the current mode and its tag.
pub struct Preloader {
    pub modes: Vec<String>,
    pub other_runtime: Vec<Option<String>>,
    pub warm: bool,
    pub idx: usize,
    pub model: String,
    pub phase: Phase,
}

impl Preloader {
    pub open spec fn wf(&self) -> bool {
        &&& self.other_runtime@.len() == self.modes@.len()
        &&& self.idx <= self.modes@.len()
        &&& (self.phase == Phase::Done <==> self.idx == self.modes@.len())
    }
}

pub open spec fn event(mode: Seq<char>, model: Seq<char>, status: Seq<char>, detail: Seq<char>) -> (
    Seq<char>,
    Seq<char>,
    Seq<char>,
    Seq<char>,
) {
    (mode, model, status, detail)
}

/// The events of the modes from `idx` on that another runtime serves,
/// up to the first Ollama mode; and that mode's index.
pub open spec fn skip_other(modes: Seq<Seq<char>>, rts: Seq<Option<Seq<char>>>, idx: int) -> (
    Seq<(Seq<char>, Seq<char>, Seq<char>, Seq<char>)>,
    int,
)
    decreases modes.len() - idx,
{
    if idx < 0 || idx >= modes.len() || idx >= rts.len() {
        (Seq::empty(), idx)
    } else {
        match rts[idx] {
            Some(rt) => {
                let rest = skip_other(modes, rts, idx + 1);
                (
                    seq![
                        event(
                            modes[idx],
                            Seq::empty(),
                            "ready"@,
                            modes[idx] + " uses the "@ + rt + " runtime (manage via Settings \u{2192} Transcription)"@,
                        ),
                    ] + rest.0,
                    rest.1,
                )
            },
            None => (Seq::empty(), idx),
        }
    }
}

fn mk(mode: &str, model: &str, status: &str, detail: &str) -> (r: PreloadEvent)
    ensures
        ev(r) == event(mode@, model@, status@, detail@),
{
    PreloadEvent {
        mode: mode.to_string(),
        model: model.to_string(),
        status: status.to_string(),
        detail: detail.to_string(),
    }
}

/// An event with an empty detail.
fn mk0(mode: &str, model: &str, status: &str) -> (r: PreloadEvent)
    ensures
        ev(r) == event(mode@, model@, status@, Seq::empty()),
{
    let r = mk(mode, model, status, "");
    proof {
        reveal_strlit("");
    }
    r
}

/// An event without a model.
fn mk_bare(mode: &str, status: &str, detail: &str) -> (r: PreloadEvent)
    ensures
        ev(r) == event(mode@, Seq::empty(), status@, detail@),
{
    let r = mk(mode, "", status, detail);
    proof {
        reveal_strlit("");
    }
    r
}

/// Append an event.
fn push_ev(out: &mut Vec<PreloadEvent>, e: PreloadEvent)
    ensures
        evs(final(out)@) == evs(old(out)@).push(ev(e)),
{
    let ghost x = ev(e);
    out.push(e);
    proof {
        assert(evs(out@) =~= evs(old(out)@).push(x));
    }
}

/// `s` with `t` after it.
fn cat(s: &str, t: &str) -> (r: String)
    ensures
        r@ == s@ + t@,
{
    concat(s, t)
}

pub open spec fn opt_views(v: Seq<Option<String>>) -> Seq<Option<Seq<char>>> {
    v.map_values(
        |o: Option<String>|
            match o {
                Some(s) => Some(s@),
                None => None,
            },
    )
}

impl Preloader {
    /// Publish the modes from `self.idx` on that another runtime serves,
    /// then ask to resolve the next Ollama mode, or finish.
    fn advance(&mut self, out: &mut Vec<PreloadEvent>) -> (r: Step)
        requires
            old(self).other_runtime@.len() == old(self).modes@.len(),
            old(self).idx <= old(self).modes@.len(),
        ensures
            final(self).wf(),
            final(self).modes == old(self).modes,
            final(self).other_runtime == old(self).other_runtime,
            final(self).warm == old(self).warm,
            final(self).model == old(self).model,
            ({
                let s = skip_other(views(old(self).modes@), opt_views(old(self).other_runtime@), old(self).idx as int);
                &&& evs(final(out)@) == evs(old(out)@) + s.0
                &&& final(self).idx == s.1
                &&& (s.1 == old(self).modes@.len() ==> r is Finish && final(self).phase == Phase::Done)
                &&& (s.1 < old(self).modes@.len() ==> resolves(r, views(old(self).modes@)[s.1])
                    && final(self).phase == Phase::Resolving)
            }),
        decreases old(self).modes@.len() - old(self).idx,
    {
        let ghost ms = views(self.modes@);
        let ghost rs = opt_views(self.other_runtime@);
        if self.idx == self.modes.len() {
            self.phase = Phase::Done;
            proof {
                assert(evs(out@) =~= evs(out@) + Seq::empty());
            }
            return Step::Finish;
        }
        let i = self.idx;
        match &self.other_runtime[i] {
            Some(rt) => {
                let d1 = cat(self.modes[i].as_str(), " uses the ");
                let d2 = cat(d1.as_str(), rt.as_str());
                let d3 = cat(d2.as_str(), " runtime (manage via Settings \u{2192} Transcription)");
                let e = mk_bare(self.modes[i].as_str(), "ready", d3.as_str());
                let ghost before = evs(out@);
                push_ev(out, e);
                self.idx = i + 1;
                proof {
                    reveal_strlit("");
                    assert(ms[i as int] == self.modes@[i as int]@);
                    assert(rs[i as int] == Some(rt@));
                }
                let r = self.advance(out);
                proof {
                    let s = skip_other(ms, rs, i as int);
                    let rest = skip_other(ms, rs, i as int + 1);
                    assert(evs(out@) =~= before + s.0);
                }
                r
            },
            None => {
                self.phase = Phase::Resolving;
                proof {
                    assert(rs[i as int] is None);
                    assert(evs(out@) =~= evs(out@) + Seq::empty());
                }
                Step::Resolve(self.modes[i].clone())
            },
        }
    }

    /// Start preloading `modes`; `other_runtime[i]` names the runtime of
    /// mode `i` when Ollama does not serve it.
    pub fn start(modes: Vec<String>, other_runtime: Vec<Option<String>>, warm: bool) -> (r: (
        Preloader,
        Vec<PreloadEvent>,
        Step,
    ))
        requires
            other_runtime@.len() == modes@.len(),
        ensures
            r.0.wf(),
            r.0.modes == modes,
            r.0.warm == warm,
            ({
                let s = skip_other(views(modes@), opt_views(other_runtime@), 0);
                &&& evs(r.1@) == s.0
                &&& r.0.idx == s.1
                &&& (s.1 == modes@.len() ==> r.2 is Finish)
                &&& (s.1 < modes@.len() ==> resolves(r.2, views(modes@)[s.1]))
            }),
    {
        let mut p = Preloader { modes, other_runtime, warm, idx: 0, model: String::new(), phase: Phase::Resolving };
        let mut out: Vec<PreloadEvent> = Vec::new();
        let step = p.advance(&mut out);
        proof {
            assert(evs(Seq::<PreloadEvent>::empty()) =~= Seq::empty());
        }
        (p, out, step)
    }
}

/// The machine's state as values: the current mode's index, the phase
/// and the current tag.
pub type PreloadState = (int, Phase, Seq<char>);

/// The state after the current mode `i` ends: the next mode served by
/// Ollama (after the others are reported ready), or done.
pub open spec fn after_mode(ms: Seq<Seq<char>>, rs: Seq<Option<Seq<char>>>, i: int, model: Seq<char>) -> PreloadState {
    let n = skip_other(ms, rs, i + 1);
    (n.1, if n.1 == ms.len() { Phase::Done } else { Phase::Resolving }, model)
}

/// One step of the machine: the events an outcome makes in a state, and
/// the state after it. An outcome that does not fit the phase changes
/// nothing.
pub open spec fn spec_on(
    ms: Seq<Seq<char>>,
    rs: Seq<Option<Seq<char>>>,
    warm: bool,
    st: PreloadState,
    outcome: Outcome,
) -> (Seq<(Seq<char>, Seq<char>, Seq<char>, Seq<char>)>, PreloadState) {
    let (i, phase, model) = st;
    let m = ms[i];
    let next = skip_other(ms, rs, i + 1).0;
    let done = after_mode(ms, rs, i, model);
    match (phase, outcome) {
        (Phase::Resolving, Outcome::Resolved(Err(e))) => (
            seq![event(m, Seq::empty(), "error"@, "resolve failed: "@ + e@)] + next,
            done,
        ),
        (Phase::Resolving, Outcome::Resolved(Ok(t))) => (
            seq![event(m, t@, "resolved"@, Seq::empty())],
            (i, Phase::Checking, t@),
        ),
        (Phase::Checking, Outcome::Present(false)) => (
            seq![event(m, model, "pulling"@, "starting"@)],
            (i, Phase::Pulling, model),
        ),
        (Phase::Checking, Outcome::Present(true)) => if warm {
            (seq![event(m, model, "warming"@, Seq::empty())], (i, Phase::Warming, model))
        } else {
            (seq![event(m, model, "ready"@, Seq::empty())] + next, done)
        },
        (Phase::Pulling, Outcome::Pulled(Err(e))) => (
            seq![event(m, model, "error"@, "pull failed: "@ + e@)] + next,
            done,
        ),
        (Phase::Pulling, Outcome::Pulled(Ok(()))) => if warm {
            (
                seq![event(m, model, "pulled"@, Seq::empty()), event(m, model, "warming"@, Seq::empty())],
                (i, Phase::Warming, model),
            )
        } else {
            (
                seq![event(m, model, "pulled"@, Seq::empty()), event(m, model, "ready"@, Seq::empty())]
                    + next,
                done,
            )
        },
        (Phase::Warming, Outcome::Warmed(Err(e))) => (
            seq![
                event(m, model, "error"@, "warm failed (non-fatal): "@ + e@),
                event(m, model, "ready"@, Seq::empty()),
            ] + next,
            done,
        ),
        (Phase::Warming, Outcome::Warmed(Ok(()))) => (seq![event(m, model, "ready"@, Seq::empty())] + next, done),
        _ => (Seq::empty(), st),
    }
}

impl Preloader {
    /// Move past the current mode.
    fn next_mode(&mut self, out: &mut Vec<PreloadEvent>) -> (r: Step)
        requires
            old(self).wf(),
            old(self).idx < old(self).modes@.len(),
        ensures
            final(self).wf(),
            final(self).modes == old(self).modes,
            final(self).other_runtime == old(self).other_runtime,
            final(self).warm == old(self).warm,
            final(self).model == old(self).model,
            ({
                let s = skip_other(views(old(self).modes@), opt_views(old(self).other_runtime@), old(self).idx + 1);
                &&& evs(final(out)@) == evs(old(out)@) + s.0
                &&& final(self).idx == s.1
                &&& final(self).phase == (if s.1 == old(self).modes@.len() { Phase::Done } else { Phase::Resolving })
                &&& (s.1 == old(self).modes@.len() ==> r is Finish)
                &&& (s.1 < old(self).modes@.len() ==> resolves(r, views(old(self).modes@)[s.1]))
            }),
    {
        let _n = self.modes.len();
        self.idx = self.idx + 1;
        self.advance(out)
    }

    /// The event a pull progress line makes.
    pub fn on_progress(&self, line: &str) -> (r: PreloadEvent)
        requires
            self.wf(),
            self.phase == Phase::Pulling,
        ensures
            ev(r) == event(views(self.modes@)[self.idx as int], self.model@, "pulling"@, line@),
    {
        mk(self.modes[self.idx].as_str(), self.model.as_str(), "pulling", line)
    }

    /// Report what the current step gave; the answer is the events to
    /// publish and the next step. An outcome that does not fit the
    /// current step changes nothing and asks for the step again.
    pub fn on(&mut self, outcome: Outcome) -> (r: (Vec<PreloadEvent>, Step))
        requires
            old(self).wf(),
            old(self).phase != Phase::Done,
        ensures
            final(self).wf(),
            final(self).modes == old(self).modes,
            final(self).other_runtime == old(self).other_runtime,
            final(self).warm == old(self).warm,
            ({
                let ms = views(old(self).modes@);
                let rs = opt_views(old(self).other_runtime@);
                let m = ms[old(self).idx as int];
                let next = skip_other(ms, rs, old(self).idx + 1);
                let model = old(self).model@;
                match (old(self).phase, outcome) {
                    (Phase::Resolving, Outcome::Resolved(Err(e))) => evs(r.0@) == seq![
                        event(m, Seq::empty(), "error"@, "resolve failed: "@ + e@),
                    ] + next.0 && final(self).idx == next.1,
                    (Phase::Resolving, Outcome::Resolved(Ok(t))) => evs(r.0@) == seq![
                        event(m, t@, "resolved"@, Seq::empty()),
                    ] && final(self).phase == Phase::Checking && final(self).model@ == t@ && checks(r.1, t@)
                        && final(self).idx == old(self).idx,
                    (Phase::Checking, Outcome::Present(false)) => evs(r.0@) == seq![
                        event(m, model, "pulling"@, "starting"@),
                    ] && final(self).phase == Phase::Pulling && pulls(r.1, model)
                        && final(self).idx == old(self).idx && final(self).model == old(self).model,
                    (Phase::Checking, Outcome::Present(true)) => if old(self).warm {
                        evs(r.0@) == seq![event(m, model, "warming"@, Seq::empty())] && final(self).phase
                            == Phase::Warming && warms(r.1, model)
                            && final(self).idx == old(self).idx && final(self).model == old(self).model
                    } else {
                        evs(r.0@) == seq![event(m, model, "ready"@, Seq::empty())] + next.0 && final(self).idx
                            == next.1
                    },
                    (Phase::Pulling, Outcome::Pulled(Err(e))) => evs(r.0@) == seq![
                        event(m, model, "error"@, "pull failed: "@ + e@),
                    ] + next.0 && final(self).idx == next.1,
                    (Phase::Pulling, Outcome::Pulled(Ok(()))) => if old(self).warm {
                        evs(r.0@) == seq![
                            event(m, model, "pulled"@, Seq::empty()),
                            event(m, model, "warming"@, Seq::empty()),
                        ] && final(self).phase == Phase::Warming && warms(r.1, model)
                            && final(self).idx == old(self).idx && final(self).model == old(self).model
                    } else {
                        evs(r.0@) == seq![
                            event(m, model, "pulled"@, Seq::empty()),
                            event(m, model, "ready"@, Seq::empty()),
                        ] + next.0 && final(self).idx == next.1
                    },
                    (Phase::Warming, Outcome::Warmed(Err(e))) => evs(r.0@) == seq![
                        event(m, model, "error"@, "warm failed (non-fatal): "@ + e@),
                        event(m, model, "ready"@, Seq::empty()),
                    ] + next.0 && final(self).idx == next.1,
                    (Phase::Warming, Outcome::Warmed(Ok(()))) => evs(r.0@) == seq![
                        event(m, model, "ready"@, Seq::empty()),
                    ] + next.0 && final(self).idx == next.1,
                    _ => evs(r.0@) == Seq::<(Seq<char>, Seq<char>, Seq<char>, Seq<char>)>::empty()
                        && final(self).idx == old(self).idx && final(self).phase == old(self).phase
                        && final(self).model == old(self).model,
                }
            }),
            (final(self).phase == Phase::Done) == (r.1 is Finish),
            final(self).phase == Phase::Resolving ==> resolves(r.1, views(final(self).modes@)[final(self).idx as int]),
            (evs(r.0@), (final(self).idx as int, final(self).phase, final(self).model@)) == spec_on(
                views(old(self).modes@),
                opt_views(old(self).other_runtime@),
                old(self).warm,
                (old(self).idx as int, old(self).phase, old(self).model@),
                outcome,
            ),
    {
        let mut out: Vec<PreloadEvent> = Vec::new();
        proof {
            assert(evs(Seq::<PreloadEvent>::empty()) =~= Seq::empty());
        }
        let i = self.idx;
        let mode = self.modes[i].clone();
        proof {
            assert(mode@ == views(self.modes@)[i as int]);
        }
        match (self.phase, outcome) {
            (Phase::Resolving, Outcome::Resolved(Err(e))) => {
                let d = cat("resolve failed: ", e.as_str());
                push_ev(&mut out, mk_bare(mode.as_str(), "error", d.as_str()));
                proof {
                    reveal_strlit("");
                }
                let ghost first = evs(out@);
                let step = self.next_mode(&mut out);
                proof {
                    assert(evs(out@) =~= first + skip_other(views(self.modes@), opt_views(self.other_runtime@), i as int + 1).0);
                }
                (out, step)
            },
            (Phase::Resolving, Outcome::Resolved(Ok(t))) => {
                let e = mk0(mode.as_str(), t.as_str(), "resolved");
                proof {
                    reveal_strlit("");
                    assert(ev(e) == event(mode@, t@, "resolved"@, Seq::empty()));
                }
                push_ev(&mut out, e);
                proof {
                    assert(evs(out@) == Seq::<(Seq<char>, Seq<char>, Seq<char>, Seq<char>)>::empty().push(event(mode@, t@, "resolved"@, Seq::empty())));
                    assert(evs(out@) =~= seq![event(mode@, t@, "resolved"@, Seq::empty())]);
                }
                self.phase = Phase::Checking;
                let step = Step::CheckPulled(t.clone());
                self.model = t;
                (out, step)
            },
            (Phase::Checking, Outcome::Present(false)) => {
                push_ev(&mut out, mk(mode.as_str(), self.model.as_str(), "pulling", "starting"));
                proof {
                    assert(evs(out@) =~= seq![event(mode@, self.model@, "pulling"@, "starting"@)]);
                }
                self.phase = Phase::Pulling;
                (out, Step::Pull(self.model.clone()))
            },
            (Phase::Checking, Outcome::Present(true)) => {
                if self.warm {
                    push_ev(&mut out, mk0(mode.as_str(), self.model.as_str(), "warming"));
                    proof {
                        reveal_strlit("");
                        assert(evs(out@) =~= seq![event(mode@, self.model@, "warming"@, Seq::empty())]);
                    }
                    self.phase = Phase::Warming;
                    (out, Step::Warm(self.model.clone()))
                } else {
                    push_ev(&mut out, mk0(mode.as_str(), self.model.as_str(), "ready"));
                    proof {
                        reveal_strlit("");
                    }
                    let ghost first = evs(out@);
                    let ghost model = self.model@;
                    let step = self.next_mode(&mut out);
                    proof {
                        assert(first =~= seq![event(mode@, model, "ready"@, Seq::empty())]);
                    }
                    (out, step)
                }
            },
            (Phase::Pulling, Outcome::Pulled(Err(e))) => {
                let d = cat("pull failed: ", e.as_str());
                push_ev(&mut out, mk(mode.as_str(), self.model.as_str(), "error", d.as_str()));
                let ghost first = evs(out@);
                let ghost model = self.model@;
                let step = self.next_mode(&mut out);
                proof {
                    assert(first =~= seq![event(mode@, model, "error"@, "pull failed: "@ + e@)]);
                }
                (out, step)
            },
            (Phase::Pulling, Outcome::Pulled(Ok(()))) => {
                push_ev(&mut out, mk0(mode.as_str(), self.model.as_str(), "pulled"));
                if self.warm {
                    push_ev(&mut out, mk0(mode.as_str(), self.model.as_str(), "warming"));
                    proof {
                        reveal_strlit("");
                        assert(evs(out@) =~= seq![
                            event(mode@, self.model@, "pulled"@, Seq::empty()),
                            event(mode@, self.model@, "warming"@, Seq::empty()),
                        ]);
                    }
                    self.phase = Phase::Warming;
                    (out, Step::Warm(self.model.clone()))
                } else {
                    push_ev(&mut out, mk0(mode.as_str(), self.model.as_str(), "ready"));
                    proof {
                        reveal_strlit("");
                    }
                    let ghost first = evs(out@);
                    let ghost model = self.model@;
                    let step = self.next_mode(&mut out);
                    proof {
                        assert(first =~= seq![
                            event(mode@, model, "pulled"@, Seq::empty()),
                            event(mode@, model, "ready"@, Seq::empty()),
                        ]);
                    }
                    (out, step)
                }
            },
            (Phase::Warming, Outcome::Warmed(r)) => {
                let ghost model = self.model@;
                match &r {
                    Err(e) => {
                        let d = cat("warm failed (non-fatal): ", e.as_str());
                        push_ev(&mut out, mk(mode.as_str(), self.model.as_str(), "error", d.as_str()));
                    },
                    Ok(()) => {},
                }
                push_ev(&mut out, mk0(mode.as_str(), self.model.as_str(), "ready"));
                proof {
                    reveal_strlit("");
                }
                let ghost first = evs(out@);
                let step = self.next_mode(&mut out);
                proof {
                    match r {
                        Err(e) => {
                            assert(first =~= seq![
                                event(mode@, model, "error"@, "warm failed (non-fatal): "@ + e@),
                                event(mode@, model, "ready"@, Seq::empty()),
                            ]);
                        },
                        Ok(()) => {
                            assert(first =~= seq![event(mode@, model, "ready"@, Seq::empty())]);
                        },
                    }
                }
                (out, step)
            },
            (ph, _) => {
                let step = match ph {
                    Phase::Resolving => Step::Resolve(mode),
                    Phase::Checking => Step::CheckPulled(self.model.clone()),
                    Phase::Pulling => Step::Pull(self.model.clone()),
                    Phase::Warming => Step::Warm(self.model.clone()),
                    Phase::Done => Step::Finish,
                };
                (out, step)
            },
        }
    }
}

/// The machine run on outcomes in turn, up to the end of the modes.
pub open spec fn spec_run(
    ms: Seq<Seq<char>>,
    rs: Seq<Option<Seq<char>>>,
    warm: bool,
    st: PreloadState,
    os: Seq<Outcome>,
) -> (Seq<(Seq<char>, Seq<char>, Seq<char>, Seq<char>)>, PreloadState)
    decreases os.len(),
{
    if os.len() == 0 || st.1 == Phase::Done {
        (Seq::empty(), st)
    } else {
        let a = spec_on(ms, rs, warm, st, os[0]);
        let b = spec_run(ms, rs, warm, a.1, os.drop_first());
        (a.0 + b.0, b.1)
    }
}

/// What a caller that performs each step of one Ollama mode reports: the
/// resolution, whether the tag is present, how its pull ended (when it was
/// pulled) and how its warm-up ended (when it was warmed).
pub open spec fn mode_outcomes(
    warm: bool,
    resolved: Result<String, String>,
    present: bool,
    pulled: Result<(), String>,
    warmed: Result<(), String>,
) -> Seq<Outcome> {
    match resolved {
        Err(_) => seq![Outcome::Resolved(resolved)],
        Ok(_) => seq![Outcome::Resolved(resolved), Outcome::Present(present)] + if present {
            if warm {
                seq![Outcome::Warmed(warmed)]
            } else {
                Seq::empty()
            }
        } else {
            seq![Outcome::Pulled(pulled)] + match pulled {
                Ok(()) => if warm {
                    seq![Outcome::Warmed(warmed)]
                } else {
                    Seq::empty()
                },
                Err(_) => Seq::empty(),
            }
        },
    }
}

/// The end of a mode's events once its tag `t` is there: `warming` (and a
/// non-fatal warm-up error) when warming, then `ready`.
pub open spec fn ready_tail(m: Seq<char>, t: Seq<char>, warm: bool, warmed: Result<(), String>) -> Seq<
    (Seq<char>, Seq<char>, Seq<char>, Seq<char>),
> {
    if warm {
        seq![event(m, t, "warming"@, Seq::empty())] + match warmed {
            Err(e) => seq![event(m, t, "error"@, "warm failed (non-fatal): "@ + e@)],
            Ok(()) => Seq::empty(),
        } + seq![event(m, t, "ready"@, Seq::empty())]
    } else {
        seq![event(m, t, "ready"@, Seq::empty())]
    }
}

/// The events of one Ollama mode `m`, in order: `resolved`; when the tag
/// is missing, `pulling` and then `pulled`; then the ready tail. A failed
/// resolution or pull ends the mode with its `error`.
pub open spec fn mode_events(
    m: Seq<char>,
    warm: bool,
    resolved: Result<String, String>,
    present: bool,
    pulled: Result<(), String>,
    warmed: Result<(), String>,
) -> Seq<(Seq<char>, Seq<char>, Seq<char>, Seq<char>)> {
    match resolved {
        Err(e) => seq![event(m, Seq::empty(), "error"@, "resolve failed: "@ + e@)],
        Ok(t) => seq![event(m, t@, "resolved"@, Seq::empty())] + if present {
            ready_tail(m, t@, warm, warmed)
        } else {
            seq![event(m, t@, "pulling"@, "starting"@)] + match pulled {
                Err(e) => seq![event(m, t@, "error"@, "pull failed: "@ + e@)],
                Ok(()) => seq![event(m, t@, "pulled"@, Seq::empty())] + ready_tail(m, t@, warm, warmed),
            }
        },
    }
}

proof fn lemma_run_one(
    ms: Seq<Seq<char>>,
    rs: Seq<Option<Seq<char>>>,
    warm: bool,
    st: PreloadState,
    o: Outcome,
    rest: Seq<Outcome>,
)
    requires
        st.1 != Phase::Done,
    ensures
        spec_run(ms, rs, warm, st, seq![o] + rest) == ({
            let a = spec_on(ms, rs, warm, st, o);
            let b = spec_run(ms, rs, warm, a.1, rest);
            (a.0 + b.0, b.1)
        }),
{
    assert((seq![o] + rest)[0] == o);
    assert((seq![o] + rest).drop_first() =~= rest);
}

/// The whole of one mode, in order: started on an Ollama mode, the
/// outcomes of its steps make exactly its events (resolved, pulling,
/// pulled, warming, ready, or the error that ends it), then the ready
/// events of the modes another runtime serves up to the next Ollama mode,
/// where the machine then stands (or it is done).
pub proof fn law_preload_mode_order(
    ms: Seq<Seq<char>>,
    rs: Seq<Option<Seq<char>>>,
    warm: bool,
    i: int,
    model: Seq<char>,
    resolved: Result<String, String>,
    present: bool,
    pulled: Result<(), String>,
    warmed: Result<(), String>,
)
    requires
        0 <= i < ms.len(),
    ensures
        spec_run(ms, rs, warm, (i, Phase::Resolving, model), mode_outcomes(warm, resolved, present, pulled, warmed))
            == (
            mode_events(ms[i], warm, resolved, present, pulled, warmed) + skip_other(ms, rs, i + 1).0,
            after_mode(
                ms,
                rs,
                i,
                match resolved {
                    Ok(t) => t@,
                    Err(_) => model,
                },
            ),
        ),
{
    let m = ms[i];
    let next = skip_other(ms, rs, i + 1).0;
    let empty = Seq::<Outcome>::empty();
    match resolved {
        Err(e) => {
            assert(mode_outcomes(warm, resolved, present, pulled, warmed) =~= seq![Outcome::Resolved(resolved)] + empty);
            lemma_run_one(ms, rs, warm, (i, Phase::Resolving, model), Outcome::Resolved(resolved), empty);
        },
        Ok(t) => {
            let s1 = (i, Phase::Checking, t@);
            let tail = if present {
                if warm {
                    seq![Outcome::Warmed(warmed)]
                } else {
                    Seq::empty()
                }
            } else {
                seq![Outcome::Pulled(pulled)] + match pulled {
                    Ok(()) => if warm {
                        seq![Outcome::Warmed(warmed)]
                    } else {
                        Seq::empty()
                    },
                    Err(_) => Seq::empty(),
                }
            };
            assert(mode_outcomes(warm, resolved, present, pulled, warmed) =~= seq![Outcome::Resolved(resolved)]
                + (seq![Outcome::Present(present)] + tail));
            lemma_run_one(ms, rs, warm, (i, Phase::Resolving, model), Outcome::Resolved(resolved), seq![Outcome::Present(present)] + tail);
            lemma_run_one(ms, rs, warm, s1, Outcome::Present(present), tail);
            let done = after_mode(ms, rs, i, t@);
            if present {
                if warm {
                    let s2 = (i, Phase::Warming, t@);
                    assert(tail =~= seq![Outcome::Warmed(warmed)] + empty);
                    lemma_run_one(ms, rs, warm, s2, Outcome::Warmed(warmed), empty);
                    match warmed {
                        Err(e) => {},
                        Ok(()) => {},
                    }
                } else {
                    assert(tail =~= empty);
                }
            } else {
                let s2 = (i, Phase::Pulling, t@);
                let t2 = match pulled {
                    Ok(()) => if warm {
                        seq![Outcome::Warmed(warmed)]
                    } else {
                        Seq::<Outcome>::empty()
                    },
                    Err(_) => Seq::<Outcome>::empty(),
                };
                assert(tail =~= seq![Outcome::Pulled(pulled)] + t2);
                lemma_run_one(ms, rs, warm, s2, Outcome::Pulled(pulled), t2);
                match pulled {
                    Ok(()) => {
                        if warm {
                            let s3 = (i, Phase::Warming, t@);
                            assert(t2 =~= seq![Outcome::Warmed(warmed)] + empty);
                            lemma_run_one(ms, rs, warm, s3, Outcome::Warmed(warmed), empty);
                        } else {
                            assert(t2 =~= empty);
                        }
                    },
                    Err(e) => {
                        assert(t2 =~= empty);
                    },
                }
            }
        },
    }
    assert(spec_run(ms, rs, warm, (i, Phase::Resolving, model), mode_outcomes(warm, resolved, present, pulled, warmed)).0
        =~= mode_events(m, warm, resolved, present, pulled, warmed) + next);
}

/// The outcomes one Ollama mode reports: resolution, presence, pull and
/// warm-up results.
pub type Scenario = (Result<String, String>, bool, Result<(), String>, Result<(), String>);

/// The outcomes of the Ollama modes from `i` on, one scenario each.
pub open spec fn all_outcomes(ms: Seq<Seq<char>>, rs: Seq<Option<Seq<char>>>, warm: bool, i: int, sc: Seq<Scenario>) -> Seq<
    Outcome,
>
    decreases sc.len(),
{
    if sc.len() == 0 {
        Seq::empty()
    } else {
        mode_outcomes(warm, sc[0].0, sc[0].1, sc[0].2, sc[0].3) + all_outcomes(
            ms,
            rs,
            warm,
            skip_other(ms, rs, i + 1).1,
            sc.drop_first(),
        )
    }
}

/// The events of the modes from `i` on, in mode order: each Ollama mode's
/// own events, then the ready events of the modes another runtime serves
/// up to the next one.
pub open spec fn all_events(ms: Seq<Seq<char>>, rs: Seq<Option<Seq<char>>>, warm: bool, i: int, sc: Seq<Scenario>) -> Seq<
    (Seq<char>, Seq<char>, Seq<char>, Seq<char>),
>
    decreases sc.len(),
{
    if sc.len() == 0 || i < 0 || i >= ms.len() {
        Seq::empty()
    } else {
        mode_events(ms[i], warm, sc[0].0, sc[0].1, sc[0].2, sc[0].3) + skip_other(ms, rs, i + 1).0 + all_events(
            ms,
            rs,
            warm,
            skip_other(ms, rs, i + 1).1,
            sc.drop_first(),
        )
    }
}

proof fn lemma_skip_other_index(ms: Seq<Seq<char>>, rs: Seq<Option<Seq<char>>>, i: int)
    requires
        0 <= i,
    ensures
        i <= skip_other(ms, rs, i).1,
        i <= ms.len() ==> skip_other(ms, rs, i).1 <= ms.len(),
    decreases ms.len() - i,
{
    if i < ms.len() && i < rs.len() {
        if rs[i] is Some {
            lemma_skip_other_index(ms, rs, i + 1);
        }
    }
}

proof fn lemma_run_concat(
    ms: Seq<Seq<char>>,
    rs: Seq<Option<Seq<char>>>,
    warm: bool,
    st: PreloadState,
    a: Seq<Outcome>,
    b: Seq<Outcome>,
)
    ensures
        spec_run(ms, rs, warm, st, a + b) == ({
            let x = spec_run(ms, rs, warm, st, a);
            let y = spec_run(ms, rs, warm, x.1, b);
            (x.0 + y.0, y.1)
        }),
    decreases a.len(),
{
    if a.len() == 0 {
        assert(a + b =~= b);
        assert(Seq::<(Seq<char>, Seq<char>, Seq<char>, Seq<char>)>::empty() + spec_run(ms, rs, warm, st, b).0
            =~= spec_run(ms, rs, warm, st, b).0);
    } else if st.1 == Phase::Done {
        if b.len() > 0 {
            assert((a + b).len() > 0);
        }
        assert(Seq::<(Seq<char>, Seq<char>, Seq<char>, Seq<char>)>::empty() + Seq::empty() =~= Seq::<
            (Seq<char>, Seq<char>, Seq<char>, Seq<char>),
        >::empty());
    } else {
        assert((a + b)[0] == a[0]);
        assert((a + b).drop_first() =~= a.drop_first() + b);
        let s1 = spec_on(ms, rs, warm, st, a[0]).1;
        lemma_run_concat(ms, rs, warm, s1, a.drop_first(), b);
        let e0 = spec_on(ms, rs, warm, st, a[0]).0;
        let x1 = spec_run(ms, rs, warm, s1, a.drop_first());
        let y = spec_run(ms, rs, warm, x1.1, b);
        assert(e0 + (x1.0 + y.0) =~= (e0 + x1.0) + y.0);
    }
}

/// A whole preload run, in order: the modes another runtime serves are
/// reported ready where they stand, and each Ollama mode's events come
/// whole, in mode order, one mode after the other, whatever its steps
/// gave (given as one scenario per Ollama mode).
pub proof fn law_preload_run_order(
    ms: Seq<Seq<char>>,
    rs: Seq<Option<Seq<char>>>,
    warm: bool,
    i: int,
    model: Seq<char>,
    sc: Seq<Scenario>,
)
    requires
        0 <= i <= ms.len(),
        i == ms.len() ==> sc.len() == 0,
    ensures
        spec_run(
            ms,
            rs,
            warm,
            (i, if i == ms.len() { Phase::Done } else { Phase::Resolving }, model),
            all_outcomes(ms, rs, warm, i, sc),
        ).0 == all_events(ms, rs, warm, i, sc),
    decreases sc.len(),
{
    let st = (i, if i == ms.len() { Phase::Done } else { Phase::Resolving }, model);
    if sc.len() == 0 {
        assert(all_outcomes(ms, rs, warm, i, sc) =~= Seq::<Outcome>::empty());
    } else {
        let x = sc[0];
        let a = mode_outcomes(warm, x.0, x.1, x.2, x.3);
        let j = skip_other(ms, rs, i + 1).1;
        lemma_skip_other_index(ms, rs, i + 1);
        lemma_run_concat(ms, rs, warm, st, a, all_outcomes(ms, rs, warm, j, sc.drop_first()));
        law_preload_mode_order(ms, rs, warm, i, model, x.0, x.1, x.2, x.3);
        let m2 = match x.0 {
            Ok(t) => t@,
            Err(_) => model,
        };
        if j == ms.len() {
            // The run is over: no later outcome makes an event.
            assert(spec_run(ms, rs, warm, after_mode(ms, rs, i, m2), all_outcomes(ms, rs, warm, j, sc.drop_first()))
                == (Seq::<(Seq<char>, Seq<char>, Seq<char>, Seq<char>)>::empty(), after_mode(ms, rs, i, m2)));
            assert(all_events(ms, rs, warm, j, sc.drop_first()) =~= Seq::empty());
        } else {
            law_preload_run_order(ms, rs, warm, j, m2, sc.drop_first());
        }
        assert(all_events(ms, rs, warm, i, sc) =~= mode_events(ms[i], warm, x.0, x.1, x.2, x.3) + skip_other(ms, rs, i + 1).0
            + all_events(ms, rs, warm, j, sc.drop_first()));
    }
}

/// `modes` not yet in `existing`, appended in order.
pub open spec fn append_missing(existing: Seq<Seq<char>>, modes: Seq<Seq<char>>) -> Seq<Seq<char>>
    decreases modes.len(),
{
    if modes.len() == 0 {
        existing
    } else {
        let e = append_missing(existing, modes.drop_last());
        if e.contains(modes.last()) {
            e
        } else {
            e.push(modes.last())
        }
    }
}

/// `--track`: the configuration with `tracked_modes` holding its former
/// strings and then each new mode not already there.
pub open spec fn spec_persist_tracked(c: JsonV, modes: Seq<Seq<char>>) -> JsonV {
    c.with_key(
        "tracked_modes"@,
        JsonV::Arr(append_missing(spec_tracked_list(c, "tracked_modes"@), modes).map_values(|s: Seq<char>| JsonV::Str(s))),
    )
}

fn has_string(v: &Vec<String>, s: &str) -> (r: bool)
    ensures
        r == views(v@).contains(s@),
{
    let ghost w = views(v@);
    let mut i: usize = 0;
    while i < v.len()
        invariant
            i <= v@.len(),
            w == views(v@),
            forall|j: int| 0 <= j < i ==> w[j] != s@,
        decreases v.len() - i,
    {
        if str_eq(v[i].as_str(), s) {
            proof {
                assert(w[i as int] == s@);
            }
            return true;
        }
        i = i + 1;
    }
    false
}

/// Record `modes` as tracked.
pub fn persist_tracked(config: &mut Json, modes: &[String])
    requires
        old(config)@.is_keyable(),
    ensures
        final(config)@ == spec_persist_tracked(old(config)@, views(modes@)),
{
    let mut existing = tracked_list(config, "tracked_modes");
    let ghost e0 = views(existing@);
    let ghost ms = views(modes@);
    let mut i: usize = 0;
    proof {
        assert(ms.take(0) =~= Seq::<Seq<char>>::empty());
    }
    while i < modes.len()
        invariant
            i <= modes@.len(),
            ms == views(modes@),
            views(existing@) == append_missing(e0, ms.take(i as int)),
        decreases modes.len() - i,
    {
        proof {
            let p = ms.take(i as int + 1);
            assert(p.drop_last() =~= ms.take(i as int));
            assert(p.last() == modes@[i as int]@);
        }
        if !has_string(&existing, modes[i].as_str()) {
            let ghost before = views(existing@);
            existing.push(modes[i].clone());
            proof {
                assert(views(existing@) =~= before.push(modes@[i as int]@));
            }
        }
        i = i + 1;
    }
    proof {
        assert(ms.take(i as int) =~= ms);
    }
    let mut arr: Vec<Json> = Vec::new();
    let mut k: usize = 0;
    while k < existing.len()
        invariant
            k <= existing@.len(),
            arr@.len() == k,
            forall|j: int| 0 <= j < k ==> (#[trigger] arr@[j])@ == JsonV::Str(existing@[j]@),
        decreases existing.len() - k,
    {
        arr.push(Json::string(existing[k].as_str()));
        k = k + 1;
    }
    proof {
        crate::json::lemma_view_items(arr@);
        assert(crate::json::view_items(arr@) =~= views(existing@).map_values(|s: Seq<char>| JsonV::Str(s)));
    }
    config.set_key("tracked_modes", Json::Arr(arr));
}

/// The models that came out ready, sorted and each once.
pub fn ready_models(events: &[PreloadEvent]) -> (r: Vec<String>)
    ensures
        strictly_sorted(views(r@)),
        forall|m: Seq<char>| #[trigger] views(r@).contains(m) <==> exists|j: int| 0 <= j < events@.len()
            && events@[j].status@ == "ready"@ && events@[j].model@ == m,
{
    let mut ready: Vec<String> = Vec::new();
    let mut i: usize = 0;
    while i < events.len()
        invariant
            i <= events@.len(),
            forall|m: Seq<char>| #[trigger] views(ready@).contains(m) <==> exists|j: int| 0 <= j < i
                && events@[j].status@ == "ready"@ && events@[j].model@ == m,
        decreases events.len() - i,
    {
        let ghost before = views(ready@);
        if str_eq(events[i].status.as_str(), "ready") {
            ready.push(events[i].model.clone());
            proof {
                assert(views(ready@) =~= before.push(events@[i as int].model@));
                assert forall|m: Seq<char>| #[trigger] views(ready@).contains(m) <==> exists|j: int| 0 <= j < i + 1
                    && events@[j].status@ == "ready"@ && events@[j].model@ == m by {
                    if views(ready@).contains(m) {
                        if m != events@[i as int].model@ {
                            let k = choose|k: int| 0 <= k < views(ready@).len() && views(ready@)[k] == m;
                            assert(before[k] == m);
                            assert(before.contains(m));
                        }
                    }
                    if exists|j: int| 0 <= j < i + 1 && events@[j].status@ == "ready"@ && events@[j].model@ == m {
                        let j = choose|j: int| 0 <= j < i + 1 && events@[j].status@ == "ready"@ && events@[j].model@ == m;
                        if j < i {
                            assert(before.contains(m));
                            let k = choose|k: int| 0 <= k < before.len() && before[k] == m;
                            assert(views(ready@)[k] == m);
                        } else {
                            assert(views(ready@)[before.len() as int] == m);
                        }
                    }
                }
            }
        } else {
            proof {
                assert forall|m: Seq<char>| #[trigger] views(ready@).contains(m) <==> exists|j: int| 0 <= j < i + 1
                    && events@[j].status@ == "ready"@ && events@[j].model@ == m by {
                    if exists|j: int| 0 <= j < i + 1 && events@[j].status@ == "ready"@ && events@[j].model@ == m {
                        let j = choose|j: int| 0 <= j < i + 1 && events@[j].status@ == "ready"@ && events@[j].model@ == m;
                        assert(j != i);
                    }
                }
            }
        }
        i = i + 1;
    }
    let r = sort_dedup(ready);
    proof {
        assert forall|m: Seq<char>| #[trigger] views(r@).contains(m) <==> views(ready@).contains(m) by {
            assert(views(r@).to_set().contains(m) == views(r@).contains(m));
            assert(views(ready@).to_set().contains(m) == views(ready@).contains(m));
        }
    }
    r
}

/// The family a preload resolves in: the configuration's `active_family`
/// string, or empty.
pub open spec fn spec_active_family(config: JsonV) -> Seq<char> {
    match crate::config::at_str(config, "active_family"@) {
        Some(f) => f,
        None => Seq::empty(),
    }
}

pub fn active_family(config: &Json) -> (r: String)
    ensures
        r@ == spec_active_family(config@),
{
    match config.get("active_family") {
        Some(v) => match v.as_str() {
            Some(f) => f.to_string(),
            None => String::new(),
        },
        None => {
            proof {
                assert(config@.at("active_family"@) == JsonV::Null);
            }
            String::new()
        },
    }
}

/// The runtime other than Ollama that the manifest gives `mode`, if any:
/// such a mode is managed apart and not pulled.
pub open spec fn spec_other_runtime(m: Option<JsonV>, mode: Seq<char>, family: Seq<char>) -> Option<Seq<char>> {
    match m {
        Some(doc) => match crate::resolver::spec_mode_runtime(doc, mode, family) {
            Some(rt) => if rt != "ollama"@ {
                Some(rt)
            } else {
                None
            },
            None => None,
        },
        None => None,
    }
}

/// For each mode, the runtime other than Ollama that owns it.
pub fn other_runtimes(manifest: Option<&Json>, modes: &[String], family: &str) -> (r: Vec<Option<String>>)
    ensures
        r@.len() == modes@.len(),
        forall|i: int|
            0 <= i < modes@.len() ==> crate::cli::opt_views(#[trigger] r@[i]) == spec_other_runtime(
                match manifest {
                    Some(m) => Some(m@),
                    None => None,
                },
                modes@[i]@,
                family@,
            ),
{
    let ghost mv = match manifest {
        Some(m) => Some(m@),
        None => None,
    };
    let mut out: Vec<Option<String>> = Vec::new();
    let mut i: usize = 0;
    while i < modes.len()
        invariant
            i <= modes@.len(),
            out@.len() == i,
            mv == (match manifest {
                Some(m) => Some(m@),
                None => None,
            }),
            forall|j: int|
                0 <= j < i ==> crate::cli::opt_views(#[trigger] out@[j]) == spec_other_runtime(mv, modes@[j]@, family@),
        decreases modes@.len() - i,
    {
        let rt = match manifest {
            Some(m) => match crate::resolver::mode_runtime(m, modes[i].as_str(), family) {
                Some(t) => if str_eq(t.as_str(), "ollama") {
                    None
                } else {
                    Some(t)
                },
                None => None,
            },
            None => None,
        };
        out.push(rt);
        i = i + 1;
    }
    out
}

} // verus!
