//! The Moonshine recogniser's bookkeeping: its artifact files, the names
//! its encoder and decoder graphs use, the greedy decode loop and the
//! checks on downloaded files. The ONNX sessions themselves run outside
//! the library.

use vstd::prelude::*;
use crate::text::{chars_of, join_path, spec_join};

verus! {

/// The token that seeds the decoder.
pub const START_TOKEN: i64 = 1;

/// The token that ends a transcript.
pub const EOS_TOKEN: i64 = 2;

/// The most decoder steps one chunk gets.
pub const MAX_DECODE_STEPS: usize = 64;

/// The smallest plausible sizes of the downloaded artifacts, in bytes.
pub const MIN_ENCODER_BYTES: u64 = 15_000_000;
pub const MIN_DECODER_BYTES: u64 = 20_000_000;
pub const MIN_TOKENIZER_BYTES: u64 = 500_000;

/// The shortest chunk worth recognising: a tenth of a second at 16 kHz.
pub const MIN_CHUNK_SAMPLES: usize = 1600;

/// What Unicode lower-casing makes of a text, as `str::to_lowercase`
/// gives it.
pub uninterp spec fn lowercase(s: Seq<char>) -> Seq<char>;

/// `str::to_lowercase`. Its result is taken to be the name `lowercase` of
/// the text; the Unicode case tables are not restated here.
#[verifier::external_body]
pub(crate) fn to_lower(s: &str) -> (r: String)
    ensures
        r@ == lowercase(s@),
{
    s.to_lowercase()
}

pub open spec fn has_prefix(s: Seq<char>, p: Seq<char>) -> bool {
    s.len() >= p.len() && s.take(p.len() as int) == p
}

pub open spec fn has_suffix(s: Seq<char>, p: Seq<char>) -> bool {
    s.len() >= p.len() && s.skip(s.len() - p.len()) == p
}

pub open spec fn has_infix(s: Seq<char>, p: Seq<char>) -> bool {
    exists|i: int| 0 <= i && i + p.len() <= s.len() && #[trigger] s.subrange(i, i + p.len()) == p
}

/// Whether `cs[at..]` begins with `p`.
fn matches_at(cs: &Vec<char>, at: usize, p: &Vec<char>) -> (r: bool)
    requires
        at <= cs@.len(),
    ensures
        r == (at + p@.len() <= cs@.len() && cs@.subrange(at as int, at + p@.len()) == p@),
{
    if cs.len() - at < p.len() {
        return false;
    }
    let mut k: usize = 0;
    while k < p.len()
        invariant
            k <= p@.len(),
            at + p@.len() <= cs@.len(),
            cs@.len() <= usize::MAX,
            forall|j: int| 0 <= j < k ==> cs@[at + j] == p@[j],
        decreases p.len() - k,
    {
        if cs[at + k] != p[k] {
            proof {
                assert(cs@.subrange(at as int, at + p@.len())[k as int] != p@[k as int]);
            }
            return false;
        }
        k = k + 1;
    }
    proof {
        assert(cs@.subrange(at as int, at + p@.len()) =~= p@);
    }
    true
}

fn starts_with(s: &str, p: &str) -> (r: bool)
    ensures
        r == has_prefix(s@, p@),
{
    let cs = chars_of(s);
    let ps = chars_of(p);
    let r = matches_at(&cs, 0, &ps);
    proof {
        assert(cs@.subrange(0, p@.len() as int) =~= s@.take(p@.len() as int));
    }
    r
}

fn ends_with(s: &str, p: &str) -> (r: bool)
    ensures
        r == has_suffix(s@, p@),
{
    let cs = chars_of(s);
    let ps = chars_of(p);
    if cs.len() < ps.len() {
        return false;
    }
    let at = cs.len() - ps.len();
    let r = matches_at(&cs, at, &ps);
    proof {
        assert(cs@.subrange(at as int, at + p@.len()) =~= s@.skip(s@.len() - p@.len()));
    }
    r
}

pub(crate) fn contains(s: &str, p: &str) -> (r: bool)
    ensures
        r == has_infix(s@, p@),
{
    let cs = chars_of(s);
    let ps = chars_of(p);
    if cs.len() < ps.len() {
        proof {
            assert forall|i: int| 0 <= i && i + p@.len() <= s@.len() implies #[trigger] s@.subrange(
                i,
                i + p@.len(),
            ) != p@ by {}
        }
        return false;
    }
    let last = cs.len() - ps.len();
    let mut i: usize = 0;
    loop
        invariant
            i <= last,
            last + ps@.len() == cs@.len(),
            cs@ == s@,
            ps@ == p@,
            forall|j: int| 0 <= j < i ==> #[trigger] s@.subrange(j, j + p@.len()) != p@,
        ensures
            forall|j: int| 0 <= j <= last ==> #[trigger] s@.subrange(j, j + p@.len()) != p@,
        decreases last - i,
    {
        if matches_at(&cs, i, &ps) {
            return true;
        }
        if i == last {
            break;
        }
        i = i + 1;
    }
    proof {
        assert forall|j: int| 0 <= j && j + p@.len() <= s@.len() implies #[trigger] s@.subrange(
            j,
            j + p@.len(),
        ) != p@ by {
            assert(j <= last);
        }
    }
    false
}

/// The names the decoder graph's inputs are bound by: the past
/// key/value inputs, the cache-branch switch, the token ids and the
/// encoder states.
pub type DecoderNames = (Seq<Seq<char>>, Option<Seq<char>>, Seq<char>, Seq<char>);

/// One decoder input looked at: `past_key_values.*` inputs are collected;
/// an input named `use_cache_branch` (any case) is the switch; one whose
/// lower-case name ends with `input_ids` takes the ids; one whose
/// lower-case name mentions `encoder_hidden` or `encoder_outputs` takes
/// the encoder states.
pub open spec fn sniff_input(st: DecoderNames, n: Seq<char>) -> DecoderNames {
    let lower = lowercase(n);
    if has_prefix(n, "past_key_values."@) {
        (st.0.push(n), st.1, st.2, st.3)
    } else if lower == "use_cache_branch"@ {
        (st.0, Some(n), st.2, st.3)
    } else if has_suffix(lower, "input_ids"@) {
        (st.0, st.1, n, st.3)
    } else if has_infix(lower, "encoder_hidden"@) || has_infix(lower, "encoder_outputs"@) {
        (st.0, st.1, st.2, n)
    } else {
        st
    }
}

/// All the decoder's inputs looked at in order.
pub open spec fn sniff_inputs(st: DecoderNames, ns: Seq<Seq<char>>) -> DecoderNames
    decreases ns.len(),
{
    if ns.len() == 0 {
        st
    } else {
        sniff_input(sniff_inputs(st, ns.drop_last()), ns.last())
    }
}

/// The first output whose lower-case name ends with `logits`, if any.
pub open spec fn logits_output(ns: Seq<Seq<char>>) -> Option<Seq<char>>
    decreases ns.len(),
{
    if ns.len() == 0 {
        None
    } else if has_suffix(lowercase(ns[0]), "logits"@) {
        Some(ns[0])
    } else {
        logits_output(ns.drop_first())
    }
}

/// Whether a downloaded artifact can be loaded.
#[derive(Debug, Clone, Copy, PartialEq, Eq, Structural)]
pub enum ArtifactCheck {
    Plausible,
    /// The file is missing or cannot be read.
    Missing,
    /// The file is shorter than the smallest plausible download.
    Truncated { size: u64, min_bytes: u64 },
}

/// A file of `size` bytes (none when it cannot be read) against the
/// smallest plausible size: a truncated download would stall the loader.
pub fn check_file_plausible(size: Option<u64>, min_bytes: u64) -> (r: ArtifactCheck)
    ensures
        r == (match size {
            None => ArtifactCheck::Missing,
            Some(s) => if s < min_bytes {
                ArtifactCheck::Truncated { size: s, min_bytes }
            } else {
                ArtifactCheck::Plausible
            },
        }),
{
    match size {
        None => ArtifactCheck::Missing,
        Some(s) => {
            if s < min_bytes {
                ArtifactCheck::Truncated { size: s, min_bytes }
            } else {
                ArtifactCheck::Plausible
            }
        },
    }
}

pub struct MoonshineBackend {
    pub model_name: String,
    pub enc_input_name: String,
    pub enc_output_name: String,
    pub dec_input_ids_name: String,
    pub dec_enc_hidden_name: String,
    pub dec_logits_name: String,
    /// Every past key/value input the decoder declares; each gets an
    /// empty tensor on every step.
    pub past_kv_input_names: Vec<String>,
    /// The cache-branch switch, when the export has one; it is always off.
    pub use_cache_branch_name: Option<String>,
}

impl MoonshineBackend {
    pub open spec fn decoder_names(&self) -> DecoderNames {
        (
            crate::sorted::views(self.past_kv_input_names@),
            crate::cli::opt_views(self.use_cache_branch_name),
            self.dec_input_ids_name@,
            self.dec_enc_hidden_name@,
        )
    }

    /// A backend for `model_name` with the names the published export
    /// uses.
    pub fn new(model_name: &str) -> (r: MoonshineBackend)
        ensures
            r.model_name@ == model_name@,
            r.enc_input_name@ == "input_values"@,
            r.enc_output_name@ == "last_hidden_state"@,
            r.dec_input_ids_name@ == "input_ids"@,
            r.dec_enc_hidden_name@ == "encoder_hidden_states"@,
            r.dec_logits_name@ == "logits"@,
            r.past_kv_input_names@.len() == 0,
            r.use_cache_branch_name is None,
    {
        MoonshineBackend {
            model_name: model_name.to_string(),
            enc_input_name: "input_values".to_string(),
            enc_output_name: "last_hidden_state".to_string(),
            dec_input_ids_name: "input_ids".to_string(),
            dec_enc_hidden_name: "encoder_hidden_states".to_string(),
            dec_logits_name: "logits".to_string(),
            past_kv_input_names: Vec::new(),
            use_cache_branch_name: None,
        }
    }

    /// A file of the model, under the model's directory.
    pub fn artifact_path(&self, model_dir: &str, filename: &str) -> (r: String)
        ensures
            r@ == spec_join(model_dir@, filename@),
    {
        join_path(model_dir, filename)
    }

    /// Take the encoder's first input and first output names, when the
    /// graph declares them.
    pub fn sniff_encoder_io(&mut self, inputs: &[String], outputs: &[String])
        ensures
            final(self).enc_input_name@ == (if inputs@.len() > 0 {
                inputs@[0]@
            } else {
                old(self).enc_input_name@
            }),
            final(self).enc_output_name@ == (if outputs@.len() > 0 {
                outputs@[0]@
            } else {
                old(self).enc_output_name@
            }),
            final(self).decoder_names() == old(self).decoder_names(),
            final(self).dec_logits_name == old(self).dec_logits_name,
            final(self).model_name == old(self).model_name,
    {
        if inputs.len() > 0 {
            self.enc_input_name = inputs[0].clone();
        }
        if outputs.len() > 0 {
            self.enc_output_name = outputs[0].clone();
        }
    }

    /// Bind the decoder's inputs and its logits output by their names.
    pub fn sniff_decoder_io(&mut self, inputs: &[String], outputs: &[String])
        ensures
            final(self).decoder_names() == sniff_inputs(
                old(self).decoder_names(),
                crate::sorted::views(inputs@),
            ),
            final(self).dec_logits_name@ == (match logits_output(crate::sorted::views(outputs@)) {
                Some(n) => n,
                None => old(self).dec_logits_name@,
            }),
            final(self).enc_input_name == old(self).enc_input_name,
            final(self).enc_output_name == old(self).enc_output_name,
            final(self).model_name == old(self).model_name,
    {
        let ghost iv = crate::sorted::views(inputs@);
        let ghost st0 = self.decoder_names();
        let mut i: usize = 0;
        proof {
            assert(iv.take(0) =~= Seq::<Seq<char>>::empty());
        }
        while i < inputs.len()
            invariant
                i <= inputs@.len(),
                iv == crate::sorted::views(inputs@),
                self.decoder_names() == sniff_inputs(st0, iv.take(i as int)),
                st0 == old(self).decoder_names(),
                self.enc_input_name == old(self).enc_input_name,
                self.enc_output_name == old(self).enc_output_name,
                self.model_name == old(self).model_name,
                self.dec_logits_name == old(self).dec_logits_name,
            decreases inputs.len() - i,
        {
            let n = inputs[i].as_str();
            let lower = to_lower(n);
            proof {
                let q = iv.take(i as int + 1);
                assert(q.drop_last() =~= iv.take(i as int));
                assert(q.last() == n@);
                reveal_strlit("use_cache_branch");
            }
            if starts_with(n, "past_key_values.") {
                let ghost before = self.past_kv_input_names@;
                self.past_kv_input_names.push(n.to_string());
                proof {
                    assert(crate::sorted::views(self.past_kv_input_names@) =~= crate::sorted::views(
                        before,
                    ).push(n@));
                }
            } else if crate::json::str_eq(lower.as_str(), "use_cache_branch") {
                self.use_cache_branch_name = Some(n.to_string());
            } else if ends_with(lower.as_str(), "input_ids") {
                self.dec_input_ids_name = n.to_string();
            } else if contains(lower.as_str(), "encoder_hidden") || contains(lower.as_str(), "encoder_outputs") {
                self.dec_enc_hidden_name = n.to_string();
            }
            i = i + 1;
        }
        proof {
            assert(iv.take(i as int) =~= iv);
        }
        let ghost ov = crate::sorted::views(outputs@);
        let mut k: usize = 0;
        proof {
            assert(ov.skip(0) =~= ov);
        }
        while k < outputs.len()
            invariant
                k <= outputs@.len(),
                ov == crate::sorted::views(outputs@),
                logits_output(ov) == logits_output(ov.skip(k as int)),
                self.dec_logits_name == old(self).dec_logits_name,
                self.decoder_names() == sniff_inputs(st0, iv),
                iv == crate::sorted::views(inputs@),
                st0 == old(self).decoder_names(),
                self.enc_input_name == old(self).enc_input_name,
                self.enc_output_name == old(self).enc_output_name,
                self.model_name == old(self).model_name,
            decreases outputs.len() - k,
        {
            let lower = to_lower(outputs[k].as_str());
            proof {
                let t = ov.skip(k as int);
                assert(t[0] == outputs@[k as int]@);
                assert(t.drop_first() =~= ov.skip(k as int + 1));
            }
            if ends_with(lower.as_str(), "logits") {
                self.dec_logits_name = outputs[k].clone();
                return;
            }
            k = k + 1;
        }
        proof {
            assert(ov.skip(k as int).len() == 0);
        }
    }
}

/// The greedy decode of one chunk: the tokens so far (the start token
/// first) and the number of decoder steps taken.
pub struct GreedyDecode {
    pub tokens: Vec<i64>,
    pub steps: usize,
    pub done: bool,
}

/// A token id as the tokenizer takes it: negative ids become 0, others
/// keep their low 32 bits.
pub open spec fn token_id(t: i64) -> u32 {
    if t < 0 {
        0
    } else {
        (t as int % 0x1_0000_0000) as u32
    }
}

impl GreedyDecode {
    pub open spec fn wf(&self) -> bool {
        &&& self.tokens@.len() >= 1
        &&& self.tokens@[0] == START_TOKEN
        &&& self.tokens@.len() <= self.steps + 1
        &&& self.steps <= MAX_DECODE_STEPS
        &&& (self.steps == MAX_DECODE_STEPS ==> self.done)
    }

    /// A decode seeded with the start token.
    pub fn new() -> (r: GreedyDecode)
        ensures
            r.wf(),
            r.tokens@ == seq![START_TOKEN],
            r.steps == 0,
            !r.done,
    {
        let mut tokens: Vec<i64> = Vec::new();
        tokens.push(START_TOKEN);
        GreedyDecode { tokens, steps: 0, done: false }
    }

    /// The decoder's next token: the end token finishes the decode;
    /// any other is appended, and the step limit finishes it too. The
    /// answer is whether to run the decoder again.
    pub fn on_token(&mut self, next: i64) -> (r: bool)
        requires
            old(self).wf(),
            !old(self).done,
        ensures
            final(self).wf(),
            final(self).steps == old(self).steps + 1,
            next == EOS_TOKEN ==> final(self).tokens == old(self).tokens && final(self).done,
            next != EOS_TOKEN ==> final(self).tokens@ == old(self).tokens@.push(next)
                && final(self).done == (final(self).steps == MAX_DECODE_STEPS),
            r == !final(self).done,
    {
        self.steps = self.steps + 1;
        if next == EOS_TOKEN {
            self.done = true;
        } else {
            self.tokens.push(next);
            if self.steps == MAX_DECODE_STEPS {
                self.done = true;
            }
        }
        !self.done
    }

    /// Stop decoding (the session is being cancelled).
    pub fn cancel(&mut self)
        requires
            old(self).wf(),
        ensures
            final(self).wf(),
            final(self).done,
            final(self).tokens == old(self).tokens,
            final(self).steps == old(self).steps,
    {
        self.done = true;
    }

    /// The ids handed to the tokenizer: every token after the start token.
    pub fn token_ids(&self) -> (r: Vec<u32>)
        requires
            self.wf(),
        ensures
            r@.len() == self.tokens@.len() - 1,
            forall|j: int| 0 <= j < r@.len() ==> r@[j] == token_id(#[trigger] self.tokens@[j + 1]),
    {
        let mut out: Vec<u32> = Vec::new();
        let mut i: usize = 1;
        while i < self.tokens.len()
            invariant
                1 <= i <= self.tokens@.len(),
                out@.len() == i - 1,
                forall|j: int| 0 <= j < out@.len() ==> out@[j] == token_id(#[trigger] self.tokens@[j + 1]),
            decreases self.tokens.len() - i,
        {
            let t = self.tokens[i];
            let v: u32 = if t < 0 {
                0
            } else {
                ((t as u64) % 4294967296) as u32
            };
            out.push(v);
            i = i + 1;
        }
        out
    }
}

/// Whether a chunk of `len` samples at 16 kHz is long enough to recognise.
pub fn chunk_long_enough(len: usize) -> (r: bool)
    ensures
        r == (len >= MIN_CHUNK_SAMPLES),
{
    len >= MIN_CHUNK_SAMPLES
}

/// The length in milliseconds of `len` samples at 16 kHz, rounded down.
pub fn chunk_duration_ms(len: u64) -> (r: u64)
    requires
        len * 1000 <= u64::MAX,
    ensures
        r == len * 1000 / 16000,
{
    len * 1000 / 16000
}

} // verus!
