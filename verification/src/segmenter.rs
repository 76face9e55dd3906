//! Speaker segmentation: turning the per-frame "who is speaking" masks of
//! the segmentation model into voiced slices.
//!
//! Each frame carries a bitmask of the local speakers (A, B, C) active in
//! it. Runs of frames with the same mask become one slice per active
//! speaker; runs shorter than 100 ms are frame-level noise and dropped.

use vstd::prelude::*;

verus! {

/// Frame stride of the segmentation model, in milliseconds.
pub const FRAME_STRIDE_MS: u64 = 17;

/// The shortest slice that is kept, in milliseconds.
pub const MIN_SLICE_MS: u64 = 100;

/// A run of frames with a stable speaker mask, for one local speaker.
/// Times are session-relative milliseconds.
#[derive(Debug, Clone, Copy, PartialEq, Eq, Structural)]
pub struct VoicedSlice {
    pub start_ms: u64,
    pub end_ms: u64,
    /// 0, 1 or 2: the speaker's index within this window.
    pub local_speaker: u8,
    /// More than one bit of the run's mask is set.
    pub overlap: bool,
}

/// Bit `k` of `x`.
pub open spec fn bit(x: u8, k: int) -> int {
    if k == 0 {
        x as int % 2
    } else if k == 1 {
        (x as int / 2) % 2
    } else if k == 2 {
        (x as int / 4) % 2
    } else if k == 3 {
        (x as int / 8) % 2
    } else if k == 4 {
        (x as int / 16) % 2
    } else if k == 5 {
        (x as int / 32) % 2
    } else if k == 6 {
        (x as int / 64) % 2
    } else {
        (x as int / 128) % 2
    }
}

/// The number of bits set in `x`.
pub open spec fn popcount(x: u8) -> int {
    bit(x, 0) + bit(x, 1) + bit(x, 2) + bit(x, 3) + bit(x, 4) + bit(x, 5) + bit(x, 6) + bit(x, 7)
}

/// The slice for speaker `spk` when its bit is set in `mask`.
pub open spec fn slice_for(mask: u8, spk: int, start: u64, end: u64) -> Seq<VoicedSlice> {
    if bit(mask, spk) == 1 {
        seq![VoicedSlice { start_ms: start, end_ms: end, local_speaker: spk as u8, overlap: popcount(mask) > 1 }]
    } else {
        Seq::empty()
    }
}

/// What a finished run of `mask` over frames `[rs, i)` adds.
pub open spec fn run_slices(mask: u8, rs: int, i: int, t0: int) -> Seq<VoicedSlice> {
    let start = t0 + rs * 17;
    let end = t0 + i * 17;
    if mask != 0 && end - start >= 100 {
        slice_for(mask, 0, start as u64, end as u64) + slice_for(mask, 1, start as u64, end as u64)
            + slice_for(mask, 2, start as u64, end as u64)
    } else {
        Seq::empty()
    }
}

/// The mask after frame `i - 1`: frame `i`'s, or 255 past the end.
pub open spec fn next_mask(b: Seq<u8>, i: int) -> u8 {
    if i < b.len() {
        b[i]
    } else {
        255
    }
}

/// The scan state `(slices, run start, run mask)` once the boundaries
/// `1..k` have been looked at.
pub open spec fn rle_scan(b: Seq<u8>, t0: int, k: int) -> (Seq<VoicedSlice>, int, u8)
    decreases k,
{
    if k <= 1 {
        (Seq::empty(), 0, b[0])
    } else {
        let prev = rle_scan(b, t0, k - 1);
        let i = k - 1;
        let next = next_mask(b, i);
        if next != prev.2 {
            (prev.0 + run_slices(prev.2, prev.1, i, t0), i, next)
        } else {
            prev
        }
    }
}

/// The voiced slices of a mask sequence starting at `t0` milliseconds.
pub open spec fn spec_rle(b: Seq<u8>, t0: int) -> Seq<VoicedSlice> {
    if b.len() == 0 {
        Seq::empty()
    } else {
        rle_scan(b, t0, b.len() as int + 1).0
    }
}

fn push_slice_for(out: &mut Vec<VoicedSlice>, mask: u8, spk: u8, start: u64, end: u64)
    requires
        spk < 3,
    ensures
        final(out)@ == old(out)@ + slice_for(mask, spk as int, start, end),
{
    let b = if spk == 0 {
        mask % 2
    } else if spk == 1 {
        (mask / 2) % 2
    } else {
        (mask / 4) % 2
    };
    if b == 1 {
        let ones = mask % 2 + (mask / 2) % 2 + (mask / 4) % 2 + (mask / 8) % 2 + (mask / 16) % 2
            + (mask / 32) % 2 + (mask / 64) % 2 + (mask / 128) % 2;
        out.push(VoicedSlice { start_ms: start, end_ms: end, local_speaker: spk, overlap: ones > 1 });
        proof {
            assert(out@ =~= old(out)@ + slice_for(mask, spk as int, start, end));
        }
    } else {
        proof {
            assert(out@ =~= old(out)@ + slice_for(mask, spk as int, start, end));
        }
    }
}

/// Close the run of `cur` at boundary `i` when the mask changes to `next`.
fn rle_step(out: &mut Vec<VoicedSlice>, run_start: &mut usize, cur: &mut u8, i: usize, next: u8, t0: u64)
    requires
        *old(run_start) < i,
        t0 + i * 17 <= u64::MAX,
    ensures
        next != *old(cur) ==> final(out)@ == old(out)@ + run_slices(*old(cur), *old(run_start) as int, i as int, t0 as int)
            && *final(run_start) == i && *final(cur) == next,
        next == *old(cur) ==> final(out)@ == old(out)@ && *final(run_start) == *old(run_start)
            && *final(cur) == *old(cur),
{
    if next != *cur {
        let c = *cur;
        let start_ms = t0 + (*run_start as u64) * FRAME_STRIDE_MS;
        let end_ms = t0 + (i as u64) * FRAME_STRIDE_MS;
        if c != 0 && end_ms - start_ms >= MIN_SLICE_MS {
            push_slice_for(out, c, 0, start_ms, end_ms);
            push_slice_for(out, c, 1, start_ms, end_ms);
            push_slice_for(out, c, 2, start_ms, end_ms);
            proof {
                assert(out@ =~= old(out)@ + run_slices(c, *old(run_start) as int, i as int, t0 as int));
            }
        } else {
            proof {
                assert(out@ =~= old(out)@ + run_slices(c, *old(run_start) as int, i as int, t0 as int));
            }
        }
        *run_start = i;
        *cur = next;
    }
}

/// Run-length-encode per-frame speaker masks into voiced slices: one slice
/// per active local speaker of each run of at least 100 ms.
pub fn rle_to_slices(bitmasks: &[u8], window_t0_ms: u64) -> (r: Vec<VoicedSlice>)
    requires
        window_t0_ms + bitmasks@.len() * 17 <= u64::MAX,
    ensures
        r@ == spec_rle(bitmasks@, window_t0_ms as int),
{
    let mut out: Vec<VoicedSlice> = Vec::new();
    let n = bitmasks.len();
    if n == 0 {
        return out;
    }
    let mut run_start: usize = 0;
    let mut cur: u8 = bitmasks[0];
    let mut i: usize = 1;
    while i < n
        invariant
            1 <= i <= n,
            n == bitmasks@.len(),
            window_t0_ms + n * 17 <= u64::MAX,
            run_start < i,
            rle_scan(bitmasks@, window_t0_ms as int, i as int) == (out@, run_start as int, cur),
        decreases n - i,
    {
        rle_step(&mut out, &mut run_start, &mut cur, i, bitmasks[i], window_t0_ms);
        i = i + 1;
    }
    rle_step(&mut out, &mut run_start, &mut cur, n, 255, window_t0_ms);
    out
}

/// The speakers each class of the model's powerset stands for: silence,
/// each of A, B, C alone, then the pairs A+B, A+C, B+C.
pub open spec fn spec_class_bits(class: int) -> u8 {
    if class == 1 {
        1
    } else if class == 2 {
        2
    } else if class == 3 {
        4
    } else if class == 4 {
        3
    } else if class == 5 {
        5
    } else if class == 6 {
        6
    } else {
        0
    }
}

/// The speaker mask of a powerset class.
pub fn class_bits(class: usize) -> (r: u8)
    requires
        class < 7,
    ensures
        r == spec_class_bits(class as int),
{
    if class == 1 {
        1
    } else if class == 2 {
        2
    } else if class == 3 {
        4
    } else if class == 4 {
        3
    } else if class == 5 {
        5
    } else if class == 6 {
        6
    } else {
        0
    }
}

/// The voiced slices of a window whose frames the model classed as
/// `classes` (each below seven): each class becomes its speaker mask,
/// and the masks are run-length encoded.
pub fn slices_of_classes(classes: &[u8], window_t0_ms: u64) -> (r: Vec<VoicedSlice>)
    requires
        forall|i: int| 0 <= i < classes@.len() ==> classes@[i] < 7,
        window_t0_ms + classes@.len() * 17 <= u64::MAX,
    ensures
        r@ == spec_rle(classes@.map_values(|c: u8| spec_class_bits(c as int)), window_t0_ms as int),
{
    let mut masks: Vec<u8> = Vec::new();
    let mut i: usize = 0;
    while i < classes.len()
        invariant
            i <= classes@.len(),
            forall|j: int| 0 <= j < classes@.len() ==> classes@[j] < 7,
            masks@ == classes@.take(i as int).map_values(|c: u8| spec_class_bits(c as int)),
        decreases classes@.len() - i,
    {
        masks.push(class_bits(classes[i] as usize));
        proof {
            assert(classes@.take(i + 1).map_values(|c: u8| spec_class_bits(c as int)) =~= classes@.take(
                i as int,
            ).map_values(|c: u8| spec_class_bits(c as int)).push(spec_class_bits(classes@[i as int] as int)));
        }
        i = i + 1;
    }
    proof {
        assert(classes@.take(classes@.len() as int) =~= classes@);
    }
    rle_to_slices(masks.as_slice(), window_t0_ms)
}

/// A window of at least a tenth of a second (at 16 kHz) is worth
/// segmenting; shorter ones give no slices.
pub fn window_long_enough(samples: usize) -> (r: bool)
    ensures
        r == (samples >= 1600),
{
    samples >= 1600
}

/// The segmentation model of a diarization pipeline, with the names of
/// the graph's audio input and logits output.
#[derive(Debug, Clone)]
pub struct Segmenter {
    pub model_name: String,
    pub input_name: String,
    pub output_name: String,
}

/// Whether a graph input name looks like the audio input, by its lower
/// case: it mentions `wave` or `audio`, or is `input`.
pub open spec fn is_audio_input(n: Seq<char>) -> bool {
    let l = crate::moonshine::lowercase(n);
    crate::moonshine::has_infix(l, "wave"@) || crate::moonshine::has_infix(l, "audio"@) || l == "input"@
}

/// Whether a graph output name looks like the logits output, by its lower
/// case: it mentions `logit`, `output` or `score`.
pub open spec fn is_logits_output(n: Seq<char>) -> bool {
    let l = crate::moonshine::lowercase(n);
    crate::moonshine::has_infix(l, "logit"@) || crate::moonshine::has_infix(l, "output"@)
        || crate::moonshine::has_infix(l, "score"@)
}

/// The first name that fits (an audio input, or a logits output).
pub open spec fn first_fit(names: Seq<Seq<char>>, input: bool) -> Option<Seq<char>>
    decreases names.len(),
{
    if names.len() == 0 {
        None
    } else if (if input {
        is_audio_input(names[0])
    } else {
        is_logits_output(names[0])
    }) {
        Some(names[0])
    } else {
        first_fit(names.drop_first(), input)
    }
}

fn fits(name: &str, input: bool) -> (r: bool)
    ensures
        r == (if input {
            is_audio_input(name@)
        } else {
            is_logits_output(name@)
        }),
{
    let l = crate::moonshine::to_lower(name);
    if input {
        crate::moonshine::contains(l.as_str(), "wave") || crate::moonshine::contains(l.as_str(), "audio")
            || crate::json::str_eq(l.as_str(), "input")
    } else {
        crate::moonshine::contains(l.as_str(), "logit") || crate::moonshine::contains(l.as_str(), "output")
            || crate::moonshine::contains(l.as_str(), "score")
    }
}

fn find_fit(names: &[String], input: bool) -> (r: Option<usize>)
    ensures
        match r {
            Some(i) => i < names@.len() && first_fit(crate::sorted::views(names@), input) == Some(names@[i as int]@),
            None => first_fit(crate::sorted::views(names@), input) is None,
        },
{
    let ghost v = crate::sorted::views(names@);
    let mut i: usize = 0;
    proof {
        assert(v.skip(0) =~= v);
    }
    while i < names.len()
        invariant
            i <= names@.len(),
            v == crate::sorted::views(names@),
            v.len() == names@.len(),
            first_fit(v, input) == first_fit(v.skip(i as int), input),
        decreases names@.len() - i,
    {
        proof {
            assert(v.skip(i as int)[0] == names@[i as int]@);
            assert(v.skip(i as int).drop_first() =~= v.skip(i + 1));
        }
        if fits(names[i].as_str(), input) {
            return Some(i);
        }
        i = i + 1;
    }
    None
}

impl Segmenter {
    /// A segmenter of the named model, expecting the usual `waveform`
    /// input and `logits` output until the graph says otherwise.
    pub fn new(name: &str) -> (r: Segmenter)
        ensures
            r.model_name@ == name@,
            r.input_name@ == "waveform"@,
            r.output_name@ == "logits"@,
    {
        Segmenter {
            model_name: name.to_string(),
            input_name: "waveform".to_string(),
            output_name: "logits".to_string(),
        }
    }

    /// Where the model's graph lies in its model directory.
    pub fn model_path(&self, model_dir: &str) -> (r: String)
        ensures
            r@ == crate::text::spec_join(model_dir@, "segmentation.onnx"@),
    {
        crate::text::join_path(model_dir, "segmentation.onnx")
    }

    /// Bind the graph's audio input and logits output by their names: the
    /// first of each that fits, else the names kept so far.
    pub fn sniff_io(&mut self, inputs: &[String], outputs: &[String])
        ensures
            final(self).input_name@ == (match first_fit(crate::sorted::views(inputs@), true) {
                Some(n) => n,
                None => old(self).input_name@,
            }),
            final(self).output_name@ == (match first_fit(crate::sorted::views(outputs@), false) {
                Some(n) => n,
                None => old(self).output_name@,
            }),
            final(self).model_name == old(self).model_name,
    {
        if let Some(i) = find_fit(inputs, true) {
            self.input_name = inputs[i].clone();
        }
        if let Some(j) = find_fit(outputs, false) {
            self.output_name = outputs[j].clone();
        }
    }
}

} // verus!
