//! Parakeet TDT speech recognition: vocabulary handling and the
//! detokenizer that turns token ids (and, when the graph emits them,
//! per-token frame indices) into text segments.

use vstd::prelude::*;
use crate::text::{append_from, chars_of, join_path, spec_join, string_of, trim, trim_chars};
use crate::transcribe::AsrSegment;

verus! {

/// The SentencePiece word-boundary marker.
pub open spec fn is_boundary(c: char) -> bool {
    c == '\u{2581}'
}

/// Pieces joined: empty pieces dropped, a leading boundary marker turned
/// into a space between words.
pub open spec fn stitch_raw(pieces: Seq<Seq<char>>) -> Seq<char>
    decreases pieces.len(),
{
    if pieces.len() == 0 {
        Seq::empty()
    } else {
        let out = stitch_raw(pieces.drop_last());
        let p = pieces.last();
        if p.len() == 0 {
            out
        } else if is_boundary(p[0]) {
            (if out.len() > 0 {
                out.push(' ')
            } else {
                out
            }) + p.drop_first()
        } else {
            out + p
        }
    }
}

/// The readable text of SentencePiece pieces.
pub open spec fn spec_stitch(pieces: Seq<Seq<char>>) -> Seq<char> {
    trim(stitch_raw(pieces))
}

/// The characters of each piece.
pub open spec fn piece_views(pieces: Seq<&str>) -> Seq<Seq<char>> {
    pieces.map_values(|p: &str| p@)
}

/// Combine SentencePiece pieces into a readable string: the U+2581 word
/// marker becomes a space, empty pieces are dropped, and the result is
/// trimmed.
pub fn stitch_pieces(pieces: &[&str]) -> (r: String)
    ensures
        r@ == spec_stitch(piece_views(pieces@)),
{
    let ghost pv = piece_views(pieces@);
    let mut out: Vec<char> = Vec::new();
    let mut i: usize = 0;
    proof {
        assert(pv.take(0) =~= Seq::<Seq<char>>::empty());
    }
    while i < pieces.len()
        invariant
            i <= pieces@.len(),
            pv == piece_views(pieces@),
            pv.len() == pieces@.len(),
            out@ == stitch_raw(pv.take(i as int)),
        decreases pieces.len() - i,
    {
        let cs = chars_of(pieces[i]);
        proof {
            let p = pv.take(i as int + 1);
            assert(p.drop_last() =~= pv.take(i as int));
            assert(p.last() == pieces@[i as int]@);
            assert(cs@ == p.last());
        }
        if cs.len() == 0 {
        } else if cs[0] == '\u{2581}' {
            if out.len() > 0 {
                out.push(' ');
            }
            append_from(&mut out, &cs, 1);
            proof {
                assert(cs@.skip(1) =~= cs@.drop_first());
            }
        } else {
            append_from(&mut out, &cs, 0);
            proof {
                assert(cs@.skip(0) =~= cs@);
            }
        }
        i = i + 1;
    }
    proof {
        assert(pv.take(i as int) =~= pv);
    }
    let t = trim_chars(&out);
    string_of(t.as_slice())
}


/// Encoder frame stride in milliseconds.
pub const FRAME_STRIDE_MS: u64 = 80;

/// A silence between tokens longer than this many frames starts a new
/// segment (300 ms at 80 ms per frame).
pub const GAP_FRAMES: i64 = 3;

pub struct ParakeetBackend {
    pub model_name: String,
    /// One piece per token id; special tokens are empty.
    pub tokens: Vec<String>,
}

/// Why the vocabulary cannot be used.
#[derive(Debug, Clone, Copy, PartialEq, Eq, Structural)]
pub enum VocabError {
    /// The vocabulary file has no lines.
    Empty,
}

impl ParakeetBackend {
    /// A backend for model `model_name`, with no vocabulary yet.
    pub fn new(model_name: &str) -> (r: ParakeetBackend)
        ensures
            r.model_name@ == model_name@,
            r.tokens@.len() == 0,
    {
        ParakeetBackend { model_name: model_name.to_string(), tokens: Vec::new() }
    }

    /// A file of the model, under the model's directory.
    pub fn artifact_path(&self, model_dir: &str, filename: &str) -> (r: String)
        ensures
            r@ == spec_join(model_dir@, filename@),
    {
        join_path(model_dir, filename)
    }

    /// The piece of token `id`; ids past the vocabulary give the empty
    /// string, so the blank vanishes.
    pub open spec fn spec_piece(&self, id: int) -> Seq<char> {
        if 0 <= id < self.tokens@.len() {
            self.tokens@[id]@
        } else {
            Seq::empty()
        }
    }

    pub fn id_to_piece(&self, id: usize) -> (r: &str)
        ensures
            r@ == self.spec_piece(id as int),
    {
        if id < self.tokens.len() {
            self.tokens[id].as_str()
        } else {
            proof {
                reveal_strlit("");
            }
            ""
        }
    }
}

/// A piece of the vocabulary file: the text before the first tab, with
/// the special tokens blanked.
pub open spec fn vocab_piece(line: Seq<char>) -> Seq<char> {
    let i = crate::num::first_index(line, '\t');
    let p = if i < 0 { line } else { line.take(i) };
    if p == "<blk>"@ || p == "<pad>"@ || p == "<unk>"@ {
        Seq::empty()
    } else {
        p
    }
}

impl ParakeetBackend {
    /// Install the vocabulary read from `tokens.txt`, one line per token.
    pub fn load_tokens(&mut self, lines: &[String]) -> (r: Result<(), VocabError>)
        ensures
            lines@.len() == 0 ==> r == Err::<(), VocabError>(VocabError::Empty) && final(self).tokens == old(
                self,
            ).tokens,
            lines@.len() > 0 ==> r is Ok && final(self).tokens@.len() == lines@.len() && forall|i: int|
                0 <= i < lines@.len() ==> (#[trigger] final(self).tokens@[i])@ == vocab_piece(lines@[i]@),
            final(self).model_name == old(self).model_name,
    {
        if lines.len() == 0 {
            return Err(VocabError::Empty);
        }
        let mut toks: Vec<String> = Vec::new();
        let mut i: usize = 0;
        while i < lines.len()
            invariant
                i <= lines@.len(),
                toks@.len() == i,
                forall|j: int| 0 <= j < i ==> (#[trigger] toks@[j])@ == vocab_piece(lines@[j]@),
            decreases lines.len() - i,
        {
            toks.push(vocab_piece_of(lines[i].as_str()));
            i = i + 1;
        }
        self.tokens = toks;
        Ok(())
    }
}

fn vocab_piece_of(line: &str) -> (r: String)
    ensures
        r@ == vocab_piece(line@),
{
    let cs = chars_of(line);
    let mut k: usize = 0;
    while k < cs.len() && cs[k] != '\t'
        invariant
            k <= cs@.len(),
            cs@ == line@,
            forall|j: int| 0 <= j < k ==> cs@[j] != '\t',
        decreases cs.len() - k,
    {
        k = k + 1;
    }
    proof {
        crate::num::first_index_found(line@, '\t', k as int);
    }
    let mut p: Vec<char> = Vec::new();
    let mut j: usize = 0;
    while j < k
        invariant
            j <= k <= cs@.len(),
            p@ == cs@.take(j as int),
        decreases k - j,
    {
        p.push(cs[j]);
        proof {
            assert(cs@.take(j as int + 1) =~= cs@.take(j as int).push(cs@[j as int]));
        }
        j = j + 1;
    }
    let piece = string_of(p.as_slice());
    proof {
        if k == cs.len() {
            assert(cs@.take(k as int) =~= cs@);
        }
    }
    if crate::json::str_eq(piece.as_str(), "<blk>") || crate::json::str_eq(piece.as_str(), "<pad>")
        || crate::json::str_eq(piece.as_str(), "<unk>") {
        proof {
            reveal_strlit("");
        }
        return String::new();
    }
    piece
}

/// The frame indices at which a new segment starts: a gap of more than
/// three frames from the previous token, scanning boundaries `1..k`, with
/// `rs` the start of the current run.
pub open spec fn split_scan(times: Seq<i64>, k: int) -> (Seq<(int, int)>, int)
    decreases k,
{
    if k <= 1 {
        (Seq::empty(), 0)
    } else {
        let prev = split_scan(times, k - 1);
        let i = k - 1;
        if times[i] - times[i - 1] > GAP_FRAMES && i > prev.1 {
            (prev.0.push((prev.1, i)), i)
        } else {
            prev
        }
    }
}

/// Where the last run begins never moves back as the scan goes on.
proof fn lemma_split_scan_grows(times: Seq<i64>, k: int, n: int)
    requires
        k <= n,
    ensures
        split_scan(times, k).1 <= split_scan(times, n).1,
    decreases n - k,
{
    if k < n {
        lemma_split_scan_grows(times, k, n - 1);
        lemma_split_scan_below(times, n - 1);
    }
}

/// The last run begins before the point the scan has reached.
proof fn lemma_split_scan_below(times: Seq<i64>, k: int)
    ensures
        split_scan(times, k).1 <= split_scan(times, k + 1).1,
        k >= 1 ==> split_scan(times, k).1 < k,
    decreases k,
{
    if k > 1 {
        lemma_split_scan_below(times, k - 1);
    }
}

/// The segment a run of pieces and frames makes.
pub open spec fn run_segment(pieces: Seq<Seq<char>>, frames: Seq<i64>) -> (u64, u64, Seq<char>) {
    let start: u64 = if frames.len() > 0 { (frames[0] * 80) as u64 } else { 0 };
    let end: u64 = if frames.len() > 0 { ((frames.last() + 1) * 80) as u64 } else { start };
    (start, end, spec_stitch(pieces))
}

/// The segments of the runs, in order, before empty ones are dropped.
pub open spec fn runs_segments(pieces: Seq<Seq<char>>, times: Seq<i64>, runs: Seq<(int, int)>) -> Seq<
    (u64, u64, Seq<char>),
>
    decreases runs.len(),
{
    if runs.len() == 0 {
        Seq::empty()
    } else {
        let r = runs.last();
        runs_segments(pieces, times, runs.drop_last()) + seq![
            run_segment(pieces.subrange(r.0, r.1), times.subrange(r.0, r.1)),
        ]
    }
}

/// The segments whose text is not blank.
pub open spec fn non_blank(segs: Seq<(u64, u64, Seq<char>)>) -> Seq<(u64, u64, Seq<char>)>
    decreases segs.len(),
{
    if segs.len() == 0 {
        Seq::empty()
    } else {
        non_blank(segs.drop_last()) + if trim(segs.last().2).len() > 0 {
            seq![segs.last()]
        } else {
            Seq::empty()
        }
    }
}

impl ParakeetBackend {
    /// The pieces of a token-id list; negative ids count as zero.
    pub open spec fn spec_pieces(&self, ids: Seq<i64>) -> Seq<Seq<char>> {
        ids.map_values(|id: i64| self.spec_piece(if id < 0 { 0 } else { id as int }))
    }

    /// The segments of a chunk: without frame indices one segment over
    /// the whole chunk; with them, one per run of tokens separated by gaps
    /// of more than 300 ms. Blank segments are dropped.
    pub open spec fn spec_decode(&self, ids: Seq<i64>, times: Option<Seq<i64>>, chunk_samples: int) -> Seq<
        (u64, u64, Seq<char>),
    > {
        let pieces = self.spec_pieces(ids);
        let chunk_end = (chunk_samples * 1000 / 16000) as u64;
        if ids.len() == 0 {
            Seq::empty()
        } else {
            match times {
                None => if trim(spec_stitch(pieces)).len() > 0 {
                    seq![(0u64, chunk_end, spec_stitch(pieces))]
                } else {
                    Seq::empty()
                },
                Some(t) => {
                    let sc = split_scan(t, t.len() as int);
                    let runs = sc.0;
                    let last = if sc.1 < pieces.len() {
                        seq![run_segment(pieces.subrange(sc.1, pieces.len() as int), t.subrange(sc.1, t.len() as int))]
                    } else {
                        Seq::empty()
                    };
                    non_blank(runs_segments(pieces, t, runs) + last)
                },
            }
        }
    }
}

pub open spec fn seg_views(v: Seq<AsrSegment>) -> Seq<(u64, u64, Seq<char>)> {
    v.map_values(|s: AsrSegment| (s.start_ms, s.end_ms, s.text@))
}

/// Frame indices the decoder can turn into times: non-negative and small
/// enough that `(f + 1) * 80` fits.
pub open spec fn frames_ok(times: Seq<i64>) -> bool {
    forall|i: int| 0 <= i < times.len() ==> 0 <= #[trigger] times[i] && (times[i] + 1) * 80 <= u64::MAX
}

impl ParakeetBackend {
    /// One segment from a run of pieces and their frames.
    pub fn emit_run(&self, pieces: &[&str], frames: &[i64]) -> (r: AsrSegment)
        requires
            frames_ok(frames@),
        ensures
            (r.start_ms, r.end_ms, r.text@) == run_segment(piece_views(pieces@), frames@),
    {
        let text = stitch_pieces(pieces);
        let start_ms: u64 = if frames.len() > 0 {
            (frames[0] as u64) * FRAME_STRIDE_MS
        } else {
            0
        };
        let end_ms: u64 = if frames.len() > 0 {
            (frames[frames.len() - 1] as u64 + 1) * FRAME_STRIDE_MS
        } else {
            start_ms
        };
        AsrSegment { start_ms, end_ms, text }
    }
}


fn is_blank(s: &String) -> (r: bool)
    ensures
        r == (trim(s@).len() == 0),
{
    let cs = chars_of(s.as_str());
    let t = trim_chars(&cs);
    t.len() == 0
}

fn drop_blank(v: Vec<AsrSegment>) -> (r: Vec<AsrSegment>)
    ensures
        seg_views(r@) == non_blank(seg_views(v@)),
{
    let ghost sv = seg_views(v@);
    let mut out: Vec<AsrSegment> = Vec::new();
    let mut i: usize = 0;
    proof {
        assert(sv.take(0) =~= Seq::<(u64, u64, Seq<char>)>::empty());
        assert(seg_views(out@) =~= non_blank(sv.take(0)));
    }
    let mut rest = v;
    let mut items: Vec<AsrSegment> = Vec::new();
    // Move the segments out in order so each can be kept without a copy.
    let n = rest.len();
    let mut k: usize = 0;
    let ghost orig = rest@;
    while k < n
        invariant
            k <= n == orig.len(),
            rest@ == orig.take(n - k),
            items@.len() == k,
            forall|j: int| 0 <= j < k ==> #[trigger] items@[j] == orig[n - 1 - j],
        decreases n - k,
    {
        let x = rest.pop().unwrap();
        proof {
            assert(orig.take(n - k).last() == orig[n - 1 - k]);
            assert(orig.take(n - k).drop_last() =~= orig.take(n - k - 1));
        }
        items.push(x);
        k = k + 1;
    }
    while i < n
        invariant
            i <= n == orig.len(),
            sv == seg_views(orig),
            items@.len() == n - i,
            forall|j: int| 0 <= j < n - i ==> #[trigger] items@[j] == orig[n - 1 - j],
            seg_views(out@) == non_blank(sv.take(i as int)),
        decreases n - i,
    {
        let x = items.pop().unwrap();
        proof {
            assert(x == orig[i as int]);
            let p = sv.take(i as int + 1);
            assert(p.drop_last() =~= sv.take(i as int));
            assert(p.last() == (x.start_ms, x.end_ms, x.text@));
        }
        let ghost before = seg_views(out@);
        if !is_blank(&x.text) {
            out.push(x);
            proof {
                assert(seg_views(out@) =~= before + seq![sv[i as int]]);
            }
        } else {
            proof {
                assert(before =~= before + Seq::<(u64, u64, Seq<char>)>::empty());
            }
        }
        i = i + 1;
    }
    proof {
        assert(sv.take(i as int) =~= sv);
    }
    out
}

fn piece_of(b: &ParakeetBackend, id: i64) -> (r: &str)
    ensures
        r@ == b.spec_piece(if id < 0 { 0 } else { id as int }),
{
    if id < 0 {
        return b.id_to_piece(0);
    }
    let n = b.tokens.len();
    if (id as u64) >= (n as u64) {
        proof {
            reveal_strlit("");
        }
        return "";
    }
    b.id_to_piece(id as usize)
}

fn sub_pieces<'a>(v: &Vec<&'a str>, lo: usize, hi: usize) -> (r: Vec<&'a str>)
    requires
        lo <= hi <= v@.len(),
    ensures
        piece_views(r@) == piece_views(v@).subrange(lo as int, hi as int),
{
    let mut out: Vec<&str> = Vec::new();
    let mut i: usize = lo;
    while i < hi
        invariant
            lo <= i <= hi <= v@.len(),
            out@ == v@.subrange(lo as int, i as int),
        decreases hi - i,
    {
        out.push(v[i]);
        proof {
            assert(v@.subrange(lo as int, i as int + 1) =~= v@.subrange(lo as int, i as int).push(v@[i as int]));
        }
        i = i + 1;
    }
    proof {
        assert(piece_views(out@) =~= piece_views(v@).subrange(lo as int, hi as int));
    }
    out
}

fn sub_frames(v: &[i64], lo: usize, hi: usize) -> (r: Vec<i64>)
    requires
        lo <= hi <= v@.len(),
    ensures
        r@ == v@.subrange(lo as int, hi as int),
{
    let mut out: Vec<i64> = Vec::new();
    let mut i: usize = lo;
    while i < hi
        invariant
            lo <= i <= hi <= v@.len(),
            out@ == v@.subrange(lo as int, i as int),
        decreases hi - i,
    {
        out.push(v[i]);
        proof {
            assert(v@.subrange(lo as int, i as int + 1) =~= v@.subrange(lo as int, i as int).push(v@[i as int]));
        }
        i = i + 1;
    }
    out
}

impl ParakeetBackend {
    /// Stitch token ids into text segments. With per-token frame indices
    /// the chunk splits wherever more than 300 ms pass between tokens;
    /// without them the whole chunk is one segment. Blank segments are
    /// dropped.
    pub fn decode_to_segments(&self, token_ids: &[i64], timestamps: Option<&[i64]>, chunk_samples: usize) -> (r: Vec<
        AsrSegment,
    >)
        requires
            chunk_samples * 1000 <= u64::MAX,
            timestamps matches Some(t) ==> frames_ok(t@) && split_scan(t@, t@.len() as int).1
                <= token_ids@.len(),
        ensures
            seg_views(r@) == self.spec_decode(
                token_ids@,
                match timestamps {
                    Some(t) => Some(t@),
                    None => None,
                },
                chunk_samples as int,
            ),
    {
        let chunk_end_ms = ((chunk_samples as u64) * 1000) / 16000;
        if token_ids.len() == 0 {
            let v: Vec<AsrSegment> = Vec::new();
            proof {
                assert(seg_views(v@) =~= Seq::<(u64, u64, Seq<char>)>::empty());
            }
            return v;
        }
        let mut pieces: Vec<&str> = Vec::new();
        let mut i: usize = 0;
        while i < token_ids.len()
            invariant
                i <= token_ids@.len(),
                piece_views(pieces@) == self.spec_pieces(token_ids@).take(i as int),
            decreases token_ids.len() - i,
        {
            let p = piece_of(self, token_ids[i]);
            let ghost before = pieces@;
            pieces.push(p);
            proof {
                assert(pieces@ == before.push(p));
                assert(piece_views(pieces@) =~= piece_views(before).push(p@));
                assert(self.spec_pieces(token_ids@)[i as int] == p@);
                assert(self.spec_pieces(token_ids@).take(i as int + 1) =~= self.spec_pieces(token_ids@).take(i as int).push(p@));
                assert(piece_views(pieces@) =~= self.spec_pieces(token_ids@).take(i as int + 1));
            }
            i = i + 1;
        }
        proof {
            assert(self.spec_pieces(token_ids@).take(i as int) =~= self.spec_pieces(token_ids@));
        }
        let ghost pv = piece_views(pieces@);
        let times = match timestamps {
            None => {
                let text = stitch_pieces(pieces.as_slice());
                let mut v: Vec<AsrSegment> = Vec::new();
                if !is_blank(&text) {
                    v.push(AsrSegment { start_ms: 0, end_ms: chunk_end_ms, text });
                }
                proof {
                    assert(seg_views(v@) =~= self.spec_decode(token_ids@, None, chunk_samples as int));
                }
                return v;
            },
            Some(t) => t,
        };
        let ghost tv = times@;
        let mut segs: Vec<AsrSegment> = Vec::new();
        let mut run_start: usize = 0;
        let mut k: usize = 1;
        proof {
            assert(seg_views(segs@) =~= runs_segments(pv, tv, split_scan(tv, 1).0));
        }
        while k < times.len()
            invariant
                1 <= k,
                k <= times@.len() || (times@.len() == 0 && k == 1),
                split_scan(tv, tv.len() as int).1 <= pieces@.len(),
                tv == times@,
                pv == piece_views(pieces@),
                frames_ok(tv),
                seg_views(segs@) == runs_segments(pv, tv, split_scan(tv, k as int).0),
                run_start == split_scan(tv, k as int).1,
                run_start < k,
            decreases times.len() - k,
        {
            let gap = times[k] - times[k - 1];
            if gap > GAP_FRAMES && k > run_start {
                proof {
                    lemma_split_scan_grows(tv, k as int + 1, tv.len() as int);
                }
                let sp = sub_pieces(&pieces, run_start, k);
                let sf = sub_frames(times, run_start, k);
                proof {
                    assert forall|j: int| 0 <= j < sf@.len() implies 0 <= #[trigger] sf@[j] && (sf@[j] + 1) * 80 <= u64::MAX by {
                        assert(sf@[j] == tv[run_start + j]);
                    }
                }
                let seg = self.emit_run(sp.as_slice(), sf.as_slice());
                let ghost before = seg_views(segs@);
                segs.push(seg);
                proof {
                    let sc = split_scan(tv, k as int);
                    assert(split_scan(tv, k as int + 1) == (sc.0.push((sc.1, k as int)), k as int));
                    let nr = sc.0.push((sc.1, k as int));
                    assert(nr.drop_last() =~= sc.0);
                    assert(seg_views(segs@) =~= before + seq![(seg.start_ms, seg.end_ms, seg.text@)]);
                }
                run_start = k;
            }
            k = k + 1;
        }
        let ghost sc = split_scan(tv, tv.len() as int);
        proof {
            if tv.len() == 0 {
                assert(sc == split_scan(tv, k as int));
            } else {
                assert(k as int == tv.len());
            }
        }
        if run_start < pieces.len() {
            let sp = sub_pieces(&pieces, run_start, pieces.len());
            let sf = sub_frames(times, if run_start <= times.len() { run_start } else { times.len() }, times.len());
            proof {
                assert forall|j: int| 0 <= j < sf@.len() implies 0 <= #[trigger] sf@[j] && (sf@[j] + 1) * 80 <= u64::MAX by {}
            }
            let seg = self.emit_run(sp.as_slice(), sf.as_slice());
            let ghost before = seg_views(segs@);
            segs.push(seg);
            proof {
                assert(seg_views(segs@) =~= before + seq![(seg.start_ms, seg.end_ms, seg.text@)]);
            }
        } else {
            proof {
                let b = seg_views(segs@);
                assert(b =~= b + Seq::<(u64, u64, Seq<char>)>::empty());
            }
        }
        drop_blank(segs)
    }
}

} // verus!
