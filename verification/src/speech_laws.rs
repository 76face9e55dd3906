//! Laws of the speech pipeline: how pieces become text, how token times
//! split a chunk into segments, how speaker masks become slices, and how
//! segments are attributed to speaker turns.

use vstd::prelude::*;
use crate::parakeet::{non_blank, run_segment, runs_segments, spec_stitch, split_scan, stitch_raw, ParakeetBackend};
use crate::text::{is_ws, trim};
use crate::transcribe::{best_turn, joined, AsrSegment, EmittedSegment, SpeakerTurn};
use crate::segmenter::{popcount, rle_scan, run_slices, slice_for, spec_rle, VoicedSlice};

verus! {

/// A piece as it reads: a leading word marker becomes a space.
pub open spec fn piece_reading(p: Seq<char>) -> Seq<char> {
    if p.len() > 0 && p[0] == '\u{2581}' {
        seq![' '] + p.drop_first()
    } else {
        p
    }
}

/// The pieces read one after another, every one of them kept.
pub open spec fn pieces_reading(ps: Seq<Seq<char>>) -> Seq<char>
    decreases ps.len(),
{
    if ps.len() == 0 {
        Seq::empty()
    } else {
        pieces_reading(ps.drop_last()) + piece_reading(ps.last())
    }
}

pub open spec fn spaces(n: nat) -> Seq<char> {
    Seq::new(n, |i: int| ' ')
}

proof fn lemma_reading_is_spaced_raw(ps: Seq<Seq<char>>) -> (n: nat)
    ensures
        pieces_reading(ps) == spaces(n) + stitch_raw(ps),
    decreases ps.len(),
{
    if ps.len() == 0 {
        assert(spaces(0) + Seq::<char>::empty() =~= Seq::<char>::empty());
        0
    } else {
        let m = lemma_reading_is_spaced_raw(ps.drop_last());
        let raw = stitch_raw(ps.drop_last());
        let p = ps.last();
        if p.len() == 0 {
            assert(pieces_reading(ps) =~= spaces(m) + stitch_raw(ps));
            m
        } else if p[0] == '\u{2581}' {
            if raw.len() > 0 {
                assert(pieces_reading(ps) =~= spaces(m) + stitch_raw(ps));
                m
            } else {
                assert(pieces_reading(ps) =~= spaces(m + 1) + stitch_raw(ps));
                m + 1
            }
        } else {
            assert(pieces_reading(ps) =~= spaces(m) + stitch_raw(ps));
            m
        }
    }
}

/// Stitched pieces read as every piece written out in order, each leading
/// word marker turned into a space, with the surrounding white space
/// trimmed: no non-empty piece is ever dropped or reordered.
pub proof fn law_stitch_keeps_every_piece(ps: Seq<Seq<char>>)
    ensures
        spec_stitch(ps) == trim(pieces_reading(ps)),
{
    let n = lemma_reading_is_spaced_raw(ps);
    let x = spaces(n) + stitch_raw(ps);
    assert forall|j: int| 0 <= j < n implies is_ws(#[trigger] x[j]) by {
        assert(x[j] == ' ');
    }
    crate::text::lemma_trim_start_skip(x, n as int);
    assert(x.skip(n as int) =~= stitch_raw(ps));
}

/// A mask with exactly one speaker's bit set.
pub open spec fn one_voice(m: u8) -> bool {
    m == 1 || m == 2 || m == 4 || m == 8 || m == 16 || m == 32 || m == 64 || m == 128
}

/// Whether local speaker `k` (0, 1 or 2) is active in mask `m`.
pub open spec fn voiced(m: u8, k: int) -> bool {
    if k == 0 {
        m % 2 == 1
    } else if k == 1 {
        (m / 2) % 2 == 1
    } else {
        (m / 4) % 2 == 1
    }
}

proof fn lemma_overlap_is_more_than_one_voice(m: u8)
    requires
        m != 0,
    ensures
        popcount(m) > 1 <==> !one_voice(m),
{
}

/// Slice `s` covers frames `[i, e)` of `b`, which all hold one mask; it
/// names a speaker active in that mask, and overlaps exactly when the mask
/// holds more than one voice.
pub open spec fn slice_of_run(b: Seq<u8>, t0: int, s: VoicedSlice, i: int, e: int) -> bool {
    &&& 0 <= i < e <= b.len()
    &&& s.start_ms == t0 + 17 * i
    &&& s.end_ms == t0 + 17 * e
    &&& forall|f: int| i <= f < e ==> b[f] == b[i]
    &&& s.local_speaker < 3
    &&& voiced(b[i], s.local_speaker as int)
    &&& s.overlap == !one_voice(b[i])
}

pub open spec fn from_some_run(b: Seq<u8>, t0: int, s: VoicedSlice) -> bool {
    exists|i: int, e: int| slice_of_run(b, t0, s, i, e)
}

proof fn lemma_closed_run(b: Seq<u8>, t0: int, mask: u8, rs: int, k: int)
    requires
        0 <= t0,
        0 <= rs < k <= b.len(),
        t0 + b.len() * 17 <= u64::MAX,
        forall|f: int| rs <= f < k ==> b[f] == mask,
    ensures
        forall|j: int|
            0 <= j < run_slices(mask, rs, k, t0).len() ==> from_some_run(b, t0, #[trigger] run_slices(mask, rs, k, t0)[j]),
{
    let start = t0 + rs * 17;
    let end = t0 + k * 17;
    assert(0 <= rs * 17 < k * 17 <= b.len() * 17) by (nonlinear_arith)
        requires
            0 <= rs < k <= b.len(),
    ;
    if mask != 0 && end - start >= 100 {
        let s0 = slice_for(mask, 0, start as u64, end as u64);
        let s1 = slice_for(mask, 1, start as u64, end as u64);
        let s2 = slice_for(mask, 2, start as u64, end as u64);
        lemma_overlap_is_more_than_one_voice(mask);
        assert(b[rs] == mask);
        let all = run_slices(mask, rs, k, t0);
        assert(all == s0 + s1 + s2);
        assert forall|j: int| 0 <= j < all.len() implies from_some_run(b, t0, #[trigger] all[j]) by {
            let v = all[j];
            if j < s0.len() {
                assert(v == s0[j]);
            } else if j < s0.len() + s1.len() {
                assert(v == s1[j - s0.len()]);
            } else {
                assert(v == s2[j - s0.len() - s1.len()]);
            }
            assert(slice_of_run(b, t0, v, rs, k));
        }
    }
}

proof fn lemma_scan_runs(b: Seq<u8>, t0: int, k: int)
    requires
        b.len() > 0,
        1 <= k <= b.len() + 1,
        0 <= t0,
        t0 + b.len() * 17 <= u64::MAX,
    ensures
        0 <= rle_scan(b, t0, k).1 < k,
        forall|f: int| rle_scan(b, t0, k).1 <= f < k && f < b.len() ==> b[f] == rle_scan(b, t0, k).2,
        forall|j: int|
            0 <= j < rle_scan(b, t0, k).0.len() ==> from_some_run(b, t0, #[trigger] rle_scan(b, t0, k).0[j]),
    decreases k,
{
    if k > 1 {
        lemma_scan_runs(b, t0, k - 1);
        let prev = rle_scan(b, t0, k - 1);
        let i = k - 1;
        let next = crate::segmenter::next_mask(b, i);
        if next != prev.2 {
            lemma_closed_run(b, t0, prev.2, prev.1, i);
            let added = run_slices(prev.2, prev.1, i, t0);
            let all = prev.0 + added;
            assert forall|j: int| 0 <= j < all.len() implies from_some_run(b, t0, #[trigger] all[j]) by {
                if j < prev.0.len() {
                    assert(all[j] == prev.0[j]);
                } else {
                    assert(all[j] == added[j - prev.0.len()]);
                }
            }
        }
    }
}

/// Every slice the segmenter emits stands for a run of frames that all
/// hold one mask: it starts and ends on the run's frames (17 ms each),
/// names a local speaker whose bit the mask sets, and is marked as overlap
/// exactly when the mask sets more than one speaker's bit. A run of a single
/// speaker never gives an overlapping slice.
pub proof fn law_slices_follow_their_run(b: Seq<u8>, t0: u64)
    requires
        t0 + b.len() * 17 <= u64::MAX,
    ensures
        forall|j: int|
            0 <= j < spec_rle(b, t0 as int).len() ==> from_some_run(b, t0 as int, #[trigger] spec_rle(b, t0 as int)[j]),
{
    if b.len() > 0 {
        lemma_scan_runs(b, t0 as int, b.len() as int + 1);
    }
}

/// How long turn `t` and the span `[a, b)` share, in milliseconds; zero or
/// less when they do not meet.
pub open spec fn shared_ms(a: int, b: int, t: SpeakerTurn) -> int {
    (if b < t.end_ms { b } else { t.end_ms as int }) - (if a > t.start_ms { a } else { t.start_ms as int })
}

/// Turn `w` is one of the first `k` turns, shares time with `[a, b)`, and
/// no turn among them shares more; of those sharing as much, none starts
/// earlier.
pub open spec fn wins(turns: Seq<SpeakerTurn>, a: int, b: int, k: int, w: SpeakerTurn) -> bool {
    &&& exists|j: int| 0 <= j < k && turns[j] == w
    &&& shared_ms(a, b, w) > 0
    &&& forall|j: int| 0 <= j < k ==> shared_ms(a, b, #[trigger] turns[j]) <= shared_ms(a, b, w)
    &&& forall|j: int|
        0 <= j < k && shared_ms(a, b, #[trigger] turns[j]) == shared_ms(a, b, w) ==> w.start_ms <= turns[j].start_ms
}

proof fn lemma_best_turn(turns: Seq<SpeakerTurn>, a: int, b: int, k: int)
    requires
        0 <= k <= turns.len(),
    ensures
        best_turn(turns, a, b, k) matches Some(p) ==> p.1 == shared_ms(a, b, p.0) && wins(turns, a, b, k, p.0),
        best_turn(turns, a, b, k) is None ==> forall|j: int| 0 <= j < k ==> shared_ms(a, b, #[trigger] turns[j]) <= 0,
    decreases k,
{
    if k > 0 {
        lemma_best_turn(turns, a, b, k - 1);
        let t = turns[k - 1];
        match best_turn(turns, a, b, k) {
            Some(p) => {
                if p.0 == t && p.1 == shared_ms(a, b, t) {
                    assert(turns[k - 1] == p.0);
                } else {
                    let q = best_turn(turns, a, b, k - 1)->0;
                    let j0 = choose|j: int| 0 <= j < k - 1 && turns[j] == q.0;
                    assert(turns[j0] == p.0);
                }
            },
            None => {},
        }
    }
}

/// A recognised segment is attributed to the turn that shares the most
/// time with it (on a tie, the one that starts earlier): its speaker and
/// overlap flag are that turn's. It gets no speaker, and no overlap, exactly
/// when no turn shares any time with it.
pub proof fn law_segment_goes_to_the_longest_shared_turn(
    e: EmittedSegment,
    seg: AsrSegment,
    turns: Seq<SpeakerTurn>,
    t0: int,
)
    requires
        joined(e, seg, turns, t0),
    ensures
        e.speaker is None <==> forall|j: int|
            0 <= j < turns.len() ==> shared_ms(t0 + seg.start_ms, t0 + seg.end_ms, #[trigger] turns[j]) <= 0,
        e.speaker is None ==> !e.overlap,
        e.speaker matches Some(s) ==> exists|w: SpeakerTurn|
            #![trigger wins(turns, t0 + seg.start_ms, t0 + seg.end_ms, turns.len() as int, w)]
            wins(turns, t0 + seg.start_ms, t0 + seg.end_ms, turns.len() as int, w) && w.speaker == s
                && w.overlap == e.overlap,
{
    let a = t0 + seg.start_ms;
    let b = t0 + seg.end_ms;
    lemma_best_turn(turns, a, b, turns.len() as int);
    match best_turn(turns, a, b, turns.len() as int) {
        Some(p) => {
            let j0 = choose|j: int| 0 <= j < turns.len() && turns[j] == p.0;
            assert(shared_ms(a, b, turns[j0]) > 0);
        },
        None => {},
    }
}

proof fn lemma_scan_prefix(b: Seq<u8>, t0: int, k: int, n: int)
    requires
        1 <= k <= n,
    ensures
        rle_scan(b, t0, k).0.len() <= rle_scan(b, t0, n).0.len(),
        forall|j: int| 0 <= j < rle_scan(b, t0, k).0.len() ==> rle_scan(b, t0, n).0[j] == rle_scan(b, t0, k).0[j],
    decreases n - k,
{
    if k < n {
        lemma_scan_prefix(b, t0, k, n - 1);
    }
}

proof fn lemma_scan_in_run(b: Seq<u8>, t0: int, i: int, e: int, k: int)
    requires
        0 <= i < e <= b.len(),
        i + 1 <= k <= e,
        0 <= t0,
        t0 + b.len() * 17 <= u64::MAX,
        forall|f: int| i <= f < e ==> b[f] == b[i],
        i == 0 || b[i - 1] != b[i],
    ensures
        rle_scan(b, t0, k).1 == i,
        rle_scan(b, t0, k).2 == b[i],
    decreases k,
{
    if k > i + 1 {
        lemma_scan_in_run(b, t0, i, e, k - 1);
    } else if i > 0 {
        lemma_scan_runs(b, t0, i);
    }
}

/// Every local speaker active in a whole run of equal masks that lasts
/// 100 ms or more gets a slice over exactly that run, marked as overlap
/// when the mask holds more than one voice. (A mask of all bits set, which
/// no powerset class gives, also marks the end of the frames and is left
/// out.)
pub proof fn law_every_voice_of_a_long_run_gets_a_slice(b: Seq<u8>, t0: u64, i: int, e: int, k: int)
    requires
        t0 + b.len() * 17 <= u64::MAX,
        0 <= i < e <= b.len(),
        forall|f: int| i <= f < e ==> b[f] == b[i],
        i == 0 || b[i - 1] != b[i],
        e == b.len() || b[e] != b[i],
        b[i] != 255,
        (e - i) * 17 >= 100,
        0 <= k < 3,
        voiced(b[i], k),
    ensures
        exists|j: int|
            0 <= j < spec_rle(b, t0 as int).len() && #[trigger] spec_rle(b, t0 as int)[j] == (VoicedSlice {
                start_ms: (t0 + 17 * i) as u64,
                end_ms: (t0 + 17 * e) as u64,
                local_speaker: k as u8,
                overlap: !one_voice(b[i]),
            }),
{
    let t = t0 as int;
    let m = b[i];
    lemma_scan_in_run(b, t, i, e, e);
    let prev = rle_scan(b, t, e);
    assert(crate::segmenter::next_mask(b, e) != m);
    let added = run_slices(m, i, e, t);
    assert(rle_scan(b, t, e + 1).0 == prev.0 + added);
    lemma_scan_prefix(b, t, e + 1, b.len() as int + 1);
    lemma_overlap_is_more_than_one_voice(m);
    let start = t + i * 17;
    let end = t + e * 17;
    assert(0 <= i * 17 < e * 17 <= b.len() * 17) by (nonlinear_arith)
        requires
            0 <= i < e <= b.len(),
    ;
    let want = VoicedSlice {
        start_ms: (t0 + 17 * i) as u64,
        end_ms: (t0 + 17 * e) as u64,
        local_speaker: k as u8,
        overlap: !one_voice(m),
    };
    let s0 = slice_for(m, 0, start as u64, end as u64);
    let s1 = slice_for(m, 1, start as u64, end as u64);
    let s2 = slice_for(m, 2, start as u64, end as u64);
    assert(added == s0 + s1 + s2);
    let pos: int = if k == 0 {
        0
    } else if k == 1 {
        s0.len() as int
    } else {
        (s0.len() + s1.len()) as int
    };
    assert(added[pos] == want);
    let full = spec_rle(b, t);
    assert(full[prev.0.len() + pos] == want);
}

proof fn lemma_no_split(t: Seq<i64>, k: int)
    requires
        k <= t.len(),
        forall|i: int| 1 <= i < t.len() ==> ((#[trigger] t[i]) - t[i - 1]) * 80 <= 300,
    ensures
        split_scan(t, k) == (Seq::<(int, int)>::empty(), 0int),
    decreases k,
{
    if k > 1 {
        lemma_no_split(t, k - 1);
    }
}

/// A chunk whose tokens never lie more than 300 ms apart is one segment:
/// from the first token's frame to the end of the last one's (80 ms a
/// frame), holding the text of all its pieces; none when that text is
/// blank.
pub proof fn law_close_tokens_make_one_segment(bk: ParakeetBackend, ids: Seq<i64>, t: Seq<i64>, samples: int)
    requires
        ids.len() > 0,
        t.len() > 0,
        crate::parakeet::frames_ok(t),
        forall|i: int| 1 <= i < t.len() ==> ((#[trigger] t[i]) - t[i - 1]) * 80 <= 300,
    ensures
        trim(spec_stitch(bk.spec_pieces(ids))).len() > 0 ==> bk.spec_decode(ids, Some(t), samples) == seq![
            ((t[0] * 80) as u64, ((t.last() + 1) * 80) as u64, spec_stitch(bk.spec_pieces(ids))),
        ],
        trim(spec_stitch(bk.spec_pieces(ids))).len() == 0 ==> bk.spec_decode(ids, Some(t), samples).len() == 0,
{
    let pieces = bk.spec_pieces(ids);
    lemma_no_split(t, t.len() as int);
    assert(pieces.subrange(0, pieces.len() as int) =~= pieces);
    assert(t.subrange(0, t.len() as int) =~= t);
    assert(pieces.len() == ids.len());
    let one = run_segment(pieces, t);
    let segs = runs_segments(pieces, t, Seq::empty()) + seq![one];
    assert(runs_segments(pieces, t, Seq::empty()) == Seq::<(u64, u64, Seq<char>)>::empty());
    assert(segs =~= seq![one]);
    assert(bk.spec_decode(ids, Some(t), samples) == non_blank(segs));
    assert(seq![one].drop_last() =~= Seq::<(u64, u64, Seq<char>)>::empty());
    assert(non_blank(Seq::<(u64, u64, Seq<char>)>::empty()) == Seq::<(u64, u64, Seq<char>)>::empty());
    if trim(one.2).len() > 0 {
        assert(non_blank(seq![one]) =~= seq![one]);
    } else {
        assert(non_blank(seq![one]) =~= Seq::<(u64, u64, Seq<char>)>::empty());
    }
}

proof fn lemma_every_split(t: Seq<i64>, k: int)
    requires
        1 <= k <= t.len(),
        forall|i: int| 1 <= i < t.len() ==> ((#[trigger] t[i]) - t[i - 1]) * 80 > 300,
    ensures
        split_scan(t, k).1 == k - 1,
        split_scan(t, k).0.len() == k - 1,
        forall|j: int| 0 <= j < k - 1 ==> split_scan(t, k).0[j] == (j, j + 1),
    decreases k,
{
    if k > 1 {
        lemma_every_split(t, k - 1);
        let prev = split_scan(t, k - 1);
        assert(split_scan(t, k).0 == prev.0.push((k - 2, k - 1)));
    }
}

/// The segment of token `j` alone.
pub open spec fn token_segment(pieces: Seq<Seq<char>>, t: Seq<i64>, j: int) -> (u64, u64, Seq<char>) {
    ((t[j] * 80) as u64, ((t[j] + 1) * 80) as u64, spec_stitch(seq![pieces[j]]))
}

proof fn lemma_single_runs(pieces: Seq<Seq<char>>, t: Seq<i64>, runs: Seq<(int, int)>, m: int)
    requires
        0 <= m <= runs.len(),
        runs.len() < t.len(),
        t.len() == pieces.len(),
        forall|j: int| 0 <= j < runs.len() ==> runs[j] == (j, j + 1),
    ensures
        runs_segments(pieces, t, runs.take(m)) == Seq::new(m as nat, |j: int| token_segment(pieces, t, j)),
    decreases m,
{
    if m > 0 {
        lemma_single_runs(pieces, t, runs, m - 1);
        assert(runs.take(m).drop_last() =~= runs.take(m - 1));
        let r = runs.take(m).last();
        assert(r == (m - 1, m));
        assert(pieces.subrange(m - 1, m) =~= seq![pieces[m - 1]]);
        assert(run_segment(pieces.subrange(m - 1, m), t.subrange(m - 1, m)) == token_segment(pieces, t, m - 1));
        assert(runs_segments(pieces, t, runs.take(m)) =~= Seq::new(m as nat, |j: int| token_segment(pieces, t, j)));
    } else {
        assert(runs.take(0) =~= Seq::<(int, int)>::empty());
        assert(Seq::new(0, |j: int| token_segment(pieces, t, j)) =~= Seq::<(u64, u64, Seq<char>)>::empty());
    }
}

proof fn lemma_non_blank_keeps_all(segs: Seq<(u64, u64, Seq<char>)>)
    requires
        forall|j: int| 0 <= j < segs.len() ==> trim((#[trigger] segs[j]).2).len() > 0,
    ensures
        non_blank(segs) == segs,
    decreases segs.len(),
{
    if segs.len() > 0 {
        lemma_non_blank_keeps_all(segs.drop_last());
        assert(segs.drop_last() + seq![segs.last()] =~= segs);
    }
}

/// A chunk whose tokens all lie more than 300 ms apart gives one segment
/// per token, in order, each over its own token's frame, when no token's
/// text is blank.
pub proof fn law_distant_tokens_make_separate_segments(
    bk: ParakeetBackend,
    ids: Seq<i64>,
    t: Seq<i64>,
    samples: int,
)
    requires
        ids.len() > 0,
        t.len() == ids.len(),
        crate::parakeet::frames_ok(t),
        forall|i: int| 1 <= i < t.len() ==> ((#[trigger] t[i]) - t[i - 1]) * 80 > 300,
        forall|i: int| 0 <= i < ids.len() ==> trim(spec_stitch(seq![#[trigger] bk.spec_pieces(ids)[i]])).len() > 0,
    ensures
        bk.spec_decode(ids, Some(t), samples).len() == ids.len(),
        forall|i: int|
            0 <= i < ids.len() ==> #[trigger] bk.spec_decode(ids, Some(t), samples)[i] == (
                (t[i] * 80) as u64,
                ((t[i] + 1) * 80) as u64,
                spec_stitch(seq![bk.spec_pieces(ids)[i]]),
            ),
{
    let pieces = bk.spec_pieces(ids);
    let n = t.len() as int;
    lemma_every_split(t, n);
    let runs = split_scan(t, n).0;
    lemma_single_runs(pieces, t, runs, n - 1);
    assert(runs.take(n - 1) =~= runs);
    assert(pieces.subrange(n - 1, n) =~= seq![pieces[n - 1]]);
    let all = Seq::new(n as nat, |j: int| token_segment(pieces, t, j));
    let before = runs_segments(pieces, t, runs) + seq![
        run_segment(pieces.subrange(n - 1, n), t.subrange(n - 1, n)),
    ];
    assert(before =~= all);
    assert forall|j: int| 0 <= j < all.len() implies trim((#[trigger] all[j]).2).len() > 0 by {
        assert(all[j] == token_segment(pieces, t, j));
    }
    lemma_non_blank_keeps_all(all);
}

} // verus!
