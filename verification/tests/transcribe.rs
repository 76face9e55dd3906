use myownllm::transcribe::{
    chunk_file_name, count_pending_chunks, drain_next_seq, is_false, join_segments, lowest_pending_seq,
    admit_drain, admit_live, admit_upload, pause, pending_streams, resume, retain_spoken, sanitize_stream_id, stop, AsrSegment, ChunkLoop, ChunkOutcome,
    BufferMeta, ChunkStep, EmittedSegment, Sessions, SpeakerTurn,
};

fn names(a: &[&str]) -> Vec<String> {
    a.iter().map(|s| s.to_string()).collect()
}

#[test]
fn stream_ids_become_safe_directory_names() {
    assert_eq!(sanitize_stream_id("mic-1_A"), "mic-1_A");
    assert_eq!(sanitize_stream_id("../etc/passwd"), "___etc_passwd");
    assert_eq!(sanitize_stream_id("ünï cödé"), "_n__c_d_");
    let once = sanitize_stream_id("a b/c");
    assert_eq!(sanitize_stream_id(&once), once);
}

#[test]
fn sessions_start_once_and_keep_flags_apart() {
    let mut s = Sessions::new();
    assert!(s.start("a"));
    assert!(!s.start("a"));
    assert!(s.start("b"));
    pause(&mut s, "a");
    stop(&mut s, "b");
    assert_eq!(s.flags("a"), Some((false, true)));
    assert_eq!(s.flags("b"), Some((true, false)));
    resume(&mut s, "a");
    assert_eq!(s.flags("a"), Some((false, false)));
    stop(&mut s, "missing");
    assert_eq!(s.flags("missing"), None);
    s.remove("a");
    assert!(!s.contains("a"));
    assert!(s.contains("b"));
    assert_eq!(s.flags("b"), Some((true, false)));
    assert!(s.start("a"));
    assert_eq!(s.flags("a"), Some((false, false)));
}

#[test]
fn chunk_files_are_zero_padded() {
    assert_eq!(chunk_file_name(0), "0000000000.f32");
    assert_eq!(chunk_file_name(42), "0000000042.f32");
    assert_eq!(chunk_file_name(12345678901), "12345678901.f32");
}

#[test]
fn pending_chunks_are_found_by_name() {
    let ns = names(&["0000000007.f32", "0000000003.f32", "meta.json", "x.f32", ".f32", "0000000005.wav", "+2.f32"]);
    assert_eq!(lowest_pending_seq(&ns), Some(2));
    assert_eq!(count_pending_chunks(&ns), 4);
    assert_eq!(lowest_pending_seq(&names(&["meta.json"])), None);
    assert_eq!(count_pending_chunks(&[]), 0);
}

#[test]
fn drain_skips_to_the_lowest_pending_chunk() {
    assert_eq!(drain_next_seq(3, Some(7)), Some(7));
    assert_eq!(drain_next_seq(3, Some(2)), Some(4));
    assert_eq!(drain_next_seq(3, None), None);
}

#[test]
fn chunk_loop_counts_and_resets() {
    let mut l = ChunkLoop::new(5, 2);
    let keep = |t0| ChunkStep { stop: false, reset_state: false, chunk_t0_ms: t0 };
    assert_eq!(l.step(ChunkOutcome::ReadFailed), keep(0));
    assert_eq!((l.next_seq, l.chunk_t0_ms), (6, 0));
    assert_eq!(l.step(ChunkOutcome::Silent { chunk_ms: 1000 }), keep(0));
    assert_eq!(l.step(ChunkOutcome::Transcribed { chunk_ms: 1000, used_state: true }), keep(1000));
    assert_eq!(l.chunks_since_reset, 1);
    assert_eq!(
        l.step(ChunkOutcome::Transcribed { chunk_ms: 500, used_state: true }),
        ChunkStep { stop: false, reset_state: true, chunk_t0_ms: 2000 }
    );
    assert_eq!(l, ChunkLoop { next_seq: 9, chunk_t0_ms: 2500, chunks_since_reset: 0, state_reset_chunks: 2 });
    assert_eq!(l.step(ChunkOutcome::AsrFailed { chunk_ms: 100, cancelled: false }), keep(2500));
    let before = l;
    assert_eq!(
        l.step(ChunkOutcome::AsrFailed { chunk_ms: 100, cancelled: true }),
        ChunkStep { stop: true, reset_state: false, chunk_t0_ms: 2600 }
    );
    assert_eq!(l, before);
    let mut never = ChunkLoop::new(0, 0);
    never.step(ChunkOutcome::Transcribed { chunk_ms: 1, used_state: true });
    assert_eq!(never.chunks_since_reset, 0);
}

#[test]
fn segments_take_the_most_overlapping_speaker() {
    let segs = vec![
        AsrSegment { start_ms: 0, end_ms: 1000, text: "hello".to_string() },
        AsrSegment { start_ms: 5000, end_ms: 6000, text: "alone".to_string() },
    ];
    let turns = vec![
        SpeakerTurn { start_ms: 10_000, end_ms: 10_300, speaker: 1, overlap: false },
        SpeakerTurn { start_ms: 10_300, end_ms: 11_000, speaker: 2, overlap: true },
    ];
    let out = join_segments(&segs, &turns, 10_000);
    assert_eq!(out.len(), 2);
    assert_eq!((out[0].start_ms, out[0].end_ms), (10_000, 11_000));
    assert_eq!(out[0].speaker, Some(2));
    assert!(out[0].overlap);
    assert_eq!(out[0].text, "hello");
    assert_eq!(out[1].speaker, None);
    assert!(!out[1].overlap && !out[1].provisional);
    let tie = vec![
        SpeakerTurn { start_ms: 0, end_ms: 500, speaker: 7, overlap: false },
        SpeakerTurn { start_ms: 500, end_ms: 1000, speaker: 8, overlap: false },
    ];
    assert_eq!(join_segments(&segs[..1], &tie, 0)[0].speaker, Some(7));
    // Listed later but starting earlier: the earlier start still wins a tie.
    let tie_reversed = vec![
        SpeakerTurn { start_ms: 500, end_ms: 1000, speaker: 8, overlap: true },
        SpeakerTurn { start_ms: 0, end_ms: 500, speaker: 7, overlap: false },
    ];
    let out = join_segments(&segs[..1], &tie_reversed, 0);
    assert_eq!(out[0].speaker, Some(7));
    assert!(!out[0].overlap);
}

#[test]
fn blank_segments_are_dropped() {
    let e = |t: &str| EmittedSegment {
        start_ms: 0,
        end_ms: 1,
        text: t.to_string(),
        speaker: None,
        overlap: false,
        provisional: false,
    };
    let kept = retain_spoken(vec![e("a"), e("  "), e(""), e(" b\n")]);
    let texts: Vec<&str> = kept.iter().map(|s| s.text.as_str()).collect();
    assert_eq!(texts, vec!["a", " b\n"]);
    assert!(is_false(&false));
    assert!(!is_false(&true));
}

#[test]
fn pending_streams_skip_empty_and_live_buffers() {
    let mut sessions = Sessions::new();
    assert!(sessions.start("live"));
    let meta = BufferMeta {
        runtime: "moonshine".to_string(),
        model: "moonshine-small".to_string(),
        diarize_model: Some("pyannote".to_string()),
    };
    let dirs = vec![
        ("empty".to_string(), 0u32, None),
        ("old".to_string(), 3u32, Some(meta)),
        ("live".to_string(), 5u32, None),
        ("bare".to_string(), 1u32, None),
    ];
    let out = pending_streams(&dirs, &sessions);
    assert_eq!(out.len(), 2);
    assert_eq!(out[0].stream_id, "old");
    assert_eq!(out[0].pending_chunks, 3);
    assert_eq!(out[0].runtime.as_deref(), Some("moonshine"));
    assert_eq!(out[0].model.as_deref(), Some("moonshine-small"));
    assert_eq!(out[0].diarize_model.as_deref(), Some("pyannote"));
    assert_eq!(out[1].stream_id, "bare");
    assert_eq!(out[1].pending_chunks, 1);
    assert_eq!(out[1].runtime, None);
    assert_eq!(out[1].model, None);
    assert_eq!(out[1].diarize_model, None);
}

#[test]
fn live_sessions_are_admitted_once_with_models_installed() {
    let mut sessions = Sessions::new();
    assert_eq!(
        admit_live(&mut sessions, "s1", "moonshine", "moonshine-small", false, None),
        Err("ASR model 'moonshine-small' (moonshine) isn't installed yet \u{2014} pull it first from Settings \u{2192} Transcription.".to_string())
    );
    assert!(!sessions.contains("s1"));
    assert_eq!(
        admit_live(&mut sessions, "s1", "moonshine", "moonshine-small", true, Some(("pyannote", false))),
        Err("diarize model 'pyannote' isn't installed yet \u{2014} toggle off diarization or pull it first.".to_string())
    );
    assert_eq!(admit_live(&mut sessions, "s1", "moonshine", "moonshine-small", true, Some(("pyannote", true))), Ok(()));
    assert!(sessions.contains("s1"));
    assert_eq!(
        admit_live(&mut sessions, "s1", "moonshine", "moonshine-small", true, None),
        Err("transcription s1 is already running".to_string())
    );
}

#[test]
fn drains_and_uploads_check_model_then_file() {
    let mut sessions = Sessions::new();
    assert_eq!(
        admit_drain(&mut sessions, "d1", "parakeet-tdt", false),
        Err("ASR model 'parakeet-tdt' isn't installed \u{2014} install it from Settings \u{2192} Models.".to_string())
    );
    assert_eq!(admit_drain(&mut sessions, "d1", "parakeet-tdt", true), Ok(()));
    assert_eq!(
        admit_upload(&mut sessions, "d1", "parakeet-tdt", true, "/tmp/a.wav", true),
        Err("transcription d1 is already running".to_string())
    );
    assert_eq!(
        admit_upload(&mut sessions, "u1", "parakeet-tdt", true, "/tmp/a.wav", false),
        Err("audio file not found: /tmp/a.wav".to_string())
    );
    assert!(!sessions.contains("u1"));
    assert_eq!(admit_upload(&mut sessions, "u1", "parakeet-tdt", true, "/tmp/a.wav", true), Ok(()));
    assert!(sessions.contains("u1"));
}
