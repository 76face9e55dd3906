use myownllm::moonshine::{
    check_file_plausible, chunk_duration_ms, chunk_long_enough, ArtifactCheck, GreedyDecode,
    MoonshineBackend, EOS_TOKEN, MAX_DECODE_STEPS, MIN_ENCODER_BYTES,
};

fn strings(a: &[&str]) -> Vec<String> {
    a.iter().map(|s| s.to_string()).collect()
}

#[test]
fn defaults_follow_the_published_export() {
    let b = MoonshineBackend::new("moonshine-small");
    assert_eq!(b.enc_input_name, "input_values");
    assert_eq!(b.dec_logits_name, "logits");
    assert!(b.past_kv_input_names.is_empty());
    assert_eq!(b.artifact_path("/m/moonshine-small", "encoder.onnx"), "/m/moonshine-small/encoder.onnx");
}

#[test]
fn graph_names_are_sniffed() {
    let mut b = MoonshineBackend::new("m");
    b.sniff_encoder_io(&strings(&["pcm"]), &strings(&["hidden", "extra"]));
    assert_eq!(b.enc_input_name, "pcm");
    assert_eq!(b.enc_output_name, "hidden");
    b.sniff_encoder_io(&[], &[]);
    assert_eq!(b.enc_input_name, "pcm");
    b.sniff_decoder_io(
        &strings(&[
            "Decoder_INPUT_IDS",
            "past_key_values.0.key",
            "Use_Cache_Branch",
            "ENCODER_HIDDEN_STATES",
            "past_key_values.0.value",
            "Past_key_values.1",
            "ignored",
        ]),
        &strings(&["present.0", "Final_LOGITS", "logits"]),
    );
    assert_eq!(b.dec_input_ids_name, "Decoder_INPUT_IDS");
    assert_eq!(b.past_kv_input_names, strings(&["past_key_values.0.key", "past_key_values.0.value"]));
    assert_eq!(b.use_cache_branch_name, Some("Use_Cache_Branch".to_string()));
    assert_eq!(b.dec_enc_hidden_name, "ENCODER_HIDDEN_STATES");
    assert_eq!(b.dec_logits_name, "Final_LOGITS");
}

#[test]
fn greedy_decode_stops_on_eos_or_the_limit() {
    let mut d = GreedyDecode::new();
    assert!(d.on_token(42));
    assert!(d.on_token(-5));
    assert!(d.on_token(1 << 33));
    assert!(!d.on_token(EOS_TOKEN));
    assert_eq!(d.tokens, vec![1, 42, -5, 1 << 33]);
    assert_eq!(d.token_ids(), vec![42, 0, 0]);
    let mut long = GreedyDecode::new();
    let mut steps = 0;
    while long.on_token(7) {
        steps += 1;
    }
    assert_eq!(steps + 1, MAX_DECODE_STEPS);
    assert_eq!(long.tokens.len(), MAX_DECODE_STEPS + 1);
    let mut c = GreedyDecode::new();
    c.cancel();
    assert!(c.done);
    assert!(c.token_ids().is_empty());
}

#[test]
fn artifacts_and_chunks() {
    assert_eq!(check_file_plausible(None, MIN_ENCODER_BYTES), ArtifactCheck::Missing);
    assert_eq!(
        check_file_plausible(Some(10), MIN_ENCODER_BYTES),
        ArtifactCheck::Truncated { size: 10, min_bytes: MIN_ENCODER_BYTES }
    );
    assert_eq!(check_file_plausible(Some(MIN_ENCODER_BYTES), MIN_ENCODER_BYTES), ArtifactCheck::Plausible);
    assert!(!chunk_long_enough(1599));
    assert!(chunk_long_enough(1600));
    assert_eq!(chunk_duration_ms(16_000), 1000);
    assert_eq!(chunk_duration_ms(24_015), 1500);
}
