use myownllm::segmenter::{class_bits, rle_to_slices, slices_of_classes, window_long_enough, Segmenter};

#[test]
fn rle_empty_input_returns_empty() {
    let out = rle_to_slices(&[], 0);
    assert!(out.is_empty());
}

#[test]
fn rle_silence_produces_no_slices() {
    let frames = vec![0u8; 100];
    let out = rle_to_slices(&frames, 0);
    assert!(out.is_empty());
}

#[test]
fn rle_continuous_voice_emits_one_slice() {
    let frames = vec![0b001u8; 100]; // 100 frames × 17 ms = 1700 ms
    let out = rle_to_slices(&frames, 1000);
    assert_eq!(out.len(), 1);
    assert_eq!(out[0].local_speaker, 0);
    assert_eq!(out[0].start_ms, 1000);
    assert_eq!(out[0].end_ms, 1000 + 100 * 17);
    assert!(!out[0].overlap);
}

#[test]
fn rle_overlap_emits_one_slice_per_speaker_with_overlap_flag() {
    let frames = vec![0b011u8; 100]; // A + B simultaneously
    let out = rle_to_slices(&frames, 0);
    assert_eq!(out.len(), 2);
    assert!(out.iter().all(|s| s.overlap));
    assert!(out.iter().any(|s| s.local_speaker == 0));
    assert!(out.iter().any(|s| s.local_speaker == 1));
}

#[test]
fn rle_drops_slices_below_min_duration() {
    let frames = vec![0b001u8; 5];
    let out = rle_to_slices(&frames, 0);
    assert!(out.is_empty());
}

#[test]
fn rle_splits_runs_and_keeps_exact_boundaries() {
    // 6 frames of A (102 ms), 2 of silence, 6 of C.
    let mut frames = vec![1u8; 6];
    frames.extend(vec![0u8; 2]);
    frames.extend(vec![4u8; 6]);
    let out = rle_to_slices(&frames, 10);
    assert_eq!(out.len(), 2);
    assert_eq!((out[0].start_ms, out[0].end_ms, out[0].local_speaker), (10, 112, 0));
    assert_eq!((out[1].start_ms, out[1].end_ms, out[1].local_speaker), (146, 248, 2));
    // A trailing run of the end-of-input marker value is never closed.
    assert!(rle_to_slices(&vec![255u8; 10], 0).is_empty());
}

#[test]
fn powerset_classes_become_speaker_masks() {
    let bits: Vec<u8> = (0..7).map(class_bits).collect();
    assert_eq!(bits, vec![0b000, 0b001, 0b010, 0b100, 0b011, 0b101, 0b110]);
    // Ten frames of A then ten of A+B: both runs last 170 ms.
    let mut classes = vec![1u8; 10];
    classes.extend(vec![4u8; 10]);
    let slices = slices_of_classes(&classes, 1000);
    assert_eq!(slices.len(), 3);
    assert_eq!((slices[0].start_ms, slices[0].end_ms, slices[0].local_speaker, slices[0].overlap), (1000, 1170, 0, false));
    assert_eq!((slices[1].start_ms, slices[1].end_ms, slices[1].local_speaker, slices[1].overlap), (1170, 1340, 0, true));
    assert_eq!((slices[2].start_ms, slices[2].end_ms, slices[2].local_speaker, slices[2].overlap), (1170, 1340, 1, true));
    assert!(!window_long_enough(1599));
    assert!(window_long_enough(1600));
}

#[test]
fn segmenter_binds_graph_names_that_fit() {
    let mut s = Segmenter::new("pyannote-seg-3.0");
    assert_eq!(s.input_name, "waveform");
    assert_eq!(s.output_name, "logits");
    assert_eq!(s.model_path("/m/pyannote"), "/m/pyannote/segmentation.onnx");
    let inputs = vec!["mask".to_string(), "Audio_Signal".to_string(), "input".to_string()];
    let outputs = vec!["hidden".to_string(), "SCORES".to_string()];
    s.sniff_io(&inputs, &outputs);
    assert_eq!(s.input_name, "Audio_Signal");
    assert_eq!(s.output_name, "SCORES");
    let mut t = Segmenter::new("x");
    t.sniff_io(&["mask".to_string()], &[]);
    assert_eq!(t.input_name, "waveform");
    assert_eq!(t.output_name, "logits");
}
