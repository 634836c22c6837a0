use breeze_asr::vad::{VadConfig, VadError, VadOutput, VadProcessor, CHUNK_SIZE, PROBABILITY_ONE};

const SPEECH: u32 = 900_000;
const QUIET: u32 = 100_000;

fn chunk(v: i16) -> [i16; CHUNK_SIZE] {
    [v; CHUNK_SIZE]
}

fn segment_of(r: Option<VadOutput>) -> Option<Vec<i16>> {
    match r {
        Some(VadOutput::Segment(s)) => Some(s),
        _ => None,
    }
}

#[test]
fn zero_sample_rate_is_refused() {
    let config = VadConfig { sample_rate: 0, ..VadConfig::default() };
    assert!(matches!(VadProcessor::new(config), Err(VadError::ConfigurationError)));
}

#[test]
fn zero_durations_are_refused() {
    let d = VadConfig::default();
    for config in [
        VadConfig { silence_duration_ms: 0, ..d },
        VadConfig { max_speech_duration_ms: 0, ..d },
        VadConfig { rollback_duration_ms: 0, ..d },
        VadConfig { min_speech_duration_ms: 0, ..d },
    ] {
        assert!(matches!(VadProcessor::new(config), Err(VadError::ConfigurationError)));
    }
    assert!(VadProcessor::new(VadConfig { notify_silence_after_ms: Some(0), ..d }).is_ok());
}

#[test]
fn batch_feeding_matches_scenario() {
    // Ten quiet chunks, eight speech chunks, then sixteen quiet ones: one
    // segment of the 3200-sample rollback and the speech, at the last call.
    let mut chunks = Vec::new();
    let mut probs = Vec::new();
    for i in 0..10 {
        chunks.push(chunk(100 + i));
        probs.push(QUIET);
    }
    for i in 0..8 {
        chunks.push(chunk(1 + i));
        probs.push(SPEECH);
    }
    for i in 0..16 {
        chunks.push(chunk(-1 - i));
        probs.push(QUIET);
    }
    let mut p = VadProcessor::new(VadConfig::default()).unwrap();
    let outs = p.process_chunks(&chunks[..33], &probs[..33]);
    assert!(outs.is_empty());
    let outs = p.process_chunks(&chunks[33..], &probs[33..]);
    assert_eq!(outs.len(), 1);
    let seg = segment_of(outs.into_iter().next()).unwrap();
    assert_eq!(seg.len(), 3200 + 8 * CHUNK_SIZE);
    assert_eq!(seg[0], 103);
    assert_eq!(seg[3200], 1);
}

#[test]
fn default_config_values() {
    let c = VadConfig::default();
    assert_eq!(c.sample_rate, 16000);
    assert_eq!(c.speech_threshold, PROBABILITY_ONE / 2);
    assert_eq!(c.silence_duration_ms, 500);
    assert_eq!(c.rollback_duration_ms, 200);
    assert_eq!(c.min_speech_duration_ms, 250);
}

#[test]
fn silence_only_gives_nothing() {
    let mut p = VadProcessor::new(VadConfig::default()).unwrap();
    for i in 0..200 {
        assert!(p.process_chunk(&chunk(i), QUIET).is_none());
    }
    assert!(p.finish().is_none());
}

#[test]
fn short_utterance_is_discarded() {
    // One speech chunk, then twenty quiet ones: the segment closes at the
    // sixteenth quiet chunk and lasts 32 ms, under the 250 ms minimum.
    let mut p = VadProcessor::new(VadConfig::default()).unwrap();
    assert!(p.process_chunk(&chunk(1), SPEECH).is_none());
    for i in 0..20 {
        assert!(p.process_chunk(&chunk(2 + i), QUIET).is_none());
    }
    assert!(p.finish().is_none());
}

#[test]
fn utterance_with_rollback_is_emitted_once() {
    let mut p = VadProcessor::new(VadConfig::default()).unwrap();
    for i in 0..10 {
        assert!(p.process_chunk(&chunk(100 + i), QUIET).is_none());
    }
    for i in 0..8 {
        assert!(p.process_chunk(&chunk(1 + i), SPEECH).is_none());
    }
    let mut outputs = Vec::new();
    for i in 0..20 {
        if let Some(s) = segment_of(p.process_chunk(&chunk(-1 - i), QUIET)) {
            outputs.push((i, s));
        }
    }
    assert_eq!(outputs.len(), 1);
    let (at, seg) = &outputs[0];
    assert_eq!(*at, 15);
    // 200 ms of rollback at 16 kHz is 3200 samples, then eight speech chunks.
    assert_eq!(seg.len(), 3200 + 8 * CHUNK_SIZE);
    assert_eq!(seg[0], 103);
    assert_eq!(seg[3200], 1);
    assert_eq!(seg[seg.len() - 1], 8);
}

#[test]
fn long_speech_is_closed_untrimmed() {
    let config = VadConfig { max_speech_duration_ms: 320, ..VadConfig::default() };
    let mut p = VadProcessor::new(config).unwrap();
    assert!(p.process_chunk(&chunk(1), SPEECH).is_none());
    for i in 0..9 {
        assert!(p.process_chunk(&chunk(2 + i), SPEECH).is_none());
    }
    // The tenth chunk after the first reaches 320 ms.
    let seg = segment_of(p.process_chunk(&chunk(11), SPEECH)).unwrap();
    assert_eq!(seg.len(), 11 * CHUNK_SIZE);
}

#[test]
fn finish_applies_minimum_duration() {
    let mut p = VadProcessor::new(VadConfig::default()).unwrap();
    for i in 0..8 {
        p.process_chunk(&chunk(i), SPEECH);
    }
    let seg = segment_of(p.finish()).unwrap();
    assert_eq!(seg.len(), 8 * CHUNK_SIZE);
    assert!(p.finish().is_none());

    let mut q = VadProcessor::new(VadConfig::default()).unwrap();
    for i in 0..7 {
        q.process_chunk(&chunk(i), SPEECH);
    }
    // 3584 samples are 224 ms.
    assert!(q.finish().is_none());
}

#[test]
fn silence_notification_comes_once() {
    let config = VadConfig { notify_silence_after_ms: Some(100), ..VadConfig::default() };
    let mut p = VadProcessor::new(config).unwrap();
    let mut notices = Vec::new();
    for i in 0..10 {
        if let Some(VadOutput::SilenceNotification) = p.process_chunk(&chunk(0), QUIET) {
            notices.push(i);
        }
    }
    // Four chunks last 128 ms, the first count to reach 100 ms.
    assert_eq!(notices, vec![3]);
    p.set_notify_silence_after_ms(None);
    assert!(p.process_chunk(&chunk(0), QUIET).is_none());
    p.set_notify_silence_after_ms(Some(100));
    assert!(matches!(p.process_chunk(&chunk(0), QUIET), Some(VadOutput::SilenceNotification)));
}

#[test]
fn threshold_is_strict() {
    let mut p = VadProcessor::new(VadConfig::default()).unwrap();
    for _ in 0..40 {
        assert!(p.process_chunk(&chunk(5), PROBABILITY_ONE / 2).is_none());
    }
    assert!(p.finish().is_none());
}
