use sort_visualizer::sound::{
    frame_sample_count, should_render, subsample, AMP_PERCENT, BASE_FREQ_HZ, FRAME_MILLIS, MAX_QUEUED_FRAMES,
    MAX_TONES_PER_FRAME, OCTAVES, SAMPLE_RATE,
};

type Tone = (f32, f32);

fn base_freq() -> f32 {
    BASE_FREQ_HZ as f32
}

fn octaves() -> f32 {
    OCTAVES as f32
}

fn frame_secs() -> f32 {
    FRAME_MILLIS as f32 / 1000.0
}

#[test]
fn frequency_mapping_is_monotonic_and_sane() {
    let f_lo = base_freq() * (1.0f32 + 0.0).powf(octaves());
    let f_hi = base_freq() * (1.0f32 + 1.0).powf(octaves());
    assert!((200.0..400.0).contains(&f_lo), "low pitch {f_lo} out of range");
    assert!((1700.0..=1800.0).contains(&f_hi), "high pitch {f_hi} out of range");
    // Higher values always map to strictly higher pitches.
    for i in 0..99 {
        let a = i as f32 / 99.0;
        let b = (i as f32 + 1.0) / 99.0;
        let fa = base_freq() * (1.0 + a).powf(octaves());
        let fb = base_freq() * (1.0 + b).powf(octaves());
        assert!(fa < fb, "pitch not monotonic at {i}: {fa} !< {fb}");
    }
}

#[test]
fn frame_sample_count_matches_duration() {
    let n = frame_sample_count();
    // 0.06 s * 48000 Hz = 2880 samples.
    assert_eq!(n, 2880);
    assert_eq!((frame_secs() * SAMPLE_RATE as f32) as usize, n);
}

#[test]
fn envelope_decays_smoothly() {
    let n = frame_sample_count();
    let tau = frame_secs() / 2.5;
    let amp = AMP_PERCENT as f32 / 100.0;
    let decay = (-1.0 / (SAMPLE_RATE as f32 * tau)).exp();
    assert!(decay < 1.0, "decay must shrink each sample");
    let mut env = amp;
    let mut peak = 0.0f32;
    for _ in 0..n {
        peak = peak.max(env.abs());
        env *= decay;
    }
    assert!(peak <= amp);
    // By the end of the frame the envelope has fallen to ~8% of its start.
    assert!((env / amp).abs() < 0.15, "tail too loud: {}", env / amp);
    // Decay is smooth: no adjacent sample jumps by more than 1/1000.
    let step = 1.0 - decay;
    assert!(step < 0.001, "decay per sample too harsh: {step}");
}

#[test]
fn subsampling_preserves_endpoints() {
    for len in [17usize, 100, 200, 1000] {
        let tones: Vec<Tone> = (0..len)
            .map(|i| (i as f32 / (len - 1) as f32, 0.5))
            .collect();
        let sampled: Vec<Tone> = subsample(&tones);
        assert_eq!(sampled.len(), MAX_TONES_PER_FRAME);
        assert_eq!(sampled[0], tones[0], "first tone must be kept");
        assert_eq!(
            sampled[MAX_TONES_PER_FRAME - 1],
            tones[len - 1],
            "last tone must be kept (len={len})"
        );
        // Subsample is monotonically increasing in pitch and in-bounds.
        assert!(sampled.windows(2).all(|w| w[0].0 < w[1].0));
    }
}

#[test]
fn short_tone_lists_are_kept_whole() {
    let tones: Vec<u32> = (0..16).collect();
    assert_eq!(subsample(&tones), tones);
    let empty: Vec<u32> = Vec::new();
    assert!(subsample(&empty).is_empty());
}

#[test]
fn subsample_indices_exact() {
    let tones: Vec<usize> = (0..31).collect();
    // (i * 30) / 15 = 2 * i
    let expected: Vec<usize> = (0..16).map(|i| 2 * i).collect();
    assert_eq!(subsample(&tones), expected);
}

#[test]
fn render_decision() {
    assert!(should_render(false, 3, 0));
    assert!(!should_render(true, 3, 0));
    assert!(!should_render(false, 0, 0));
    assert!(!should_render(false, 3, MAX_QUEUED_FRAMES));
    assert!(should_render(false, 1, MAX_QUEUED_FRAMES - 1));
}
