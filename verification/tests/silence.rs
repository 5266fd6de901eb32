use hollywood::detect::{keep_regions, window_samples, DetectError, SilenceGate};
use hollywood::time::{SampleRate, Seconds, TimeRange};

const RATE_HZ: u32 = 8_000;

fn rate() -> SampleRate {
    SampleRate::new(RATE_HZ).unwrap()
}

fn seconds(numerator: i64, denominator: i64) -> Seconds {
    Seconds::new(numerator, denominator).unwrap()
}

/// Whether a dBFS threshold converts to a finite, positive amplitude.
fn threshold_usable(decibels: f32) -> bool {
    let linear = linear(decibels);
    linear.is_finite() && linear > 0.0
}

fn linear(decibels: f32) -> f64 {
    10f64.powf(f64::from(decibels) / 20.0)
}

/// `window` of 50 ms, `-20 dBFS` threshold (linear 0.1), `padding` 100 ms.
fn gate() -> SilenceGate {
    SilenceGate::new(seconds(1, 20), threshold_usable(-20.0), seconds(1, 10)).unwrap()
}

/// Each analysis window's activity: RMS level at or above `threshold`.
fn activity(samples: &[f32], window: usize, threshold: f64) -> Result<Vec<bool>, DetectError> {
    samples
        .chunks(window)
        .map(|chunk| {
            let sum: f64 = chunk.iter().map(|&s| f64::from(s) * f64::from(s)).sum();
            let rms = (sum / chunk.len() as f64).sqrt();
            if rms.is_finite() {
                Ok(rms >= threshold)
            } else {
                Err(DetectError::NonFiniteSample)
            }
        })
        .collect()
}

/// The keep regions of `samples` under `gate` at a -20 dBFS threshold.
fn detect(samples: &[f32], gate: &SilenceGate) -> Result<Vec<TimeRange>, DetectError> {
    let window = window_samples(gate, rate())?;
    let active = activity(samples, window, linear(-20.0))?;
    keep_regions(&active, samples.len(), rate(), gate)
}

/// `seconds` of constant amplitude `level` at `RATE_HZ`.
fn block(level: f32, seconds: i64) -> Vec<f32> {
    vec![level; usize::try_from(seconds * i64::from(RATE_HZ)).unwrap()]
}

/// `count` samples of silence.
fn silence(count: usize) -> Vec<f32> {
    vec![0.0; count]
}

#[test]
fn silence_then_tone_then_silence_is_one_padded_region() {
    // 1 s silence, 1 s at 0.5 (RMS 0.5 > 0.1), 1 s silence.
    let mut samples = block(0.0, 1);
    samples.extend(block(0.5, 1));
    samples.extend(block(0.0, 1));

    let regions = detect(&samples, &gate()).unwrap();

    // Active run [1 s, 2 s] padded by 100 ms -> [0.9 s, 2.1 s].
    assert_eq!(regions.len(), 1);
    assert_eq!(regions[0].start(), seconds(9, 10));
    assert_eq!(regions[0].end(), seconds(21, 10));
}

#[test]
fn all_silence_is_no_regions() {
    let samples = block(0.0, 3);
    assert!(detect(&samples, &gate()).unwrap().is_empty());
}

#[test]
fn empty_input_is_no_regions() {
    assert!(detect(&[], &gate()).unwrap().is_empty());
}

#[test]
fn all_active_is_one_region_clamped_to_the_signal() {
    let samples = block(0.5, 2);
    let regions = detect(&samples, &gate()).unwrap();
    // Padding cannot extend past the signal: [0 s, 2 s].
    assert_eq!(regions.len(), 1);
    assert_eq!(regions[0].start(), Seconds::zero());
    assert_eq!(regions[0].end(), Seconds::from_secs(2));
}

#[test]
fn alternating_signal_is_detected_active() {
    // RMS of +/-0.5 is 0.5 (> 0.1). Whole signal active -> one region [0 s, 1 s].
    let samples: Vec<f32> = (0..usize::try_from(RATE_HZ).unwrap())
        .map(|index| if index % 2 == 0 { 0.5 } else { -0.5 })
        .collect();
    let regions = detect(&samples, &gate()).unwrap();
    assert_eq!(regions.len(), 1);
    assert_eq!(regions[0].start(), Seconds::zero());
    assert_eq!(regions[0].end(), Seconds::from_secs(1));
}

#[test]
fn short_gap_within_padding_is_bridged() {
    // tone, 0.1 s silence (< 2x padding = 0.2 s), tone -> one merged region.
    let mut samples = block(0.5, 1);
    samples.extend(silence(usize::try_from(RATE_HZ / 10).unwrap()));
    samples.extend(block(0.5, 1));

    let regions = detect(&samples, &gate()).unwrap();
    // Both ends clamp: [0 s, 2.1 s] (total = 2.1 s).
    assert_eq!(regions.len(), 1);
    assert_eq!(regions[0].start(), Seconds::zero());
    assert_eq!(regions[0].end(), seconds(21, 10));
}

#[test]
fn gap_equal_to_twice_padding_is_bridged() {
    // 0.2 s gap == 2x padding: padded boundaries touch exactly -> merge.
    let mut samples = block(0.5, 1);
    samples.extend(silence(usize::try_from(RATE_HZ / 5).unwrap()));
    samples.extend(block(0.5, 1));

    let regions = detect(&samples, &gate()).unwrap();
    // total = 2.2 s; merged and clamped -> [0 s, 2.2 s].
    assert_eq!(regions.len(), 1);
    assert_eq!(regions[0].start(), Seconds::zero());
    assert_eq!(regions[0].end(), seconds(11, 5));
}

#[test]
fn long_gap_beyond_padding_stays_cut() {
    // 1 s silence (> 2x padding) -> two regions with exact boundaries.
    let mut samples = block(0.5, 1);
    samples.extend(block(0.0, 1));
    samples.extend(block(0.5, 1));

    let regions = detect(&samples, &gate()).unwrap();
    assert_eq!(regions.len(), 2);
    // [0 s, 1.1 s] and [1.9 s, 3 s].
    assert_eq!(regions[0].start(), Seconds::zero());
    assert_eq!(regions[0].end(), seconds(11, 10));
    assert_eq!(regions[1].start(), seconds(19, 10));
    assert_eq!(regions[1].end(), Seconds::from_secs(3));
}

#[test]
fn partial_final_window_is_captured() {
    // 1 s tone (whole windows) + 200 active samples (a partial final chunk).
    let mut samples = block(0.5, 1);
    samples.extend(vec![0.5_f32; 200]);

    let regions = detect(&samples, &gate()).unwrap();
    // Run reaches the true end; padded end clamps to total = 8200/8000 s.
    assert_eq!(regions.len(), 1);
    assert_eq!(regions[0].start(), Seconds::zero());
    assert_eq!(regions[0].end(), seconds(41, 40));
}

#[test]
fn window_below_one_sample_is_invalid() {
    // 1/100000 s at 8000 Hz is 0.08 samples -> rounds to 0.
    let tiny = SilenceGate::new(seconds(1, 100_000), threshold_usable(-20.0), seconds(1, 10)).unwrap();
    assert!(matches!(window_samples(&tiny, rate()), Err(DetectError::InvalidWindow)));
    // Whatever activity is supplied, the window decides first.
    assert!(matches!(keep_regions(&[true], 8_000, rate(), &tiny), Err(DetectError::InvalidWindow)));
}

#[test]
fn non_finite_samples_are_rejected() {
    let mut samples = block(0.5, 1);
    samples[0] = f32::NAN;
    assert!(matches!(detect(&samples, &gate()), Err(DetectError::NonFiniteSample)));
}

#[test]
fn gate_rejects_degenerate_threshold() {
    let window = seconds(1, 20);
    let padding = Seconds::zero();
    // -inf dBFS underflows to linear 0 (would label silence active).
    assert!(matches!(
        SilenceGate::new(window, threshold_usable(f32::NEG_INFINITY), padding),
        Err(DetectError::InvalidThreshold)
    ));
    // A huge positive dBFS overflows to infinite linear.
    assert!(matches!(
        SilenceGate::new(window, threshold_usable(10_000.0), padding),
        Err(DetectError::InvalidThreshold)
    ));
}

#[test]
fn gate_rejects_non_positive_window() {
    assert!(matches!(
        SilenceGate::new(Seconds::zero(), threshold_usable(-40.0), Seconds::zero()),
        Err(DetectError::NonPositiveWindow)
    ));
}

#[test]
fn gate_rejects_negative_padding() {
    assert!(matches!(
        SilenceGate::new(seconds(1, 20), threshold_usable(-40.0), seconds(-1, 10)),
        Err(DetectError::NegativePadding)
    ));
}

#[test]
fn gate_exposes_its_configuration() {
    let configured = gate();
    assert_eq!(configured.window(), seconds(1, 20));
    assert_eq!(configured.padding(), seconds(1, 10));
}

#[test]
fn window_samples_round_to_the_nearest_sample() {
    // 50 ms at 8 kHz is exactly 400 samples.
    assert_eq!(window_samples(&gate(), rate()), Ok(400));
    let odd = SilenceGate::new(seconds(1, 3), true, Seconds::zero()).unwrap();
    // 1/3 s at 8 kHz is 2666.67 samples.
    assert_eq!(window_samples(&odd, rate()), Ok(2667));
}

#[test]
fn regions_come_out_ascending_and_apart() {
    // Three bursts far apart: every region ends before the next begins.
    let active = [true, false, false, false, false, false, true, false, false, false, false, false, true];
    let regions = keep_regions(&active, 13 * 400, rate(), &gate()).unwrap();
    assert_eq!(regions.len(), 3);
    for pair in regions.windows(2) {
        assert!(pair[0].end().before(pair[1].start()));
    }
    for region in &regions {
        assert!(!region.duration().is_zero());
        assert!(region.end().at_or_before(Seconds::from_samples(13 * 400, rate())));
    }
}
