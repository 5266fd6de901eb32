use hollywood::sync::{
    compose_drift_map, drift_plan, fft_length, pair_outcomes, lag_from_index, shifted_window, window_at, DriftMap, DriftWindow,
    PlannedWindow, SyncError, SyncOffset, WindowOutcome,
};
use hollywood::time::{SampleRate, Seconds};

const RATE_HZ: u32 = 48_000;

fn rate() -> SampleRate {
    SampleRate::new(RATE_HZ).unwrap()
}

fn window() -> DriftWindow {
    DriftWindow::new(2_000, 2_000).unwrap()
}

fn base(samples: i64) -> SyncOffset {
    SyncOffset::from_samples(samples, rate())
}

fn offsets(map: &DriftMap) -> Vec<i64> {
    map.points().iter().map(|p| p.offset().samples()).collect()
}

/// The plan's aligned windows paired with the outcome each one's alignment gave.
fn outcomes(plan: &[PlannedWindow], results: &[WindowOutcome]) -> Vec<(usize, WindowOutcome)> {
    pair_outcomes(plan, results).unwrap()
}

#[test]
fn degenerate_windows_are_unrepresentable() {
    assert!(DriftWindow::new(0, 2_000).is_none());
    assert!(DriftWindow::new(2_000, 0).is_none());
}

#[test]
fn drift_window_keeps_its_length_and_hop() {
    let w = DriftWindow::new(2_000, 500).unwrap();
    assert_eq!((w.length(), w.hop()), (2_000, 500));
}

#[test]
fn signal_shorter_than_the_window_is_an_error() {
    assert!(matches!(drift_plan(1_000, 1_000, base(20), window()), Err(SyncError::SignalShorterThanWindow)));
}

#[test]
fn empty_signal_is_an_error() {
    assert!(matches!(drift_plan(0, 4_000, base(0), window()), Err(SyncError::EmptySignal)));
}

#[test]
fn a_base_beyond_the_target_has_no_window_in_bounds() {
    assert!(matches!(drift_plan(8_000, 5_000, base(100_000), window()), Err(SyncError::NoWindowInBounds)));
}

#[test]
fn a_target_shorter_than_the_window_has_no_window_in_bounds() {
    assert!(matches!(drift_plan(4_000, 1_000, base(0), window()), Err(SyncError::NoWindowInBounds)));
}

#[test]
fn plan_lists_every_window_with_its_shifted_span() {
    let plan = drift_plan(8_000, 8_100, base(100), window()).unwrap();
    let starts: Vec<usize> = plan.iter().map(|w| w.start).collect();
    assert_eq!(starts, vec![0, 2_000, 4_000, 6_000]);
    let shifted: Vec<Option<usize>> = plan.iter().map(|w| w.target_start).collect();
    assert_eq!(shifted, vec![Some(100), Some(2_100), Some(4_100), Some(6_100)]);
}

#[test]
fn a_negative_base_leaves_early_windows_out_of_bounds() {
    let plan = drift_plan(8_000, 8_000, base(-4_000), window()).unwrap();
    let shifted: Vec<Option<usize>> = plan.iter().map(|w| w.target_start).collect();
    assert_eq!(shifted, vec![None, None, Some(0), Some(2_000)]);
}

#[test]
fn constant_offset_is_measured_in_every_window() {
    let plan = drift_plan(8_000, 8_100, base(100), window()).unwrap();
    let results = vec![WindowOutcome::Residual(0); 4];
    let map = compose_drift_map(&outcomes(&plan, &results), base(100), rate()).unwrap();
    assert_eq!(offsets(&map), vec![100, 100, 100, 100]);
}

#[test]
fn growing_lag_shows_up_as_drift() {
    let plan = drift_plan(8_000, 8_100, base(50), window()).unwrap();
    let results: Vec<WindowOutcome> = [0, 10, 20, 30].iter().map(|&r| WindowOutcome::Residual(r)).collect();
    let map = compose_drift_map(&outcomes(&plan, &results), base(50), rate()).unwrap();
    assert_eq!(offsets(&map), vec![50, 60, 70, 80]);
}

#[test]
fn shrinking_lag_shows_up_as_drift() {
    let plan = drift_plan(8_000, 8_100, base(80), window()).unwrap();
    let results: Vec<WindowOutcome> = [0, -10, -20, -30].iter().map(|&r| WindowOutcome::Residual(r)).collect();
    let map = compose_drift_map(&outcomes(&plan, &results), base(80), rate()).unwrap();
    assert_eq!(offsets(&map), vec![80, 70, 60, 50]);
}

#[test]
fn a_short_window_handles_a_large_base_offset() {
    let plan = drift_plan(8_000, 13_000, base(5_000), window()).unwrap();
    assert!(plan.iter().all(|w| w.target_start.is_some()));
    let results: Vec<WindowOutcome> = [0, 10, 20, 30].iter().map(|&r| WindowOutcome::Residual(r)).collect();
    let map = compose_drift_map(&outcomes(&plan, &results), base(5_000), rate()).unwrap();
    assert_eq!(offsets(&map), vec![5_000, 5_010, 5_020, 5_030]);
}

#[test]
fn a_negative_base_offset_is_measured() {
    let plan = drift_plan(8_000, 8_000, base(-4_000), window()).unwrap();
    // The windows at 4000 and 6000 are in bounds; only the first holds a feature.
    let results = vec![WindowOutcome::Residual(0), WindowOutcome::NoPeak];
    let map = compose_drift_map(&outcomes(&plan, &results), base(-4_000), rate()).unwrap();
    assert_eq!(offsets(&map), vec![-4_000]);
}

#[test]
fn points_carry_ascending_window_start_times() {
    let plan = drift_plan(6_000, 6_100, base(100), window()).unwrap();
    let results = vec![WindowOutcome::Residual(0); 3];
    let map = compose_drift_map(&outcomes(&plan, &results), base(100), rate()).unwrap();
    let times: Vec<Seconds> = map.points().iter().map(|p| p.at()).collect();
    assert_eq!(
        times,
        vec![Seconds::zero(), Seconds::from_samples(2_000, rate()), Seconds::from_samples(4_000, rate())]
    );
}

#[test]
fn overlapping_windows_advance_by_the_hop() {
    let overlapping = DriftWindow::new(2_000, 1_000).unwrap();
    let plan = drift_plan(4_000, 4_100, base(20), overlapping).unwrap();
    let results = vec![WindowOutcome::Residual(0); 3];
    let map = compose_drift_map(&outcomes(&plan, &results), base(20), rate()).unwrap();
    let starts: Vec<Seconds> = map.points().iter().map(|p| p.at()).collect();
    assert_eq!(
        starts,
        vec![Seconds::zero(), Seconds::from_samples(1_000, rate()), Seconds::from_samples(2_000, rate())]
    );
    assert_eq!(offsets(&map), vec![20, 20, 20]);
}

#[test]
fn a_silent_window_is_skipped_not_fatal() {
    let plan = drift_plan(6_000, 6_000, base(50), window()).unwrap();
    // The window at 4000 shifts past the target's end, so two are aligned.
    let results = vec![WindowOutcome::NoPeak, WindowOutcome::Residual(0)];
    let map = compose_drift_map(&outcomes(&plan, &results), base(50), rate()).unwrap();
    assert_eq!(map.points().len(), 1);
    assert_eq!(map.points()[0].at(), Seconds::from_samples(2_000, rate()));
    assert_eq!(offsets(&map), vec![50]);
}

#[test]
fn all_silent_windows_yield_no_peak() {
    let plan = drift_plan(4_000, 4_000, base(0), window()).unwrap();
    let results = vec![WindowOutcome::NoPeak; 2];
    assert!(matches!(compose_drift_map(&outcomes(&plan, &results), base(0), rate()), Err(SyncError::NoPeak)));
}

#[test]
fn a_failing_window_stops_the_map() {
    let entries = vec![(0, WindowOutcome::Residual(1)), (2_000, WindowOutcome::Failed(SyncError::Fft))];
    assert_eq!(compose_drift_map(&entries, base(0), rate()), Err(SyncError::Fft));
}

#[test]
fn an_unrepresentable_total_offset_is_too_long() {
    let entries = vec![(0, WindowOutcome::Residual(1))];
    assert_eq!(compose_drift_map(&entries, base(i64::MAX), rate()), Err(SyncError::SignalTooLong));
}

#[test]
fn empty_reference_is_an_error() {
    assert_eq!(fft_length(0, 1_000), Err(SyncError::EmptySignal));
}

#[test]
fn empty_target_is_an_error() {
    assert_eq!(fft_length(1_000, 0), Err(SyncError::EmptySignal));
}

#[test]
fn fft_length_is_the_next_power_of_two() {
    // 1000 + 1000 - 1 = 1999 -> 2048.
    assert_eq!(fft_length(1_000, 1_000), Ok(2_048));
    assert_eq!(fft_length(1, 1), Ok(1));
    assert_eq!(fft_length(3, 2), Ok(4));
    assert_eq!(fft_length(usize::MAX, 2), Err(SyncError::SignalTooLong));
}

#[test]
fn lags_past_the_midpoint_wrap_negative() {
    assert_eq!(lag_from_index(30, 2_048), Ok(30));
    assert_eq!(lag_from_index(1_024, 2_048), Ok(1_024));
    assert_eq!(lag_from_index(2_018, 2_048), Ok(-30));
    assert_eq!(lag_from_index(usize::MAX, 2_048), Err(SyncError::SignalTooLong));
}

#[test]
fn offsets_convert_to_exact_seconds() {
    let offset = SyncOffset::from_samples(30, rate());
    assert_eq!(offset.samples(), 30);
    assert_eq!(offset.seconds(), Seconds::from_samples(30, rate()));
    assert_eq!(SyncOffset::from_samples(-24_000, rate()).seconds(), Seconds::new(-1, 2).unwrap());
}

#[test]
fn windows_must_lie_inside_the_signal() {
    assert!(window_at(4_000, 2_000, 2_000));
    assert!(!window_at(4_000, 2_001, 2_000));
    assert!(!window_at(4_000, usize::MAX, 2));
    assert_eq!(shifted_window(4_000, 0, 100, 2_000), Some(100));
    assert_eq!(shifted_window(4_000, 0, -1, 2_000), None);
    assert_eq!(shifted_window(4_000, 2_000, 100, 2_000), None);
}

#[test]
fn outcomes_pair_with_the_aligned_windows_only() {
    let plan = drift_plan(8_000, 8_000, base(-4_000), window()).unwrap();
    let results = vec![WindowOutcome::Residual(3), WindowOutcome::NoPeak];
    assert_eq!(
        pair_outcomes(&plan, &results),
        Some(vec![(4_000, WindowOutcome::Residual(3)), (6_000, WindowOutcome::NoPeak)])
    );
    assert_eq!(pair_outcomes(&plan, &results[..1]), None);
    assert_eq!(pair_outcomes(&plan, &[WindowOutcome::NoPeak; 4]), None);
}
