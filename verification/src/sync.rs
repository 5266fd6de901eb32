//! Multi-source audio alignment: offsets between recordings, and the drift
//! map that samples the offset over a long take.
//!
//! The cross-correlation itself (a floating-point FFT) is done by the caller;
//! this module owns the integer decisions around it: how long the transform
//! is, how a correlation index maps to a lag, which windows of a recording
//! are aligned against which span of the other, and how the per-window
//! results compose into a drift map.
use vstd::prelude::*;

use crate::rational::reduced_ratio;
use crate::time::{lemma_compare_over_common, SampleRate, Seconds};

verus! {

broadcast use Seconds::lemma_from_raw;

/// Failure aligning two signals.
#[derive(Clone, Copy, Debug, PartialEq, Eq, Structural)]
pub enum SyncError {
    /// One of the signals to align was empty.
    EmptySignal,
    /// A length or offset is too large to represent in the sample-count integer.
    SignalTooLong,
    /// The cross-correlation has no positive peak.
    NoPeak,
    /// `reference` is not long enough to hold a single drift-map window.
    SignalShorterThanWindow,
    /// Every drift-map window's base-shifted span fell outside `target`.
    NoWindowInBounds,
    /// The underlying FFT failed.
    Fft,
}

/// How far `target` lags `reference`: positive means `target` starts later,
/// negative means it starts earlier.
#[derive(Clone, Copy, Debug, PartialEq, Eq, Structural)]
pub struct SyncOffset {
    samples: i64,
    rate: SampleRate,
}

impl SyncOffset {
    /// The offset in samples.
    pub closed spec fn spec_samples(self) -> i64 {
        self.samples
    }

    /// The signals' sample rate.
    pub closed spec fn spec_rate(self) -> SampleRate {
        self.rate
    }

    /// An offset of `samples` at `rate`.
    pub fn from_samples(samples: i64, rate: SampleRate) -> (o: SyncOffset)
        ensures
            o.samples() == samples,
            o.spec_rate() == rate,
    {
        SyncOffset { samples, rate }
    }

    /// The offset in samples (positive = `target` lags `reference`).
    #[verifier::when_used_as_spec(spec_samples)]
    pub fn samples(self) -> (s: i64)
        ensures
            s == self.spec_samples(),
    {
        self.samples
    }

    /// The offset as a duration at the signals' sample rate.
    pub fn seconds(self) -> (s: Seconds)
        requires
            self.spec_rate().wf(),
        ensures
            s == Seconds::from_raw(reduced_ratio(self.samples(), self.spec_rate().hertz() as i64)),
            s.wf(),
            s.denotes(self.samples() as int, self.spec_rate().hertz() as int),
    {
        Seconds::from_samples(self.samples, self.rate)
    }
}

/// The first of `p, 2p, 4p, ...` that is at least `n`.
pub open spec fn power_at_least(n: int, p: int) -> int
    decreases (if p < n {
        n - p
    } else {
        0
    }),
    when p >= 1
{
    if p >= n {
        p
    } else {
        power_at_least(n, 2 * p)
    }
}

/// The transform length for correlating signals of these lengths: the
/// smallest power of two at least `reference_len + target_len - 1`, if it
/// fits a `usize`.
pub open spec fn fft_length_for(reference_len: int, target_len: int) -> Option<int> {
    let n = reference_len + target_len - 1;
    let p = power_at_least(n, 1);
    if n <= usize::MAX && p <= usize::MAX {
        Some(p)
    } else {
        None
    }
}

proof fn lemma_power_at_least_grows(n: int, p: int)
    requires
        p >= 1,
    ensures
        power_at_least(n, p) >= p,
        power_at_least(n, p) >= n,
    decreases (if p < n {
        n - p
    } else {
        0
    }),
{
    if p < n {
        lemma_power_at_least_grows(n, 2 * p);
    }
}

/// The length the correlation is computed at: the signals zero-padded to at
/// least their combined length, rounded up to a power of two.
///
/// Errors with [`SyncError::EmptySignal`] if either signal is empty and with
/// [`SyncError::SignalTooLong`] if the length is not representable.
pub fn fft_length(reference_len: usize, target_len: usize) -> (r: Result<usize, SyncError>)
    ensures
        reference_len == 0 || target_len == 0 ==> r == Err::<usize, SyncError>(
            SyncError::EmptySignal,
        ),
        reference_len > 0 && target_len > 0 ==> match fft_length_for(
            reference_len as int,
            target_len as int,
        ) {
            Some(p) => r == Ok::<usize, SyncError>(p as usize),
            None => r == Err::<usize, SyncError>(SyncError::SignalTooLong),
        },
{
    if reference_len == 0 || target_len == 0 {
        return Err(SyncError::EmptySignal);
    }
    if reference_len > usize::MAX - (target_len - 1) {
        return Err(SyncError::SignalTooLong);
    }
    let n: usize = reference_len + (target_len - 1);
    let mut p: usize = 1;
    while p < n
        invariant
            reference_len > 0,
            target_len > 0,
            n == reference_len + target_len - 1,
            p >= 1,
            power_at_least(n as int, p as int) == power_at_least(n as int, 1),
        decreases usize::MAX - p,
    {
        if p > usize::MAX / 2 {
            proof {
                lemma_power_at_least_grows(n as int, 2 * p);
            }
            return Err(SyncError::SignalTooLong);
        }
        p = p * 2;
    }
    Ok(p)
}

/// Map a correlation-buffer index to a signed lag. Indices in the second half
/// represent negative lags that wrapped around the circular correlation.
pub fn lag_from_index(index: usize, fft_len: usize) -> (r: Result<i64, SyncError>)
    ensures
        index > i64::MAX || fft_len > i64::MAX ==> r == Err::<i64, SyncError>(
            SyncError::SignalTooLong,
        ),
        index <= i64::MAX && fft_len <= i64::MAX ==> r == Ok::<i64, SyncError>(
            if index <= fft_len / 2 {
                index as i64
            } else {
                (index - fft_len) as i64
            },
        ),
{
    if (index as u64) > 0x7fff_ffff_ffff_ffff {
        return Err(SyncError::SignalTooLong);
    }
    if (fft_len as u64) > 0x7fff_ffff_ffff_ffff {
        return Err(SyncError::SignalTooLong);
    }
    let index = index as i64;
    let len = fft_len as i64;
    Ok(
        if index <= len / 2 {
            index
        } else {
            index - len
        },
    )
}

/// How [`drift_plan`] divides a recording into windows: each spans `length`
/// samples and the next starts `hop` samples later. Both are non-zero.
#[derive(Clone, Copy, Debug, PartialEq, Eq, Structural)]
pub struct DriftWindow {
    length: usize,
    hop: usize,
}

impl DriftWindow {
    /// The window length in samples.
    pub closed spec fn spec_length(self) -> usize {
        self.length
    }

    /// The distance between window starts in samples.
    pub closed spec fn spec_hop(self) -> usize {
        self.hop
    }

    /// A non-empty window that advances.
    pub open spec fn wf(self) -> bool {
        self.length() > 0 && self.hop() > 0
    }

    /// A window of `length` samples advancing by `hop` samples; `None` if either
    /// is zero, since an empty window correlates nothing and a zero hop never
    /// advances.
    pub fn new(length: usize, hop: usize) -> (r: Option<DriftWindow>)
        ensures
            length == 0 || hop == 0 ==> r is None,
            length > 0 && hop > 0 ==> (r matches Some(w) && w.wf() && w.length() == length
                && w.hop() == hop),
    {
        if length == 0 || hop == 0 {
            None
        } else {
            Some(DriftWindow { length, hop })
        }
    }

    /// The window length in samples.
    #[verifier::when_used_as_spec(spec_length)]
    pub fn length(self) -> (l: usize)
        ensures
            l == self.spec_length(),
    {
        self.length
    }

    /// The distance between window starts in samples.
    #[verifier::when_used_as_spec(spec_hop)]
    pub fn hop(self) -> (h: usize)
        ensures
            h == self.spec_hop(),
    {
        self.hop
    }
}

/// The `length`-sample span of a signal of `len` samples starting at `start`,
/// if it lies wholly inside the signal.
pub open spec fn window_fits(len: int, start: int, length: int) -> bool {
    0 <= start && start + length <= len
}

/// Whether the `length`-sample span starting at `start` lies within a signal
/// of `len` samples (the span's end also fitting a `usize`).
pub fn window_at(len: usize, start: usize, length: usize) -> (b: bool)
    ensures
        b == window_fits(len as int, start as int, length as int),
{
    match start.checked_add(length) {
        Some(end) => end <= len,
        None => false,
    }
}

/// Where the target span for the reference window at `start` begins, shifted
/// by the coarse `base` offset, if it lies within a target of `len` samples.
pub open spec fn shifted_start(len: int, start: int, base: int, length: int) -> Option<int> {
    let shifted = start + base;
    if start <= i64::MAX && i64::MIN <= shifted <= i64::MAX && window_fits(len, shifted, length) {
        Some(shifted)
    } else {
        None
    }
}

/// Where the target span for the reference window at `start` begins, shifted
/// by `samples`, if that span lies within a target of `len` samples.
pub fn shifted_window(len: usize, start: usize, samples: i64, length: usize) -> (r: Option<usize>)
    ensures
        match shifted_start(len as int, start as int, samples as int, length as int) {
            Some(s) => r == Some(s as usize),
            None => r is None,
        },
{
    if (start as u64) > 0x7fff_ffff_ffff_ffff {
        return None;
    }
    let begin = start as i64;
    let shifted = match begin.checked_add(samples) {
        Some(s) => s,
        None => {
            return None;
        },
    };
    if shifted < 0 {
        return None;
    }
    if (shifted as u64) > (usize::MAX as u64) {
        return None;
    }
    let target_start = shifted as u64 as usize;
    if window_at(len, target_start, length) {
        Some(target_start)
    } else {
        None
    }
}

/// One reference window of a drift map: where it starts, and where its
/// base-shifted span starts in the target, if that span fits there.
#[derive(Clone, Copy, Debug, PartialEq, Eq, Structural)]
pub struct PlannedWindow {
    /// The window's first sample in the reference.
    pub start: usize,
    /// The shifted span's first sample in the target, if it fits.
    pub target_start: Option<usize>,
}

/// How many reference windows fit: starts `0, hop, 2 * hop, ...` while the
/// window lies within the reference.
pub open spec fn windows_fitting(reference_len: int, length: int, hop: int) -> int {
    if length > reference_len {
        0
    } else {
        (reference_len - length) / hop + 1
    }
}

/// The `k`-th reference window of a drift map.
pub open spec fn planned_window(
    reference_len: int,
    target_len: int,
    base: int,
    window: DriftWindow,
    k: int,
) -> PlannedWindow {
    let start = k * window.hop();
    PlannedWindow {
        start: start as usize,
        target_start: match shifted_start(target_len, start, base, window.length() as int) {
            Some(s) => Some(s as usize),
            None => None,
        },
    }
}

/// Which reference windows a drift map aligns, and against which target
/// spans: every window `k * hop` that fits in the reference, with its
/// base-shifted target span where that fits in the target.
///
/// Errors with [`SyncError::EmptySignal`] if either signal is empty,
/// [`SyncError::SignalShorterThanWindow`] if the reference holds no window,
/// and [`SyncError::NoWindowInBounds`] if no window's shifted span falls
/// within the target.
pub fn drift_plan(reference_len: usize, target_len: usize, base: SyncOffset, window: DriftWindow) -> (r:
    Result<Vec<PlannedWindow>, SyncError>)
    requires
        window.wf(),
    ensures
        reference_len == 0 || target_len == 0 ==> r == Err::<Vec<PlannedWindow>, SyncError>(
            SyncError::EmptySignal,
        ),
        reference_len > 0 && target_len > 0 && windows_fitting(
            reference_len as int,
            window.length() as int,
            window.hop() as int,
        ) == 0 ==> r == Err::<Vec<PlannedWindow>, SyncError>(SyncError::SignalShorterThanWindow),
        reference_len > 0 && target_len > 0 && windows_fitting(
            reference_len as int,
            window.length() as int,
            window.hop() as int,
        ) > 0 ==> {
            let count = windows_fitting(
                reference_len as int,
                window.length() as int,
                window.hop() as int,
            );
            if forall|k: int|
                0 <= k < count ==> (#[trigger] planned_window(
                    reference_len as int,
                    target_len as int,
                    base.samples() as int,
                    window,
                    k,
                )).target_start is None {
                r == Err::<Vec<PlannedWindow>, SyncError>(SyncError::NoWindowInBounds)
            } else {
                r matches Ok(plan) && plan@.len() == count && forall|k: int|
                    0 <= k < count ==> #[trigger] plan@[k] == planned_window(
                        reference_len as int,
                        target_len as int,
                        base.samples() as int,
                        window,
                        k,
                    )
            }
        },
{
    if reference_len == 0 || target_len == 0 {
        return Err(SyncError::EmptySignal);
    }
    let length = window.length;
    let hop = window.hop;
    let ghost count = windows_fitting(reference_len as int, length as int, hop as int);
    let mut plan: Vec<PlannedWindow> = Vec::new();
    let mut any_correlated = false;
    let mut start: usize = 0;
    let mut k: usize = 0;
    let mut done = false;
    proof {
        if length <= reference_len {
            vstd::arithmetic::div_mod::lemma_fundamental_div_mod(
                (reference_len - length) as int,
                hop as int,
            );
        }
    }
    while !done && window_at(reference_len, start, length)
        invariant
            window.wf(),
            length == window.length(),
            hop == window.hop(),
            !done ==> start == k * hop,
            count == windows_fitting(reference_len as int, length as int, hop as int),
            k <= count,
            !done ==> (k < count <==> window_fits(reference_len as int, start as int, length as int)),
            done ==> k == count,
            plan@.len() == k,
            forall|j: int|
                0 <= j < k ==> #[trigger] plan@[j] == planned_window(
                    reference_len as int,
                    target_len as int,
                    base.samples() as int,
                    window,
                    j,
                ),
            any_correlated == exists|j: int|
                0 <= j < k && (#[trigger] planned_window(
                    reference_len as int,
                    target_len as int,
                    base.samples() as int,
                    window,
                    j,
                )).target_start is Some,
            length <= reference_len ==> reference_len - length == hop * ((reference_len - length)
                / hop as int) + (reference_len - length) % (hop as int),
        decreases count - k,
    {
        let target_start = shifted_window(target_len, start, base.samples, length);
        let planned = PlannedWindow { start, target_start };
        proof {
            assert(planned == planned_window(
                reference_len as int,
                target_len as int,
                base.samples() as int,
                window,
                k as int,
            ));
        }
        plan.push(planned);
        if target_start.is_some() {
            any_correlated = true;
        }
        proof {
            assert((k + 1) * hop == k * hop + hop) by (nonlinear_arith);
            assert(window_fits(reference_len as int, ((k + 1) * hop) as int, length as int) <==> k
                + 1 < count) by (nonlinear_arith)
                requires
                    count == (reference_len - length) / (hop as int) + 1,
                    reference_len - length == hop * ((reference_len - length) / hop as int) + (
                    reference_len - length) % (hop as int),
                    0 <= (reference_len - length) % (hop as int) < hop,
                    hop > 0,
                    k * hop + length <= reference_len,
                    k < count,
            ;
        }
        match start.checked_add(hop) {
            Some(next) => {
                start = next;
            },
            None => {
                done = true;
            },
        }
        k = k + 1;
    }
    if k == 0 {
        return Err(SyncError::SignalShorterThanWindow);
    }
    if !any_correlated {
        return Err(SyncError::NoWindowInBounds);
    }
    Ok(plan)
}

/// What aligning one window gave: the residual lag, no correlation peak (dead
/// air, skipped), or a failure that stops the map.
#[derive(Clone, Copy, Debug, PartialEq, Eq, Structural)]
pub enum WindowOutcome {
    /// The window aligned with this residual lag, in samples.
    Residual(i64),
    /// The window has no correlatable content.
    NoPeak,
    /// Aligning the window failed.
    Failed(SyncError),
}

/// The alignment measured in one window: the offset, and the window's start
/// time in the reference.
#[derive(Clone, Copy, Debug, PartialEq, Eq, Structural)]
pub struct DriftPoint {
    at: Seconds,
    offset: SyncOffset,
}

impl DriftPoint {
    /// When the window starts, in the reference's timebase.
    pub closed spec fn spec_at(self) -> Seconds {
        self.at
    }

    /// How far `target` lags `reference` over this window.
    pub closed spec fn spec_offset(self) -> SyncOffset {
        self.offset
    }

    /// When the window starts, in the reference's timebase.
    #[verifier::when_used_as_spec(spec_at)]
    pub fn at(self) -> (a: Seconds)
        ensures
            a == self.spec_at(),
    {
        self.at
    }

    /// How far `target` lags `reference` over this window.
    #[verifier::when_used_as_spec(spec_offset)]
    pub fn offset(self) -> (o: SyncOffset)
        ensures
            o == self.spec_offset(),
    {
        self.offset
    }
}

/// The offset between two sources sampled over a recording, one point per
/// aligned window in ascending time order.
#[derive(Clone, Debug, PartialEq, Eq)]
pub struct DriftMap {
    points: Vec<DriftPoint>,
}

impl DriftMap {
    /// The measured points.
    pub closed spec fn point_seq(&self) -> Seq<DriftPoint> {
        self.points@
    }

    /// The measured points, one per aligned window, in ascending time order.
    pub fn points(&self) -> (p: &[DriftPoint])
        ensures
            p@ == self.point_seq(),
    {
        self.points.as_slice()
    }
}

/// The points `(start time, total offset in samples)` of the first `i`
/// window outcomes, or the error that stops the map.
pub open spec fn drift_points_upto(
    outcomes: Seq<(usize, WindowOutcome)>,
    base: int,
    rate: SampleRate,
    i: nat,
) -> Result<Seq<(Seconds, int)>, SyncError>
    decreases i,
{
    if i == 0 || i > outcomes.len() {
        Ok(Seq::empty())
    } else {
        match drift_points_upto(outcomes, base, rate, (i - 1) as nat) {
            Err(e) => Err(e),
            Ok(points) => {
                let (start, outcome) = outcomes[i - 1];
                match outcome {
                    WindowOutcome::Failed(e) => Err(e),
                    WindowOutcome::NoPeak => Ok(points),
                    WindowOutcome::Residual(residual) => {
                        let total = base + residual;
                        if !(i64::MIN <= total <= i64::MAX) || start > i64::MAX {
                            Err(SyncError::SignalTooLong)
                        } else {
                            Ok(
                                points.push(
                                    (
                                        Seconds::from_raw(
                                            reduced_ratio(start as i64, rate.hertz() as i64),
                                        ),
                                        total,
                                    ),
                                ),
                            )
                        }
                    },
                }
            },
        }
    }
}

proof fn lemma_points_error_sticks(
    outcomes: Seq<(usize, WindowOutcome)>,
    base: int,
    rate: SampleRate,
    i: nat,
    j: nat,
)
    requires
        i <= j <= outcomes.len(),
        drift_points_upto(outcomes, base, rate, i) is Err,
    ensures
        drift_points_upto(outcomes, base, rate, j) == drift_points_upto(outcomes, base, rate, i),
    decreases j - i,
{
    if i < j {
        lemma_points_error_sticks(outcomes, base, rate, i, (j - 1) as nat);
    }
}

/// Compose a drift map from each aligned window's start in the reference and
/// what aligning it gave, in order: a residual becomes a point whose offset is
/// `base` plus the residual, dead air is skipped, and a failure stops the map.
///
/// Errors with the first failure, [`SyncError::SignalTooLong`] if a composed
/// offset or window start is unrepresentable, and [`SyncError::NoPeak`] if no
/// window produced a point. The points' times ascend with the window starts.
pub fn compose_drift_map(outcomes: &[(usize, WindowOutcome)], base: SyncOffset, rate: SampleRate) -> (r:
    Result<DriftMap, SyncError>)
    requires
        rate.wf(),
        forall|a: int, b: int|
            0 <= a < b < outcomes@.len() ==> (#[trigger] outcomes@[a]).0 < (#[trigger] outcomes@[b]).0,
    ensures
        match drift_points_upto(outcomes@, base.samples() as int, rate, outcomes@.len()) {
            Err(e) => r == Err::<DriftMap, SyncError>(e),
            Ok(points) => if points.len() == 0 {
                r == Err::<DriftMap, SyncError>(SyncError::NoPeak)
            } else {
                r matches Ok(map) && map.point_seq().len() == points.len() && forall|k: int|
                    0 <= k < points.len() ==> (#[trigger] map.point_seq()[k]).at() == points[k].0
                        && map.point_seq()[k].offset().samples() == points[k].1
                        && map.point_seq()[k].offset().spec_rate() == rate
            },
        },
        r matches Ok(map) ==> forall|k: int|
            0 <= k < map.point_seq().len() - 1 ==> (#[trigger] map.point_seq()[k]).at().spec_before(
                map.point_seq()[k + 1].at(),
            ),
{
    let n = outcomes.len();
    let mut points: Vec<DriftPoint> = Vec::new();
    let mut last_start: usize = 0;
    let mut i: usize = 0;
    while i < n
        invariant
            rate.wf(),
            n == outcomes@.len(),
            forall|a: int, b: int|
                0 <= a < b < outcomes@.len() ==> (#[trigger] outcomes@[a]).0 < (
                #[trigger] outcomes@[b]).0,
            i <= n,
            drift_points_upto(outcomes@, base.samples() as int, rate, i as nat) matches Ok(ps)
                && ps.len() == points@.len() && forall|k: int|
                0 <= k < ps.len() ==> (#[trigger] points@[k]).at() == ps[k].0
                    && points@[k].offset().samples() == ps[k].1 && points@[k].offset().spec_rate()
                    == rate,
            forall|k: int| 0 <= k < points@.len() ==> (#[trigger] points@[k]).at().wf(),
            forall|k: int|
                0 <= k < points@.len() - 1 ==> (#[trigger] points@[k]).at().spec_before(
                    points@[k + 1].at(),
                ),
            points@.len() > 0 ==> points@.last().at().denotes(last_start as int, rate.hertz() as int)
                && exists|a: int| 0 <= a < i && outcomes@[a].0 == last_start,
        decreases n - i,
    {
        let (start, outcome) = (outcomes[i].0, &outcomes[i].1);
        match outcome {
            WindowOutcome::Failed(e) => {
                proof {
                    lemma_points_error_sticks(
                        outcomes@,
                        base.samples() as int,
                        rate,
                        (i + 1) as nat,
                        n as nat,
                    );
                }
                return Err(*e);
            },
            WindowOutcome::NoPeak => {},
            WindowOutcome::Residual(residual) => {
                let total = match base.samples.checked_add(*residual) {
                    Some(t) => t,
                    None => {
                        proof {
                            lemma_points_error_sticks(
                                outcomes@,
                                base.samples() as int,
                                rate,
                                (i + 1) as nat,
                                n as nat,
                            );
                        }
                        return Err(SyncError::SignalTooLong);
                    },
                };
                if (start as u64) > 0x7fff_ffff_ffff_ffff {
                    proof {
                        lemma_points_error_sticks(
                            outcomes@,
                            base.samples() as int,
                            rate,
                            (i + 1) as nat,
                            n as nat,
                        );
                    }
                    return Err(SyncError::SignalTooLong);
                }
                let at = Seconds::from_samples(start as i64, rate);
                proof {
                    if points@.len() > 0 {
                        let a = choose|a: int| 0 <= a < i && outcomes@[a].0 == last_start;
                        assert(outcomes@[a].0 < outcomes@[i as int].0);
                        let prev = points@.last().at();
                        lemma_compare_over_common(
                            prev.numer() as int,
                            prev.denom() as int,
                            at.numer() as int,
                            at.denom() as int,
                            last_start as int,
                            start as int,
                            rate.hertz() as int,
                        );
                    }
                }
                let ghost before = points@;
                points.push(DriftPoint { at, offset: SyncOffset::from_samples(total, rate) });
                last_start = start;
                proof {
                    assert forall|k: int| 0 <= k < points@.len() - 1 implies (
                    #[trigger] points@[k]).at().spec_before(points@[k + 1].at()) by {
                        if k < points@.len() - 2 {
                            assert(points@[k] == before[k]);
                            assert(points@[k + 1] == before[k + 1]);
                        }
                    }
                }
            },
        }
        i = i + 1;
    }
    if points.len() == 0 {
        return Err(SyncError::NoPeak);
    }
    Ok(DriftMap { points })
}

/// Whether a planned window is aligned: its shifted span fits the target.
pub open spec fn is_measured(window: PlannedWindow) -> bool {
    window.target_start is Some
}

/// The planned windows that are aligned, in plan order.
pub open spec fn measured_windows(plan: Seq<PlannedWindow>) -> Seq<PlannedWindow> {
    plan.filter(|w: PlannedWindow| is_measured(w))
}

/// Pair each aligned window of `plan` (those whose shifted span fits the
/// target, in order) with what aligning it gave, `results[k]` for the
/// `k`-th: the window's start in the reference and the outcome. `None` when
/// `results` does not hold exactly one outcome per aligned window.
pub fn pair_outcomes(plan: &[PlannedWindow], results: &[WindowOutcome]) -> (r: Option<
    Vec<(usize, WindowOutcome)>,
>)
    ensures
        r is Some <==> results@.len() == measured_windows(plan@).len(),
        r matches Some(pairs) ==> pairs@.len() == results@.len() && forall|k: int|
            0 <= k < results@.len() ==> #[trigger] pairs@[k] == (
                measured_windows(plan@)[k].start,
                results@[k],
            ),
{
    let n = plan.len();
    let mut starts: Vec<usize> = Vec::new();
    let mut i: usize = 0;
    let ghost keep = |w: PlannedWindow| is_measured(w);
    assert(plan@.take(0).filter(keep) =~= Seq::<PlannedWindow>::empty());
    while i < n
        invariant
            n == plan@.len(),
            i <= n,
            keep == (|w: PlannedWindow| is_measured(w)),
            starts@.len() == plan@.take(i as int).filter(keep).len(),
            forall|k: int|
                0 <= k < starts@.len() ==> #[trigger] starts@[k] == plan@.take(i as int).filter(
                    keep,
                )[k].start,
        decreases n - i,
    {
        let w = plan[i];
        proof {
            assert(plan@.take(i + 1) =~= plan@.take(i as int).push(w));
            plan@.take(i as int).lemma_filter_push(w, keep);
        }
        if w.target_start.is_some() {
            starts.push(w.start);
        }
        i = i + 1;
    }
    assert(plan@.take(n as int) =~= plan@);
    if starts.len() != results.len() {
        return None;
    }
    let mut pairs: Vec<(usize, WindowOutcome)> = Vec::new();
    let mut k: usize = 0;
    while k < starts.len()
        invariant
            starts@.len() == results@.len(),
            starts@.len() == measured_windows(plan@).len(),
            forall|m: int|
                0 <= m < starts@.len() ==> #[trigger] starts@[m] == measured_windows(plan@)[m].start,
            k <= starts@.len(),
            pairs@.len() == k,
            forall|m: int|
                0 <= m < k ==> #[trigger] pairs@[m] == (measured_windows(plan@)[m].start, results@[m]),
        decreases starts@.len() - k,
    {
        pairs.push((starts[k], results[k]));
        k = k + 1;
    }
    Some(pairs)
}

/// `point` is the one a window among the first `i` outcomes gave: one whose
/// alignment gave a residual, the point's time being the window's start and
/// its offset `base` plus the residual.
pub open spec fn from_residual(
    outcomes: Seq<(usize, WindowOutcome)>,
    base: int,
    rate: SampleRate,
    i: int,
    point: (Seconds, int),
) -> bool {
    exists|j: int|
        0 <= j < i && #[trigger] outcomes[j].1 is Residual && point == (
            Seconds::from_raw(reduced_ratio(outcomes[j].0 as i64, rate.hertz() as i64)),
            base + outcomes[j].1->Residual_0,
        )
}

/// Every point of the first `i` outcomes comes from a window whose
/// alignment gave a residual.
pub proof fn lemma_drift_points_come_from_residuals(
    outcomes: Seq<(usize, WindowOutcome)>,
    base: int,
    rate: SampleRate,
    i: nat,
)
    requires
        i <= outcomes.len(),
    ensures
        drift_points_upto(outcomes, base, rate, i) matches Ok(points) ==> forall|k: int|
            0 <= k < points.len() ==> #[trigger] from_residual(outcomes, base, rate, i as int, points[k]),
    decreases i,
{
    if i > 0 {
        lemma_drift_points_come_from_residuals(outcomes, base, rate, (i - 1) as nat);
        if let Ok(points) = drift_points_upto(outcomes, base, rate, i) {
            let prev = drift_points_upto(outcomes, base, rate, (i - 1) as nat)->Ok_0;
            assert forall|k: int| 0 <= k < points.len() implies #[trigger] from_residual(
                outcomes,
                base,
                rate,
                i as int,
                points[k],
            ) by {
                if k < prev.len() {
                    assert(points[k] == prev[k]);
                    assert(from_residual(outcomes, base, rate, i - 1, prev[k]));
                    let j = choose|j: int|
                        0 <= j < i - 1 && #[trigger] outcomes[j].1 is Residual && prev[k] == (
                            Seconds::from_raw(
                                reduced_ratio(outcomes[j].0 as i64, rate.hertz() as i64),
                            ),
                            base + outcomes[j].1->Residual_0,
                        );
                    assert(outcomes[j].1 is Residual);
                } else {
                    assert(outcomes[i - 1].1 is Residual);
                }
            }
        }
    }
}

/// `point` is the one a planned window gave: a window of `plan` whose
/// shifted span fits the target, the point's time being its start and its
/// offset `base` plus a residual among `results`.
pub open spec fn from_planned_window(
    plan: Seq<PlannedWindow>,
    results: Seq<WindowOutcome>,
    base: int,
    rate: SampleRate,
    point: (Seconds, int),
) -> bool {
    exists|w: PlannedWindow, residual: i64|
        #![trigger plan.contains(w), results.contains(WindowOutcome::Residual(residual))]
        plan.contains(w) && w.target_start is Some && results.contains(
            WindowOutcome::Residual(residual),
        ) && point == (
            Seconds::from_raw(reduced_ratio(w.start as i64, rate.hertz() as i64)),
            base + residual,
        )
}

/// A drift map composed from a plan's aligned windows holds only points of
/// planned windows whose shifted span fits the target: each point's time is
/// such a window's start, and its offset is `base` plus the residual measured
/// over it.
pub proof fn lemma_drift_points_are_planned_windows(
    plan: Seq<PlannedWindow>,
    results: Seq<WindowOutcome>,
    outcomes: Seq<(usize, WindowOutcome)>,
    base: int,
    rate: SampleRate,
)
    requires
        results.len() == measured_windows(plan).len(),
        outcomes.len() == results.len(),
        forall|k: int|
            0 <= k < results.len() ==> #[trigger] outcomes[k] == (
                measured_windows(plan)[k].start,
                results[k],
            ),
    ensures
        drift_points_upto(outcomes, base, rate, outcomes.len()) matches Ok(points) ==> forall|k: int|
            0 <= k < points.len() ==> #[trigger] from_planned_window(plan, results, base, rate, points[k]),
{
    lemma_drift_points_come_from_residuals(outcomes, base, rate, outcomes.len());
    let keep = |w: PlannedWindow| is_measured(w);
    if let Ok(points) = drift_points_upto(outcomes, base, rate, outcomes.len()) {
        assert forall|k: int| 0 <= k < points.len() implies #[trigger] from_planned_window(
            plan,
            results,
            base,
            rate,
            points[k],
        ) by {
            assert(from_residual(outcomes, base, rate, outcomes.len() as int, points[k]));
            let j = choose|j: int|
                0 <= j < outcomes.len() && #[trigger] outcomes[j].1 is Residual && points[k] == (
                    Seconds::from_raw(reduced_ratio(outcomes[j].0 as i64, rate.hertz() as i64)),
                    base + outcomes[j].1->Residual_0,
                );
            assert(outcomes[j] == (measured_windows(plan)[j].start, results[j]));
            let w = measured_windows(plan)[j];
            plan.lemma_filter_pred(keep, j);
            plan.lemma_filter_contains_rev(keep, w);
            assert(measured_windows(plan)[j] == w);
            assert(plan.filter(keep).contains(w));
            let residual = results[j]->Residual_0;
            assert(results[j] == WindowOutcome::Residual(residual));
            assert(results.contains(WindowOutcome::Residual(residual)));
            assert(plan.contains(w));
        }
    }
}

} // verus!
