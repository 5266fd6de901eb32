//! Silence gating into padded keep regions.
//!
//! The signal is split into fixed analysis windows, each labelled active
//! (speech) or silent (dead air) by its RMS level against a threshold; that
//! floating-point labelling is done by the caller. Runs of active windows
//! become regions, each padded so speech onsets and tails are not clipped.
//! Padding also bridges short pauses: two regions merge when the gap between
//! them is at most twice the padding. The regions come out ascending, apart,
//! non-empty and within the signal.
use vstd::prelude::*;

use crate::error::TimelineError;
use crate::rational::{reduced_ratio, round_half_away};
use crate::rational::checked_ratio_sum;
use crate::time::{
    lemma_compare_over_common, lemma_cross_trans, lemma_difference_at_most,
    lemma_difference_then_sum, lemma_sum_at_least, SampleRate, Seconds, TimeRange,
};
use crate::track::zero_seconds;

verus! {

broadcast use Seconds::lemma_from_raw;

/// Failure configuring or running silence detection.
#[derive(Clone, Debug, PartialEq, Eq)]
pub enum DetectError {
    /// The analysis window is zero or negative; it must occupy time.
    NonPositiveWindow,
    /// The keep-region padding is negative.
    NegativePadding,
    /// The silence threshold does not convert to a finite, positive amplitude.
    InvalidThreshold,
    /// The sample buffer contains a non-finite value (NaN or infinity).
    NonFiniteSample,
    /// The analysis window spans fewer than one sample at the signal's rate
    /// (or is unrepresentably large).
    InvalidWindow,
    /// A computed region duration overflowed exact rational seconds.
    DurationOverflow,
    /// The timeline IR rejected a computed region.
    Timeline(TimelineError),
}

/// The exact-time configuration of a silence gate: the analysis window and
/// the padding applied to each side of a kept region.
#[derive(Clone, Copy, Debug, PartialEq, Eq)]
pub struct SilenceGate {
    window: Seconds,
    padding: Seconds,
}

impl SilenceGate {
    /// The analysis window duration.
    pub closed spec fn spec_window(self) -> Seconds {
        self.window
    }

    /// The padding applied to each side of a kept region.
    pub closed spec fn spec_padding(self) -> Seconds {
        self.padding
    }

    /// A positive window and a non-negative padding, both exact.
    pub open spec fn wf(self) -> bool {
        &&& self.window().wf()
        &&& self.window().numer() > 0
        &&& self.padding().wf()
        &&& self.padding().numer() >= 0
    }

    /// A gate analyzing in `window`-long steps and padding each kept region by
    /// `padding` on both sides. `threshold_usable` tells whether the silence
    /// threshold converts to a finite, positive amplitude.
    ///
    /// Errors, in this order: [`DetectError::NonPositiveWindow`] if `window`
    /// is not positive, [`DetectError::NegativePadding`] if `padding` is
    /// negative, and [`DetectError::InvalidThreshold`] for an unusable
    /// threshold.
    pub fn new(window: Seconds, threshold_usable: bool, padding: Seconds) -> (r: Result<
        SilenceGate,
        DetectError,
    >)
        requires
            window.wf(),
            padding.wf(),
        ensures
            window.numer() <= 0 ==> r == Err::<SilenceGate, DetectError>(
                DetectError::NonPositiveWindow,
            ),
            window.numer() > 0 && padding.numer() < 0 ==> r == Err::<SilenceGate, DetectError>(
                DetectError::NegativePadding,
            ),
            window.numer() > 0 && padding.numer() >= 0 && !threshold_usable ==> r == Err::<
                SilenceGate,
                DetectError,
            >(DetectError::InvalidThreshold),
            window.numer() > 0 && padding.numer() >= 0 && threshold_usable ==> (r matches Ok(g)
                && g.wf() && g.window() == window && g.padding() == padding),
    {
        if window.is_negative() || window.is_zero() {
            return Err(DetectError::NonPositiveWindow);
        }
        if padding.is_negative() {
            return Err(DetectError::NegativePadding);
        }
        if !threshold_usable {
            return Err(DetectError::InvalidThreshold);
        }
        Ok(SilenceGate { window, padding })
    }

    /// The analysis window duration.
    #[verifier::when_used_as_spec(spec_window)]
    pub fn window(self) -> (w: Seconds)
        ensures
            w == self.spec_window(),
    {
        self.window
    }

    /// The padding applied to each side of a kept region.
    #[verifier::when_used_as_spec(spec_padding)]
    pub fn padding(self) -> (p: Seconds)
        ensures
            p == self.spec_padding(),
    {
        self.padding
    }
}

/// The analysis window in whole samples at `rate` (rounded to the nearest
/// sample), if it is at least one sample and fits a `usize`.
pub open spec fn window_sample_count(gate: SilenceGate, rate: SampleRate) -> Option<int> {
    let n = round_half_away(gate.window().numer() * rate.hertz(), gate.window().denom() as int);
    if 1 <= n <= i64::MAX && n <= usize::MAX {
        Some(n)
    } else {
        None
    }
}

/// The analysis window in whole samples at `rate`, or
/// [`DetectError::InvalidWindow`] if it spans no usable number of samples.
pub fn window_samples(gate: &SilenceGate, rate: SampleRate) -> (r: Result<usize, DetectError>)
    requires
        gate.wf(),
        rate.wf(),
    ensures
        match window_sample_count(*gate, rate) {
            Some(n) => r == Ok::<usize, DetectError>(n as usize),
            None => r == Err::<usize, DetectError>(DetectError::InvalidWindow),
        },
{
    match gate.window.checked_to_samples(rate) {
        Some(count) => {
            if count >= 1 && (count as u64) <= (usize::MAX as u64) {
                Ok(count as usize)
            } else {
                Err(DetectError::InvalidWindow)
            }
        },
        None => Err(DetectError::InvalidWindow),
    }
}

/// How many analysis windows of `w` samples cover `n` samples (the last one
/// possibly short).
pub open spec fn window_count(n: nat, w: nat) -> nat {
    if n == 0 {
        0
    } else {
        ((n - 1) as nat / w + 1) as nat
    }
}

/// A half-open `[start, end)` span of samples covering consecutive active
/// windows.
#[derive(Clone, Copy, Debug, PartialEq, Eq, Structural)]
pub struct SampleSpan {
    /// The first sample of the span.
    pub start: usize,
    /// One past the last sample of the span.
    pub end: usize,
}

/// Spans as plain pairs.
pub open spec fn spans_view(spans: Seq<SampleSpan>) -> Seq<(int, int)> {
    spans.map_values(|s: SampleSpan| (s.start as int, s.end as int))
}

/// After the first `i` windows: the start of the run still open, if any,
/// and the runs closed so far.
pub open spec fn runs_upto(activity: Seq<bool>, w: nat, i: nat) -> (Option<int>, Seq<(int, int)>)
    decreases i,
{
    if i == 0 || i > activity.len() {
        (None, Seq::empty())
    } else {
        let (open, closed) = runs_upto(activity, w, (i - 1) as nat);
        let start = (i - 1) * w;
        if activity[i - 1] {
            (
                if open is Some {
                    open
                } else {
                    Some(start)
                },
                closed,
            )
        } else {
            match open {
                Some(s) => (None, closed.push((s, start))),
                None => (None, closed),
            }
        }
    }
}

/// The sample spans of consecutive active windows, in order; a run still
/// open at the end reaches the end of the signal.
pub open spec fn sample_runs(activity: Seq<bool>, w: nat, n: nat) -> Seq<(int, int)> {
    let (open, closed) = runs_upto(activity, w, activity.len());
    match open {
        Some(s) => closed.push((s, n as int)),
        None => closed,
    }
}

/// Spans that are non-empty, within `[0, n]`, and strictly apart in order.
pub open spec fn runs_apart(runs: Seq<(int, int)>, n: int) -> bool {
    &&& forall|k: int| 0 <= k < runs.len() ==> 0 <= (#[trigger] runs[k]).0 < runs[k].1 <= n
    &&& forall|k: int| 0 <= k < runs.len() - 1 ==> (#[trigger] runs[k]).1 < runs[k + 1].0
}

/// The sample spans of consecutive active windows, given whether each
/// `window_samples`-long window of the `sample_count` samples is active.
pub fn active_runs(activity: &[bool], window_samples: usize, sample_count: usize) -> (r: Vec<SampleSpan>)
    requires
        window_samples >= 1,
        activity@.len() == window_count(sample_count as nat, window_samples as nat),
    ensures
        spans_view(r@) == sample_runs(activity@, window_samples as nat, sample_count as nat),
        runs_apart(spans_view(r@), sample_count as int),
{
    let ghost w = window_samples as int;
    let ghost n = sample_count as int;
    let count = activity.len();
    let mut runs: Vec<SampleSpan> = Vec::new();
    let mut open: Option<usize> = None;
    let mut start: usize = 0;
    let mut k: usize = 0;
    assert(spans_view(runs@) =~= Seq::<(int, int)>::empty());
    while k < count
        invariant
            w == window_samples,
            n == sample_count,
            w >= 1,
            count == activity@.len(),
            count == window_count(n as nat, w as nat),
            k <= count,
            k < count ==> start == k * w && k * w < n,
            runs_upto(activity@, w as nat, k as nat) == (
                match open {
                    Some(s) => Some(s as int),
                    None => None::<int>,
                },
                spans_view(runs@),
            ),
            runs_apart(spans_view(runs@), n),
            open matches Some(s) ==> s + w <= k * w && s < n && (runs@.len() > 0
                ==> runs@.last().end < s),
            open is None && runs@.len() > 0 ==> runs@.last().end + w <= k * w,
            k == 0 ==> open is None,
        decreases count - k,
    {
        proof {
            assert(n >= 1);
            assert(k <= (n - 1) / w);
        }
        let ghost before = runs@;
        if activity[k] {
            if open.is_none() {
                open = Some(start);
            }
        } else if let Some(run_start) = open {
            runs.push(SampleSpan { start: run_start, end: start });
            open = None;
            proof {
                assert(spans_view(runs@) =~= spans_view(before).push((run_start as int, start as int)));
            }
        }
        proof {
            assert((k + 1) * w == k * w + w) by (nonlinear_arith);
            if k + 1 < count {
                assert((k + 1) <= (n - 1) / w);
                vstd::arithmetic::div_mod::lemma_fundamental_div_mod(n - 1, w);
                assert((k + 1) * w <= ((n - 1) / w) * w) by (nonlinear_arith)
                    requires
                        k + 1 <= (n - 1) / w,
                        w >= 1,
                ;
                assert(((n - 1) / w) * w == w * ((n - 1) / w)) by (nonlinear_arith);
            }
        }
        k = k + 1;
        if k < count {
            start = start + window_samples;
        }
    }
    let ghost before = runs@;
    if let Some(run_start) = open {
        runs.push(SampleSpan { start: run_start, end: sample_count });
        proof {
            assert(spans_view(runs@) =~= spans_view(before).push((run_start as int, n)));
        }
    }
    runs
}

/// `count` samples at `rate` as exact seconds, if the count fits an `i64`.
pub open spec fn to_seconds(count: int, rate: SampleRate) -> Option<Seconds> {
    if count <= i64::MAX {
        Some(Seconds::from_raw(reduced_ratio(count as i64, rate.hertz() as i64)))
    } else {
        None
    }
}

/// `count` samples at `rate` as exact seconds.
pub fn samples_to_seconds(count: usize, rate: SampleRate) -> (r: Result<Seconds, DetectError>)
    requires
        rate.wf(),
    ensures
        match to_seconds(count as int, rate) {
            Some(s) => r == Ok::<Seconds, DetectError>(s),
            None => r == Err::<Seconds, DetectError>(DetectError::DurationOverflow),
        },
        r matches Ok(s) ==> s.wf() && s.denotes(count as int, rate.hertz() as int),
{
    if (count as u64) > 0x7fff_ffff_ffff_ffff {
        return Err(DetectError::DurationOverflow);
    }
    Ok(Seconds::from_samples(count as i64, rate))
}

/// What [`pad_start`] returns: `start - padding`, clamped to the origin.
pub open spec fn padded_start(start: Seconds, padding: Seconds) -> Result<Seconds, DetectError> {
    match start.spec_checked_sub(padding) {
        None => Err(DetectError::DurationOverflow),
        Some(p) => Ok(
            if p.numer() < 0 {
                zero_seconds()
            } else {
                p
            },
        ),
    }
}

/// What [`pad_end`] returns: `end + padding`, clamped to `total`.
pub open spec fn padded_end(end: Seconds, padding: Seconds, total: Seconds) -> Result<Seconds, DetectError> {
    match end.spec_checked_add(padding) {
        None => Err(DetectError::DurationOverflow),
        Some(p) => Ok(
            if total.spec_before(p) {
                total
            } else {
                p
            },
        ),
    }
}

/// `start - padding`, clamped to the timeline origin.
pub fn pad_start(start: Seconds, padding: Seconds) -> (r: Result<Seconds, DetectError>)
    requires
        start.wf(),
        padding.wf(),
        padding.numer() >= 0,
    ensures
        r == padded_start(start, padding),
        r matches Ok(v) ==> v.wf() && v.numer() >= 0 && (start.numer() >= 0 ==> v.spec_at_or_before(
            start,
        )),
{
    let padded = match start.checked_sub(padding) {
        Some(p) => p,
        None => {
            return Err(DetectError::DurationOverflow);
        },
    };
    proof {
        lemma_difference_at_most(start, padding, padded);
    }
    if padded.is_negative() {
        Ok(Seconds::zero())
    } else {
        Ok(padded)
    }
}

/// `end + padding`, clamped to the signal's total length.
pub fn pad_end(end: Seconds, padding: Seconds, total: Seconds) -> (r: Result<Seconds, DetectError>)
    requires
        end.wf(),
        padding.wf(),
        total.wf(),
        padding.numer() >= 0,
    ensures
        r == padded_end(end, padding, total),
        r matches Ok(v) ==> v.wf() && v.spec_at_or_before(total) && (v == total
            || end.spec_at_or_before(v)),
{
    let padded = match end.checked_add(padding) {
        Some(p) => p,
        None => {
            return Err(DetectError::DurationOverflow);
        },
    };
    proof {
        lemma_sum_at_least(end, padding, padded);
    }
    if total.before(padded) {
        Ok(total)
    } else {
        Ok(padded)
    }
}

/// `keep` with the span `[start, end)` added: merged into the last span when
/// it starts at or before that span's end, appended otherwise.
pub open spec fn merge_span(keep: Seq<(Seconds, Seconds)>, start: Seconds, end: Seconds) -> Seq<
    (Seconds, Seconds),
> {
    if keep.len() > 0 && start.spec_at_or_before(keep.last().1) {
        let last = keep.last();
        keep.update(
            keep.len() - 1,
            (
                last.0,
                if end.spec_before(last.1) {
                    last.1
                } else {
                    end
                },
            ),
        )
    } else {
        keep.push((start, end))
    }
}

/// The padded, merged spans of the first `i` runs.
pub open spec fn padded_spans_upto(
    runs: Seq<(int, int)>,
    rate: SampleRate,
    padding: Seconds,
    total: Seconds,
    i: nat,
) -> Result<Seq<(Seconds, Seconds)>, DetectError>
    decreases i,
{
    if i == 0 || i > runs.len() {
        Ok(Seq::empty())
    } else {
        match padded_spans_upto(runs, rate, padding, total, (i - 1) as nat) {
            Err(e) => Err(e),
            Ok(keep) => match to_seconds(runs[i - 1].0, rate) {
                None => Err(DetectError::DurationOverflow),
                Some(s) => match padded_start(s, padding) {
                    Err(e) => Err(e),
                    Ok(start) => match to_seconds(runs[i - 1].1, rate) {
                        None => Err(DetectError::DurationOverflow),
                        Some(e) => match padded_end(e, padding, total) {
                            Err(err) => Err(err),
                            Ok(end) => Ok(merge_span(keep, start, end)),
                        },
                    },
                },
            },
        }
    }
}

/// The padded, merged spans of a signal of `n` samples with the given window
/// activity, or the error detection stops at.
pub open spec fn keep_spans(activity: Seq<bool>, n: int, rate: SampleRate, gate: SilenceGate) -> Result<
    Seq<(Seconds, Seconds)>,
    DetectError,
> {
    match window_sample_count(gate, rate) {
        None => Err(DetectError::InvalidWindow),
        Some(w) => match to_seconds(n, rate) {
            None => Err(DetectError::DurationOverflow),
            Some(total) => {
                let runs = sample_runs(activity, w as nat, n as nat);
                padded_spans_upto(runs, rate, gate.padding(), total, runs.len())
            },
        },
    }
}

/// Why the span `[start, end)` cannot become a time range, if it cannot.
pub open spec fn span_error(span: (Seconds, Seconds)) -> Option<DetectError> {
    match span.1.spec_checked_sub(span.0) {
        None => Some(DetectError::DurationOverflow),
        Some(d) => if d.numer() < 0 {
            Some(DetectError::Timeline(TimelineError::NegativeDuration))
        } else if checked_ratio_sum(span.0.numer(), span.0.denom(), d.numer(), d.denom()) is None {
            Some(DetectError::Timeline(TimelineError::TimeRangeOverflow))
        } else {
            None
        },
    }
}

/// The first span error among the first `i` spans.
pub open spec fn first_span_error(spans: Seq<(Seconds, Seconds)>, i: nat) -> Option<DetectError>
    decreases i,
{
    if i == 0 || i > spans.len() {
        None
    } else {
        match first_span_error(spans, (i - 1) as nat) {
            Some(e) => Some(e),
            None => span_error(spans[i - 1]),
        }
    }
}

/// Spans that start at or after zero, are non-empty, end within `total`,
/// and are strictly apart in order.
pub open spec fn spans_apart(spans: Seq<(Seconds, Seconds)>, total: Seconds) -> bool {
    &&& forall|k: int|
        0 <= k < spans.len() ==> (#[trigger] spans[k]).0.wf() && spans[k].1.wf()
            && spans[k].0.numer() >= 0 && spans[k].0.spec_before(spans[k].1)
            && spans[k].1.spec_at_or_before(total)
    &&& forall|k: int| 0 <= k < spans.len() - 1 ==> (#[trigger] spans[k]).1.spec_before(spans[k + 1].0)
}

/// Regions that start at or after zero, are non-empty, end within `total`,
/// and are strictly apart in order.
pub open spec fn regions_apart(regions: Seq<TimeRange>, total: Seconds) -> bool {
    &&& forall|k: int|
        0 <= k < regions.len() ==> (#[trigger] regions[k]).wf() && regions[k].start().numer() >= 0
            && regions[k].duration().numer() > 0 && regions[k].end().spec_at_or_before(total)
    &&& forall|k: int| 0 <= k < regions.len() - 1 ==> (#[trigger] regions[k]).end().spec_before(
        regions[k + 1].start(),
    )
}

proof fn lemma_spans_error_sticks(
    runs: Seq<(int, int)>,
    rate: SampleRate,
    padding: Seconds,
    total: Seconds,
    i: nat,
    j: nat,
)
    requires
        i <= j <= runs.len(),
        padded_spans_upto(runs, rate, padding, total, i) is Err,
    ensures
        padded_spans_upto(runs, rate, padding, total, j) == padded_spans_upto(runs, rate, padding, total, i),
    decreases j - i,
{
    if i < j {
        lemma_spans_error_sticks(runs, rate, padding, total, i, (j - 1) as nat);
    }
}

proof fn lemma_span_error_sticks(spans: Seq<(Seconds, Seconds)>, i: nat, j: nat)
    requires
        i <= j <= spans.len(),
        first_span_error(spans, i) is Some,
    ensures
        first_span_error(spans, j) == first_span_error(spans, i),
    decreases j - i,
{
    if i < j {
        lemma_span_error_sticks(spans, i, (j - 1) as nat);
    }
}

/// The padded span of one run lies within the signal, is non-empty, and
/// starts at or after zero.
proof fn lemma_padded_span_fits(
    s: int,
    e: int,
    n: int,
    rate: SampleRate,
    xs: Seconds,
    xe: Seconds,
    total: Seconds,
    start: Seconds,
    end: Seconds,
)
    requires
        rate.wf(),
        0 <= s < e <= n,
        xs.wf(),
        xe.wf(),
        total.wf(),
        start.wf(),
        end.wf(),
        xs.denotes(s, rate.hertz() as int),
        xe.denotes(e, rate.hertz() as int),
        total.denotes(n, rate.hertz() as int),
        start.spec_at_or_before(xs),
        end.spec_at_or_before(total),
        end == total || xe.spec_at_or_before(end),
    ensures
        start.spec_before(end),
{
    let h = rate.hertz() as int;
    lemma_compare_over_common(
        xs.numer() as int,
        xs.denom() as int,
        xe.numer() as int,
        xe.denom() as int,
        s,
        e,
        h,
    );
    lemma_compare_over_common(
        xs.numer() as int,
        xs.denom() as int,
        total.numer() as int,
        total.denom() as int,
        s,
        n,
        h,
    );
    if end == total {
        lemma_cross_trans(
            start.numer() as int,
            start.denom() as int,
            xs.numer() as int,
            xs.denom() as int,
            total.numer() as int,
            total.denom() as int,
        );
    } else {
        lemma_cross_trans(
            start.numer() as int,
            start.denom() as int,
            xs.numer() as int,
            xs.denom() as int,
            xe.numer() as int,
            xe.denom() as int,
        );
        lemma_cross_trans(
            start.numer() as int,
            start.denom() as int,
            xe.numer() as int,
            xe.denom() as int,
            end.numer() as int,
            end.denom() as int,
        );
    }
}

/// The sign of an exact quotient follows the sign of its numerator.
proof fn lemma_positive_quotient(r: Seconds, num: int, den: int)
    requires
        r.wf(),
        den > 0,
        num > 0,
        r.denotes(num, den),
    ensures
        r.numer() > 0,
{
    let (rn, rd) = (r.numer() as int, r.denom() as int);
    assert(rn > 0) by (nonlinear_arith)
        requires
            rn * den == num * rd,
            den > 0,
            num > 0,
            rd > 0,
    ;
}

/// Samples from the origin are at or after zero.
proof fn lemma_samples_not_negative(x: Seconds, count: int, rate: SampleRate)
    requires
        x.wf(),
        rate.wf(),
        count >= 0,
        x.denotes(count, rate.hertz() as int),
    ensures
        x.numer() >= 0,
{
    let (xn, xd, h) = (x.numer() as int, x.denom() as int, rate.hertz() as int);
    assert(xn >= 0) by (nonlinear_arith)
        requires
            xn * h == count * xd,
            h > 0,
            xd > 0,
            count >= 0,
    ;
}

/// The keep regions of a signal of `sample_count` samples at `rate` under
/// `gate`, from the activity of each of its analysis windows, first to last:
/// a window is active when its level reaches the silence threshold.
///
/// Each stretch of consecutive active windows becomes a region, widened by
/// the configured padding on both sides and clamped to the signal; regions whose
/// widened spans touch or overlap merge. Errors with [`DetectError::InvalidWindow`] if the window
/// spans no usable number of samples, [`DetectError::DurationOverflow`] if a
/// time is not representable, and [`DetectError::Timeline`] if the IR
/// rejects a region. The regions come out ascending, strictly apart,
/// non-empty and within the signal.
pub fn keep_regions(
    activity: &[bool],
    sample_count: usize,
    rate: SampleRate,
    gate: &SilenceGate,
) -> (r: Result<Vec<TimeRange>, DetectError>)
    requires
        rate.wf(),
        gate.wf(),
        window_sample_count(*gate, rate) matches Some(w) ==> activity@.len() == window_count(
            sample_count as nat,
            w as nat,
        ),
    ensures
        match keep_spans(activity@, sample_count as int, rate, *gate) {
            Err(e) => r == Err::<Vec<TimeRange>, DetectError>(e),
            Ok(spans) => match first_span_error(spans, spans.len()) {
                Some(e) => r == Err::<Vec<TimeRange>, DetectError>(e),
                None => r matches Ok(regions) && regions@.len() == spans.len() && forall|k: int|
                    0 <= k < spans.len() ==> (#[trigger] regions@[k]).start() == spans[k].0
                        && regions@[k].duration() == spans[k].1.spec_checked_sub(spans[k].0)->Some_0,
            },
        },
        r matches Ok(regions) ==> regions_apart(
            regions@,
            to_seconds(sample_count as int, rate)->Some_0,
        ),
{
    let window = window_samples(gate, rate)?;
    let runs = active_runs(activity, window, sample_count);
    let total = samples_to_seconds(sample_count, rate)?;
    let ghost h = rate.hertz() as int;
    let ghost n = sample_count as int;
    let ghost runs_v = spans_view(runs@);
    let padding = gate.padding();
    let mut keep: Vec<(Seconds, Seconds)> = Vec::new();
    let count = runs.len();
    let mut i: usize = 0;
    while i < count
        invariant
            rate.wf(),
            gate.wf(),
            padding == gate.padding(),
            h == rate.hertz(),
            n == sample_count,
            runs_v == spans_view(runs@),
            count == runs@.len(),
            runs_apart(runs_v, n),
            total.wf(),
            total.denotes(n, h),
            total == to_seconds(n, rate)->Some_0,
            i <= count,
            padded_spans_upto(runs_v, rate, padding, total, i as nat) == Ok::<
                Seq<(Seconds, Seconds)>,
                DetectError,
            >(keep@),
            spans_apart(keep@, total),
            runs_v == sample_runs(activity@, window as nat, n as nat),
            window_sample_count(*gate, rate) == Some(window as int),
        decreases count - i,
    {
        let run = runs[i];
        assert(runs_v[i as int] == (run.start as int, run.end as int));
        let outcome: Result<(), DetectError> = match samples_to_seconds(run.start, rate) {
            Err(e) => Err(e),
            Ok(xs) => match pad_start(xs, padding) {
                Err(e) => Err(e),
                Ok(start) => match samples_to_seconds(run.end, rate) {
                    Err(e) => Err(e),
                    Ok(xe) => match pad_end(xe, padding, total) {
                        Err(e) => Err(e),
                        Ok(end) => {
                            proof {
                                lemma_samples_not_negative(xs, run.start as int, rate);
                                lemma_padded_span_fits(
                                    run.start as int,
                                    run.end as int,
                                    n,
                                    rate,
                                    xs,
                                    xe,
                                    total,
                                    start,
                                    end,
                                );
                            }
                            let ghost before = keep@;
                            let len = keep.len();
                            if len > 0 && start.at_or_before(keep[len - 1].1) {
                                let last = keep[len - 1];
                                let merged = if end.before(last.1) {
                                    last.1
                                } else {
                                    end
                                };
                                proof {
                                    lemma_cross_trans(
                                        last.0.numer() as int,
                                        last.0.denom() as int,
                                        last.1.numer() as int,
                                        last.1.denom() as int,
                                        end.numer() as int,
                                        end.denom() as int,
                                    );
                                }
                                keep.set(len - 1, (last.0, merged));
                                proof {
                                    assert(keep@ == merge_span(before, start, end));
                                    assert forall|k: int| 0 <= k < keep@.len() - 1 implies (
                                    #[trigger] keep@[k]).1.spec_before(keep@[k + 1].0) by {
                                        assert(keep@[k] == before[k]);
                                        assert(keep@[k + 1].0 == before[k + 1].0);
                                    }
                                }
                            } else {
                                keep.push((start, end));
                                proof {
                                    assert(keep@ == merge_span(before, start, end));
                                    assert forall|k: int| 0 <= k < keep@.len() - 1 implies (
                                    #[trigger] keep@[k]).1.spec_before(keep@[k + 1].0) by {
                                        assert(keep@[k] == before[k]);
                                    }
                                }
                            }
                            Ok(())
                        },
                    },
                },
            },
        };
        if let Err(e) = outcome {
            proof {
                lemma_spans_error_sticks(runs_v, rate, padding, total, (i + 1) as nat, count as nat);
            }
            return Err(e);
        }
        i = i + 1;
    }
    let ghost spans = keep@;
    let m = keep.len();
    let mut regions: Vec<TimeRange> = Vec::new();
    let mut j: usize = 0;
    while j < m
        invariant
            spans == keep@,
            keep_spans(activity@, n, rate, *gate) == Ok::<Seq<(Seconds, Seconds)>, DetectError>(spans),
            n == sample_count,
            m == spans.len(),
            total.wf(),
            total == to_seconds(n, rate)->Some_0,
            spans_apart(spans, total),
            j <= m,
            first_span_error(spans, j as nat) is None,
            regions@.len() == j,
            forall|k: int|
                0 <= k < j ==> (#[trigger] regions@[k]).start() == spans[k].0 && regions@[k].duration()
                    == spans[k].1.spec_checked_sub(spans[k].0)->Some_0 && regions@[k].wf()
                    && regions@[k].end().same_as(spans[k].1) && regions@[k].duration().numer() > 0,
        decreases m - j,
    {
        let (start, end) = keep[j];
        assert(spans[j as int] == (start, end));
        let duration = match end.checked_sub(start) {
            Some(d) => d,
            None => {
                proof {
                    assert(first_span_error(spans, (j + 1) as nat) == Some(DetectError::DurationOverflow));
                    lemma_span_error_sticks(spans, (j + 1) as nat, m as nat);
                }
                return Err(DetectError::DurationOverflow);
            },
        };
        proof {
            assert(end.numer() * start.denom() - start.numer() * end.denom() > 0);
            assert(end.denom() * start.denom() > 0) by (nonlinear_arith)
                requires
                    end.denom() > 0,
                    start.denom() > 0,
            ;
            lemma_positive_quotient(
                duration,
                end.numer() * start.denom() - start.numer() * end.denom(),
                end.denom() * start.denom(),
            );
        }
        let range = match TimeRange::new(start, duration) {
            Ok(range) => range,
            Err(e) => {
                proof {
                    assert(first_span_error(spans, (j + 1) as nat) == Some(DetectError::Timeline(e)));
                    lemma_span_error_sticks(spans, (j + 1) as nat, m as nat);
                }
                return Err(DetectError::Timeline(e));
            },
        };
        proof {
            range.lemma_end();
            lemma_difference_then_sum(start, end, duration, range.end());
        }
        regions.push(range);
        j = j + 1;
    }
    proof {
        assert forall|k: int| 0 <= k < regions@.len() implies (#[trigger] regions@[k]).end().spec_at_or_before(
            total,
        ) by {
            regions@[k].lemma_end();
            let e = regions@[k].end();
            lemma_cross_trans(
                e.numer() as int,
                e.denom() as int,
                spans[k].1.numer() as int,
                spans[k].1.denom() as int,
                total.numer() as int,
                total.denom() as int,
            );
        }
        assert forall|k: int| 0 <= k < regions@.len() - 1 implies (#[trigger] regions@[k]).end().spec_before(
            regions@[k + 1].start(),
        ) by {
            regions@[k].lemma_end();
            let e = regions@[k].end();
            let next = spans[k + 1].0;
            lemma_cross_trans(
                e.numer() as int,
                e.denom() as int,
                spans[k].1.numer() as int,
                spans[k].1.denom() as int,
                next.numer() as int,
                next.denom() as int,
            );
        }
    }
    Ok(regions)
}

} // verus!
