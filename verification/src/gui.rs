//! What the desktop front end decides: which export formats a user can enable
//! and has enabled, how a piece of footage and its probe state read in the
//! footage list, and when a run may start.
use vstd::prelude::*;
use vstd::string::StringExecFns;

use crate::asset::{leaf_name, MediaSource};
use crate::probe::ProbedMedia;
use crate::text::{decimal, push_decimal};
use crate::time::Seconds;

verus! {

broadcast use Seconds::lemma_from_raw;

/// An interchange format the front end offers once the pipeline is wired.
#[derive(Clone, Copy, Debug, PartialEq, Eq, Hash, Structural)]
pub enum ExportTarget {
    /// FCP7 `xmeml`: Premiere Pro and DaVinci Resolve.
    Xmeml,
    /// FCPXML: Final Cut Pro and Resolve (not offered yet).
    Fcpxml,
}

/// The checkbox label of `target`.
pub open spec fn target_label(target: ExportTarget) -> Seq<char> {
    match target {
        ExportTarget::Xmeml => "Premiere / Resolve (FCP7 xmeml)"@,
        ExportTarget::Fcpxml => "Final Cut / Resolve (FCPXML)"@,
    }
}

/// Whether the exporter for `target` exists today: only xmeml does.
pub open spec fn target_available(target: ExportTarget) -> bool {
    target == ExportTarget::Xmeml
}

impl ExportTarget {
    /// Short label for the checkbox.
    pub fn label(self) -> (s: &'static str)
        ensures
            s@ == target_label(self),
    {
        match self {
            ExportTarget::Xmeml => "Premiere / Resolve (FCP7 xmeml)",
            ExportTarget::Fcpxml => "Final Cut / Resolve (FCPXML)",
        }
    }

    /// Whether the exporter exists today.
    pub fn is_available(self) -> (b: bool)
        ensures
            b == target_available(self),
    {
        match self {
            ExportTarget::Xmeml => true,
            ExportTarget::Fcpxml => false,
        }
    }

    /// Every target the front end offers, xmeml first.
    pub fn all() -> (targets: [ExportTarget; 2])
        ensures
            targets@ == seq![ExportTarget::Xmeml, ExportTarget::Fcpxml],
    {
        let targets = [ExportTarget::Xmeml, ExportTarget::Fcpxml];
        assert(targets@ =~= seq![ExportTarget::Xmeml, ExportTarget::Fcpxml]);
        targets
    }
}

/// Which export formats are enabled for the next run. Only available
/// formats are ever enabled, each at most once.
#[derive(Clone, Debug, PartialEq, Eq)]
pub struct ExportSelection {
    enabled: Vec<ExportTarget>,
}

impl ExportSelection {
    /// The enabled formats, in the order they were enabled.
    pub closed spec fn enabled_seq(&self) -> Seq<ExportTarget> {
        self.enabled@
    }

    /// Every enabled format is available and none is listed twice.
    pub open spec fn wf(&self) -> bool {
        &&& self.enabled_seq().no_duplicates()
        &&& forall|k: int|
            0 <= k < self.enabled_seq().len() ==> target_available(
                #[trigger] self.enabled_seq()[k],
            )
    }

    /// Xmeml only: the only exporter implemented so far.
    pub fn default_enabled() -> (s: ExportSelection)
        ensures
            s.wf(),
            s.enabled_seq() == seq![ExportTarget::Xmeml],
    {
        let s = ExportSelection { enabled: vec![ExportTarget::Xmeml] };
        assert(s.enabled_seq() =~= seq![ExportTarget::Xmeml]);
        s
    }

    /// Whether `target` is checked.
    pub fn contains(&self, target: ExportTarget) -> (b: bool)
        ensures
            b == self.enabled_seq().contains(target),
    {
        let mut i: usize = 0;
        while i < self.enabled.len()
            invariant
                i <= self.enabled@.len(),
                forall|k: int| 0 <= k < i ==> self.enabled@[k] != target,
            decreases self.enabled@.len() - i,
        {
            if self.enabled[i] == target {
                assert(self.enabled_seq()[i as int] == target);
                return true;
            }
            i = i + 1;
        }
        false
    }

    /// Toggle `target` on or off. Unavailable targets stay off; enabling an
    /// enabled target leaves the selection as it is; the other targets keep
    /// their state.
    pub fn set(&mut self, target: ExportTarget, on: bool)
        requires
            old(self).wf(),
        ensures
            final(self).wf(),
            final(self).enabled_seq().contains(target) == (on && target_available(target)),
            forall|other: ExportTarget|
                other != target ==> (#[trigger] final(self).enabled_seq().contains(other)
                    == old(self).enabled_seq().contains(other)),
            on && target_available(target) && old(self).enabled_seq().contains(target)
                ==> final(self).enabled_seq() == old(self).enabled_seq(),
    {
        if on && target.is_available() {
            if !self.contains(target) {
                let ghost before = self.enabled@;
                self.enabled.push(target);
                proof {
                    assert forall|other: ExportTarget| other != target implies (
                    #[trigger] self.enabled@.contains(other) == before.contains(other)) by {
                        if self.enabled@.contains(other) {
                            let k = choose|k: int|
                                0 <= k < self.enabled@.len() && self.enabled@[k] == other;
                            assert(k < before.len());
                            assert(before[k] == other);
                        }
                        if before.contains(other) {
                            let k = choose|k: int| 0 <= k < before.len() && before[k] == other;
                            assert(self.enabled@[k] == other);
                        }
                    }
                    assert(self.enabled@[before.len() as int] == target);
                }
            }
        } else {
            self.remove(target);
        }
    }

    fn remove(&mut self, target: ExportTarget)
        requires
            old(self).wf(),
        ensures
            final(self).wf(),
            !final(self).enabled_seq().contains(target),
            forall|other: ExportTarget|
                other != target ==> (#[trigger] final(self).enabled_seq().contains(other)
                    == old(self).enabled_seq().contains(other)),
    {
        let mut kept: Vec<ExportTarget> = Vec::new();
        let mut i: usize = 0;
        let n = self.enabled.len();
        while i < n
            invariant
                n == self.enabled@.len(),
                i <= n,
                self.enabled@ == old(self).enabled@,
                old(self).wf(),
                kept@ == self.enabled@.subrange(0, i as int).filter(
                    keeps(target),
                ),
            decreases n - i,
        {
            let t = self.enabled[i];
            proof {
                assert(self.enabled@.subrange(0, i + 1) =~= self.enabled@.subrange(
                    0,
                    i as int,
                ).push(t));
                self.enabled@.subrange(0, i as int).lemma_filter_push(
                    t,
                    keeps(target),
                );
            }
            if t != target {
                kept.push(t);
            }
            i = i + 1;
        }
        let ghost all = self.enabled@;
        assert(all.subrange(0, n as int) =~= all);
        let ghost keep = keeps(target);
        proof {
            assert(!kept@.contains(target)) by {
                if kept@.contains(target) {
                    let k = choose|k: int| 0 <= k < kept@.len() && kept@[k] == target;
                    all.lemma_filter_pred(keep, k);
                }
            }
            assert forall|other: ExportTarget| other != target implies (
            #[trigger] kept@.contains(other) == all.contains(other)) by {
                if all.contains(other) {
                    let k = choose|k: int| 0 <= k < all.len() && all[k] == other;
                    all.lemma_filter_contains(keep, k);
                }
                if kept@.contains(other) {
                    all.lemma_filter_contains_rev(keep, other);
                }
            }
            lemma_filter_keeps_wf(all, target);
        }
        self.enabled = kept;
    }

    /// Whether any implemented export format is selected.
    pub fn has_implemented_target(&self) -> (b: bool)
        ensures
            b == exists|k: int|
                0 <= k < self.enabled_seq().len() && target_available(
                    #[trigger] self.enabled_seq()[k],
                ),
    {
        let mut i: usize = 0;
        while i < self.enabled.len()
            invariant
                i <= self.enabled@.len(),
                forall|k: int| 0 <= k < i ==> !target_available(#[trigger] self.enabled@[k]),
            decreases self.enabled@.len() - i,
        {
            if self.enabled[i].is_available() {
                assert(target_available(self.enabled_seq()[i as int]));
                return true;
            }
            i = i + 1;
        }
        false
    }
}

impl Default for ExportSelection {
    /// Nothing enabled.
    fn default() -> (s: ExportSelection)
        ensures
            s.wf(),
            s.enabled_seq() == Seq::<ExportTarget>::empty(),
    {
        ExportSelection { enabled: Vec::new() }
    }
}

/// The test that keeps every format but `target`.
spec fn keeps(target: ExportTarget) -> spec_fn(ExportTarget) -> bool {
    |t: ExportTarget| t != target
}

proof fn lemma_filter_keeps_wf(all: Seq<ExportTarget>, target: ExportTarget)
    requires
        all.no_duplicates(),
        forall|k: int| 0 <= k < all.len() ==> target_available(#[trigger] all[k]),
    ensures
        all.filter(keeps(target)).no_duplicates(),
        forall|k: int|
            0 <= k < all.filter(keeps(target)).len() ==> target_available(
                #[trigger] all.filter(keeps(target))[k],
            ),
    decreases all.len(),
{
    let keep = keeps(target);
    if all.len() > 0 {
        let init = all.drop_last();
        assert(init.no_duplicates());
        assert forall|k: int| 0 <= k < init.len() implies target_available(#[trigger] init[k]) by {
            assert(init[k] == all[k]);
        }
        lemma_filter_keeps_wf(init, target);
        assert(all =~= init.push(all.last()));
        init.lemma_filter_push(all.last(), keep);
        if keep(all.last()) {
            assert(!init.contains(all.last())) by {
                if init.contains(all.last()) {
                    let k = choose|k: int| 0 <= k < init.len() && init[k] == all.last();
                    assert(all[k] == all[all.len() - 1]);
                }
            }
            assert(!init.filter(keep).contains(all.last())) by {
                if init.filter(keep).contains(all.last()) {
                    init.lemma_filter_contains_rev(keep, all.last());
                }
            }
            let f = init.filter(keep);
            assert forall|i: int, j: int|
                0 <= i < f.push(all.last()).len() && 0 <= j < f.push(all.last()).len() && i
                    != j implies f.push(all.last())[i] != f.push(all.last())[j] by {
                if i < f.len() && j < f.len() {
                } else if i < f.len() {
                    assert(f.contains(f[i]));
                } else if j < f.len() {
                    assert(f.contains(f[j]));
                }
            }
            assert(all.last() == all[all.len() - 1]);
        }
    }
}

// ----- footage -----

/// The probe state of one piece of footage.
#[derive(Clone, Debug, PartialEq, Eq)]
pub enum ProbeOutcome {
    /// The probe is still running.
    Pending,
    /// Its properties were read.
    Ready(ProbedMedia),
    /// The probe or the timeline IR rejected the file, with why.
    Failed(String),
}

/// `n` written with at least two digits (a leading zero below ten).
pub open spec fn two_digits(n: int) -> Seq<char> {
    if 0 <= n < 10 {
        seq!['0'] + decimal(n)
    } else {
        decimal(n)
    }
}

/// The seconds part of a non-negative `num / den` seconds once whole minutes
/// are taken out, rounded to the nearest whole second (a tie rounds to the
/// even second).
pub open spec fn rounded_seconds(num: int, den: int) -> int {
    let rem = num % (60 * den);
    let whole = rem / den;
    let frac = rem % den;
    if 2 * frac > den || (2 * frac == den && whole % 2 == 1) {
        whole + 1
    } else {
        whole
    }
}

/// A duration of `num / den` seconds as `minutes:seconds`: the whole minutes
/// rounded down, then the remaining seconds rounded to the nearest second (a
/// tie to the even one), zero-padded to two digits. For a negative duration
/// the remainder keeps the duration's sign and is written after a `-`.
pub open spec fn duration_text(num: int, den: int) -> Seq<char> {
    if num >= 0 {
        decimal(num / (60 * den)) + seq![':'] + two_digits(rounded_seconds(num, den))
    } else {
        decimal(num / (60 * den)) + seq![':', '-'] + decimal(rounded_seconds(-num, den))
    }
}

/// `duration` as `minutes:seconds`, e.g. `1:23`.
pub fn format_duration(duration: Seconds) -> (s: String)
    requires
        duration.wf(),
    ensures
        s@ == duration_text(duration.numer() as int, duration.denom() as int),
{
    let num = duration.numer() as i128;
    let den = duration.denom() as i128;
    let per_minute: i128 = 60 * den;
    let magnitude: i128 = if num < 0 {
        -num
    } else {
        num
    };
    let q = magnitude / per_minute;
    let rem = magnitude % per_minute;
    let whole = rem / den;
    let frac = rem % den;
    let seconds = if 2 * frac > den || (2 * frac == den && whole % 2 == 1) {
        whole + 1
    } else {
        whole
    };
    assert(0 <= q <= magnitude) by (nonlinear_arith)
        requires
            0 <= magnitude,
            per_minute >= 60,
            q == magnitude / per_minute,
    ;
    assert(0 <= whole <= 59) by (nonlinear_arith)
        requires
            0 <= rem < 60 * den,
            den > 0,
            whole == rem / den,
    ;
    let minutes: i128 = if num >= 0 {
        q
    } else if rem == 0 {
        -q
    } else {
        -q - 1
    };
    proof {
        vstd::arithmetic::div_mod::lemma_fundamental_div_mod(magnitude as int, per_minute as int);
        assert(magnitude == q * per_minute + rem) by (nonlinear_arith)
            requires
                magnitude == per_minute * (magnitude / per_minute) + magnitude % per_minute,
                q == magnitude / per_minute,
                rem == magnitude % per_minute,
        ;
        assert(q <= 0x0300_0000_0000_0000) by (nonlinear_arith)
            requires
                magnitude == q * per_minute + rem,
                0 <= rem,
                0 <= q,
                per_minute >= 60,
                magnitude <= 0x8000_0000_0000_0000,
        ;
        if num < 0 {
            if rem == 0 {
                assert(num == (-q) * per_minute) by (nonlinear_arith)
                    requires
                        num == -magnitude,
                        magnitude == q * per_minute + rem,
                        rem == 0,
                ;
                vstd::arithmetic::div_mod::lemma_fundamental_div_mod_converse(
                    num as int,
                    per_minute as int,
                    -q as int,
                    0,
                );
            } else {
                assert(num == (-q - 1) * per_minute + (per_minute - rem)) by (nonlinear_arith)
                    requires
                        num == -magnitude,
                        magnitude == q * per_minute + rem,
                ;
                vstd::arithmetic::div_mod::lemma_fundamental_div_mod_converse(
                    num as int,
                    per_minute as int,
                    -q - 1,
                    per_minute - rem,
                );
            }
        }
        assert(minutes == (num as int) / (per_minute as int));
    }
    let mut s = String::new();
    push_decimal(&mut s, minutes as i64);
    s.push(':');
    if num < 0 {
        s.push('-');
    } else if seconds < 10 {
        s.push('0');
    }
    push_decimal(&mut s, seconds as i64);
    proof {
        let expected = duration_text(duration.numer() as int, duration.denom() as int);
        assert(s@ =~= expected);
    }
    s
}

impl ProbeOutcome {
    /// The one-line summary for the footage list: the streams present and the
    /// duration, the probe's error message, or that the probe is running.
    pub fn summary(&self) -> (s: String)
        requires
            self matches ProbeOutcome::Ready(media) ==> media.duration.wf(),
        ensures
            s@ == outcome_summary(*self),
    {
        match self {
            ProbeOutcome::Pending => String::from_str("probing…"),
            ProbeOutcome::Failed(message) => message.clone(),
            ProbeOutcome::Ready(media) => {
                let mut s = String::new();
                if media.video.is_some() {
                    s.append("video");
                    if media.audio.is_some() {
                        s.append(" + audio");
                    }
                } else if media.audio.is_some() {
                    s.append("audio");
                } else {
                    s.append("no streams");
                }
                s.append(", ");
                let d = format_duration(media.duration);
                s.append(d.as_str());
                s
            },
        }
    }
}

/// The streams a probed medium carries, as the footage list names them.
pub open spec fn streams_text(media: ProbedMedia) -> Seq<char> {
    if media.video is Some && media.audio is Some {
        "video"@ + " + audio"@
    } else if media.video is Some {
        "video"@
    } else if media.audio is Some {
        "audio"@
    } else {
        "no streams"@
    }
}

/// The footage list's summary of a probe outcome.
pub open spec fn outcome_summary(outcome: ProbeOutcome) -> Seq<char> {
    match outcome {
        ProbeOutcome::Pending => "probing…"@,
        ProbeOutcome::Failed(message) => message@,
        ProbeOutcome::Ready(media) => streams_text(media) + ", "@ + duration_text(
            media.duration.numer() as int,
            media.duration.denom() as int,
        ),
    }
}

/// One user-selected source file and its probe state.
#[derive(Clone, Debug, PartialEq, Eq)]
pub struct FootageEntry {
    source: MediaSource,
    outcome: ProbeOutcome,
}

/// The list label of footage from `source`: its leaf file name, else the
/// whole path.
pub open spec fn footage_label(source: Seq<char>) -> Seq<char> {
    match leaf_name(source) {
        Some(leaf) => leaf,
        None => source,
    }
}

impl FootageEntry {
    /// The footage's source.
    pub closed spec fn spec_source(&self) -> MediaSource {
        self.source
    }

    /// The footage's probe state.
    pub closed spec fn spec_outcome(&self) -> ProbeOutcome {
        self.outcome
    }

    /// Footage waiting to be probed.
    pub fn pending(source: MediaSource) -> (e: FootageEntry)
        ensures
            e.spec_source() == source,
            e.spec_outcome() == ProbeOutcome::Pending,
    {
        FootageEntry { source, outcome: ProbeOutcome::Pending }
    }

    /// Footage with a finished probe.
    pub fn probed(source: MediaSource, outcome: ProbeOutcome) -> (e: FootageEntry)
        ensures
            e.spec_source() == source,
            e.spec_outcome() == outcome,
    {
        FootageEntry { source, outcome }
    }

    /// The footage's source.
    pub fn source(&self) -> (s: &MediaSource)
        ensures
            *s == self.spec_source(),
    {
        &self.source
    }

    /// The footage's probe state.
    pub fn outcome(&self) -> (o: &ProbeOutcome)
        ensures
            *o == self.spec_outcome(),
    {
        &self.outcome
    }

    /// The list label: the leaf file name, or the whole path when it has
    /// none.
    pub fn label(&self) -> (s: String)
        ensures
            s@ == footage_label(self.spec_source()@),
    {
        match self.source.file_name() {
            Some(name) => name.to_owned(),
            None => self.source.path().to_owned(),
        }
    }

    /// The footage's line in the list: its label and its probe summary.
    pub fn display(&self) -> (s: String)
        requires
            self.spec_outcome() matches ProbeOutcome::Ready(media) ==> media.duration.wf(),
        ensures
            s@ == footage_label(self.spec_source()@) + " — "@ + outcome_summary(
                self.spec_outcome(),
            ),
    {
        let mut s = self.label();
        s.append(" — ");
        let summary = self.outcome.summary();
        s.append(summary.as_str());
        s
    }
}

/// Whether a run may start: there is footage, every piece has finished
/// probing, and an implemented export format is selected.
pub fn can_process(footage: &[FootageEntry], export: &ExportSelection) -> (b: bool)
    ensures
        b == (footage@.len() > 0 && (exists|k: int|
            0 <= k < export.enabled_seq().len() && target_available(
                #[trigger] export.enabled_seq()[k],
            )) && forall|k: int|
            0 <= k < footage@.len() ==> !((#[trigger] footage@[k]).spec_outcome() is Pending)),
{
    if footage.len() == 0 || !export.has_implemented_target() {
        return false;
    }
    let mut i: usize = 0;
    while i < footage.len()
        invariant
            i <= footage@.len(),
            forall|k: int| 0 <= k < i ==> !((#[trigger] footage@[k]).spec_outcome() is Pending),
        decreases footage@.len() - i,
    {
        if let ProbeOutcome::Pending = footage[i].outcome() {
            return false;
        }
        i = i + 1;
    }
    true
}

/// Put a finished probe batch in place: `entries[k]` replaces the footage at
/// `start + k`, where there is such footage; the rest is left as it was.
pub fn apply_probe_batch(footage: &mut Vec<FootageEntry>, start: usize, entries: Vec<FootageEntry>)
    ensures
        final(footage)@.len() == old(footage)@.len(),
        forall|i: int|
            0 <= i < old(footage)@.len() ==> #[trigger] final(footage)@[i] == if start <= i < start
                + entries@.len() {
                entries@[i - start]
            } else {
                old(footage)@[i]
            },
{
    let ghost all = entries@;
    let ghost before = footage@;
    let mut rest = entries;
    assert(rest@ =~= all.subrange(0, rest@.len() as int));
    while rest.len() > 0
        invariant
            rest@.len() <= all.len(),
            rest@ == all.subrange(0, rest@.len() as int),
            footage@.len() == before.len(),
            forall|i: int|
                0 <= i < before.len() ==> #[trigger] footage@[i] == if start + rest@.len() <= i
                    < start + all.len() {
                    all[i - start]
                } else {
                    before[i]
                },
        decreases rest@.len(),
    {
        let ghost m = rest@.len();
        let entry = rest.pop().unwrap();
        assert(entry == all[m - 1]);
        assert(rest@ =~= all.subrange(0, m - 1));
        let len = footage.len();
        if start < len && rest.len() < len - start {
            let index = start + rest.len();
            footage.set(index, entry);
        }
    }
}

} // verus!
