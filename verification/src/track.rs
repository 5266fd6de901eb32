//! Tracks: ordered lanes of clips, gaps, and transitions.
//!
//! A track is a sequence; a clip's timeline position is the running sum of the
//! clip and gap durations before it. A transition is a render-time overlay on
//! the boundary between its two clips: it does not advance the track position.
use vstd::prelude::*;

use crate::asset::MediaSource;
use crate::error::TimelineError;
use crate::time::{lemma_step_fits, lemma_sum_denotes, Seconds, TimeRange};

verus! {

broadcast use Seconds::lemma_from_raw;

/// Whether a track carries video or audio.
#[derive(Clone, Copy, Debug, PartialEq, Eq, Structural)]
pub enum TrackKind {
    /// A video track.
    Video,
    /// An audio track.
    Audio,
}

/// A placed reference to a span of a media asset.
#[derive(Clone, Debug, PartialEq, Eq)]
pub struct Clip {
    asset: MediaSource,
    range: TimeRange,
    name: Option<String>,
}

impl Clip {
    /// The asset this clip references.
    pub closed spec fn spec_asset(&self) -> &MediaSource {
        &self.asset
    }

    /// The in/out range into the asset.
    pub closed spec fn spec_range(&self) -> TimeRange {
        self.range
    }

    /// The clip's name, if set.
    pub closed spec fn name_view(&self) -> Option<Seq<char>> {
        match self.name {
            Some(n) => Some(n@),
            None => None,
        }
    }

    /// The clip's range is well formed.
    pub open spec fn wf(&self) -> bool {
        self.range().wf()
    }

    /// The clip [`new`](Self::new) builds.
    pub closed spec fn spec_new(asset: MediaSource, range: TimeRange) -> Clip {
        Clip { asset, range, name: None }
    }

    /// What [`spec_new`](Self::spec_new) builds holds what it was given.
    pub broadcast proof fn lemma_spec_new(asset: MediaSource, range: TimeRange)
        ensures
            *(#[trigger] Clip::spec_new(asset, range)).asset() == asset,
            Clip::spec_new(asset, range).range() == range,
            Clip::spec_new(asset, range).name_view() is None,
    {
    }

    /// A clip of `range` from `asset`, without a name.
    pub fn new(asset: MediaSource, range: TimeRange) -> (c: Clip)
        ensures
            c == Clip::spec_new(asset, range),
            *c.asset() == asset,
            c.range() == range,
            c.name_view() is None,
    {
        Clip { asset, range, name: None }
    }

    /// A clip with an explicit name (used by NLE exporters for relinking).
    pub fn with_name(asset: MediaSource, range: TimeRange, name: &str) -> (c: Clip)
        ensures
            *c.asset() == asset,
            c.range() == range,
            c.name_view() == Some(name@),
    {
        Clip { asset, range, name: Some(String::from_str(name)) }
    }

    /// The asset this clip references.
    #[verifier::when_used_as_spec(spec_asset)]
    pub fn asset(&self) -> (a: &MediaSource)
        ensures
            *a == *self.spec_asset(),
    {
        &self.asset
    }

    /// The in/out range into the asset.
    #[verifier::when_used_as_spec(spec_range)]
    pub fn range(&self) -> (r: TimeRange)
        ensures
            r == self.spec_range(),
    {
        self.range
    }

    /// The clip's name, if set.
    pub fn name(&self) -> (n: Option<&str>)
        ensures
            match self.name_view() {
                Some(v) => n matches Some(s) && s@ == v,
                None => n is None,
            },
    {
        match &self.name {
            Some(n) => Some(n.as_str()),
            None => None,
        }
    }

    /// A copy of this clip.
    pub fn duplicate(&self) -> (c: Clip)
        ensures
            c == *self,
    {
        let name = match &self.name {
            Some(n) => Some(n.clone()),
            None => None,
        };
        Clip { asset: self.asset.duplicate(), range: self.range, name }
    }

    /// How long the clip occupies the track.
    pub fn duration(&self) -> (d: Seconds)
        ensures
            d == self.range().duration(),
    {
        self.range.duration()
    }
}

/// Empty space on a track.
#[derive(Clone, Copy, Debug, PartialEq, Eq, Structural)]
pub struct Gap {
    duration: Seconds,
}

impl Gap {
    /// The gap's length.
    pub closed spec fn spec_duration(self) -> Seconds {
        self.duration
    }

    /// A gap occupies a positive, exact span of time.
    pub open spec fn wf(self) -> bool {
        self.duration().wf() && self.duration().numer() > 0
    }

    /// A gap of the given strictly positive duration.
    pub fn new(duration: Seconds) -> (r: Result<Gap, TimelineError>)
        requires
            duration.wf(),
        ensures
            duration.numer() <= 0 ==> r == Err::<Gap, TimelineError>(
                TimelineError::NonPositiveDuration,
            ),
            duration.numer() > 0 ==> (r matches Ok(g) && g.wf() && g.duration() == duration),
    {
        if duration.is_negative() || duration.is_zero() {
            return Err(TimelineError::NonPositiveDuration);
        }
        Ok(Gap { duration })
    }

    /// The gap's length.
    #[verifier::when_used_as_spec(spec_duration)]
    pub fn duration(self) -> (d: Seconds)
        ensures
            d == self.spec_duration(),
    {
        self.duration
    }
}

/// An audio cross-fade between the two clips it sits between.
#[derive(Clone, Copy, Debug, PartialEq, Eq, Structural)]
pub struct Transition {
    duration: Seconds,
}

impl Transition {
    /// The transition's length.
    pub closed spec fn spec_duration(self) -> Seconds {
        self.duration
    }

    /// A transition lasts a positive, exact span of time.
    pub open spec fn wf(self) -> bool {
        self.duration().wf() && self.duration().numer() > 0
    }

    /// A cross-fade of the given strictly positive duration.
    pub fn cross_fade(duration: Seconds) -> (r: Result<Transition, TimelineError>)
        requires
            duration.wf(),
        ensures
            duration.numer() <= 0 ==> r == Err::<Transition, TimelineError>(
                TimelineError::NonPositiveDuration,
            ),
            duration.numer() > 0 ==> (r matches Ok(t) && t.wf() && t.duration() == duration),
    {
        if duration.is_negative() || duration.is_zero() {
            return Err(TimelineError::NonPositiveDuration);
        }
        Ok(Transition { duration })
    }

    /// The transition's length.
    #[verifier::when_used_as_spec(spec_duration)]
    pub fn duration(self) -> (d: Seconds)
        ensures
            d == self.spec_duration(),
    {
        self.duration
    }
}

/// One element in a track's sequence.
#[derive(Clone, Debug, PartialEq, Eq)]
pub enum TrackItem {
    /// A placed clip.
    Clip(Clip),
    /// Empty space.
    Gap(Gap),
    /// A transition between the surrounding clips.
    Transition(Transition),
}

impl TrackItem {
    /// The item's own value is well formed.
    pub open spec fn wf(&self) -> bool {
        match self {
            TrackItem::Clip(c) => c.wf(),
            TrackItem::Gap(g) => g.wf(),
            TrackItem::Transition(t) => t.wf(),
        }
    }

    /// The time the item advances its track by; a transition advances it by
    /// nothing.
    pub open spec fn span(&self) -> Option<Seconds> {
        match self {
            TrackItem::Clip(c) => Some(c.range().duration()),
            TrackItem::Gap(g) => Some(g.duration()),
            TrackItem::Transition(_) => None,
        }
    }

    /// The clip this item holds, if it is one.
    pub fn as_clip(&self) -> (c: Option<&Clip>)
        ensures
            match self {
                TrackItem::Clip(clip) => c == Some(clip),
                _ => c is None,
            },
    {
        match self {
            TrackItem::Clip(clip) => Some(clip),
            TrackItem::Gap(_) | TrackItem::Transition(_) => None,
        }
    }
}

/// Zero seconds, as a spec value.
pub open spec fn zero_seconds() -> Seconds {
    Seconds::from_raw((0, 1))
}

/// The running total of the first `i` items' spans, added with
/// `Rational64::checked_add`; `None` once a sum overflows.
pub open spec fn occupied_upto(items: Seq<TrackItem>, i: nat) -> Option<Seconds>
    decreases i,
{
    if i == 0 || i > items.len() {
        Some(zero_seconds())
    } else {
        match occupied_upto(items, (i - 1) as nat) {
            None => None,
            Some(acc) => match items[i - 1].span() {
                None => Some(acc),
                Some(x) => acc.spec_checked_add(x),
            },
        }
    }
}

/// The exact rational total `(numerator, denominator)` of the first `i`
/// items' spans.
pub open spec fn exact_total_upto(items: Seq<TrackItem>, i: nat) -> (int, int)
    decreases i,
{
    if i == 0 || i > items.len() {
        (0, 1)
    } else {
        let (n, d) = exact_total_upto(items, (i - 1) as nat);
        match items[i - 1].span() {
            None => (n, d),
            Some(x) => (n * x.denom() + x.numer() * d, d * x.denom()),
        }
    }
}

/// Each step of the running total of the first `i` items' spans fits in
/// `i64` before reduction: the unreduced total so far times the next span's
/// denominator, the next span's numerator times the total's denominator, and
/// their sum.
pub open spec fn totals_fit_upto(items: Seq<TrackItem>, i: nat) -> bool
    decreases i,
{
    if i == 0 || i > items.len() {
        true
    } else {
        totals_fit_upto(items, (i - 1) as nat) && match items[i - 1].span() {
            None => true,
            Some(x) => {
                let (n, d) = exact_total_upto(items, (i - 1) as nat);
                &&& d * x.denom() <= i64::MAX
                &&& -i64::MAX <= n * x.denom() <= i64::MAX
                &&& -i64::MAX <= x.numer() * d <= i64::MAX
                &&& -i64::MAX <= n * x.denom() + x.numer() * d <= i64::MAX
            },
        }
    }
}

/// The steps of a longer prefix fitting include those of a shorter one.
proof fn lemma_totals_fit_prefix(items: Seq<TrackItem>, i: nat, j: nat)
    requires
        i <= j <= items.len(),
        totals_fit_upto(items, j),
    ensures
        totals_fit_upto(items, i),
    decreases j - i,
{
    if i < j {
        lemma_totals_fit_prefix(items, i, (j - 1) as nat);
    }
}

/// Every item of `items` is well formed.
pub open spec fn items_wf(items: Seq<TrackItem>) -> bool {
    forall|i: int| 0 <= i < items.len() ==> (#[trigger] items[i]).wf()
}

/// What a track's construction keeps: transitions only on audio tracks and
/// only right after a clip, and no gap right after a transition.
pub open spec fn well_placed(kind: TrackKind, items: Seq<TrackItem>) -> bool {
    &&& forall|i: int|
        0 <= i < items.len() && #[trigger] items[i] is Transition ==> kind == TrackKind::Audio && i
            >= 1 && items[i - 1] is Clip
    &&& forall|i: int| 1 <= i < items.len() && #[trigger] items[i] is Gap ==> !(items[i - 1] is Transition)
}

/// Why the transition at index `i` is misplaced, if it is: it must sit
/// between two clips and be no longer than either of them.
pub open spec fn transition_error(items: Seq<TrackItem>, i: int) -> Option<TimelineError> {
    if !(1 <= i && i + 1 < items.len() && items[i - 1] is Clip && items[i + 1] is Clip) {
        Some(TimelineError::MisplacedTransition)
    } else {
        let fade = items[i]->Transition_0.duration();
        let before = items[i - 1]->Clip_0.range().duration();
        let after = items[i + 1]->Clip_0.range().duration();
        if before.spec_before(fade) || after.spec_before(fade) {
            Some(TimelineError::CrossFadeTooLong)
        } else {
            None
        }
    }
}

/// The first transition error among the first `i` items.
pub open spec fn first_transition_error(items: Seq<TrackItem>, i: nat) -> Option<TimelineError>
    decreases i,
{
    if i == 0 || i > items.len() {
        None
    } else {
        match first_transition_error(items, (i - 1) as nat) {
            Some(e) => Some(e),
            None => if items[i - 1] is Transition {
                transition_error(items, i - 1)
            } else {
                None
            },
        }
    }
}

/// Once the running total overflows it stays overflowed.
proof fn lemma_occupied_overflow_sticks(items: Seq<TrackItem>, i: nat, j: nat)
    requires
        i <= j <= items.len(),
        occupied_upto(items, i) is None,
    ensures
        occupied_upto(items, j) is None,
    decreases j - i,
{
    if i < j {
        lemma_occupied_overflow_sticks(items, i, (j - 1) as nat);
    }
}

/// Running totals over a prefix do not see items pushed after it.
proof fn lemma_occupied_prefix(items: Seq<TrackItem>, item: TrackItem, i: nat)
    requires
        i <= items.len(),
    ensures
        occupied_upto(items.push(item), i) == occupied_upto(items, i),
        exact_total_upto(items.push(item), i) == exact_total_upto(items, i),
    decreases i,
{
    if i > 0 {
        lemma_occupied_prefix(items, item, (i - 1) as nat);
        assert(items.push(item)[i - 1] == items[i - 1]);
    }
}

/// An ordered lane of clips, gaps, and transitions.
#[derive(Clone, Debug, PartialEq, Eq)]
pub struct Track {
    kind: TrackKind,
    items: Vec<TrackItem>,
}

impl Track {
    /// The track's kind.
    pub closed spec fn spec_kind(&self) -> TrackKind {
        self.kind
    }

    /// The track's items in order.
    pub closed spec fn item_seq(&self) -> Seq<TrackItem> {
        self.items@
    }

    /// Every item is well formed and placed as construction allows.
    pub open spec fn wf(&self) -> bool {
        items_wf(self.item_seq()) && well_placed(self.kind(), self.item_seq())
    }

    /// What [`occupied`](Self::occupied) computes: the running
    /// `Rational64::checked_add` total of clip and gap durations.
    pub open spec fn spec_occupied(&self) -> Option<Seconds> {
        occupied_upto(self.item_seq(), self.item_seq().len())
    }

    /// What [`validate`](Self::validate) returns.
    pub open spec fn spec_validate(&self) -> Result<(), TimelineError> {
        if self.spec_occupied() is None {
            Err(TimelineError::OccupiedOverflow)
        } else {
            match first_transition_error(self.item_seq(), self.item_seq().len()) {
                Some(e) => Err(e),
                None => Ok(()),
            }
        }
    }

    /// An empty track of the given kind.
    pub fn new(kind: TrackKind) -> (t: Track)
        ensures
            t.wf(),
            t.kind() == kind,
            t.item_seq() == Seq::<TrackItem>::empty(),
    {
        Track { kind, items: Vec::new() }
    }

    /// The track's kind.
    #[verifier::when_used_as_spec(spec_kind)]
    pub fn kind(&self) -> (k: TrackKind)
        ensures
            k == self.spec_kind(),
    {
        self.kind
    }

    /// The track's items in order.
    pub fn items(&self) -> (s: &[TrackItem])
        ensures
            s@ == self.item_seq(),
    {
        self.items.as_slice()
    }

    /// Append a clip.
    pub fn push_clip(&mut self, clip: Clip)
        requires
            old(self).wf(),
            clip.wf(),
        ensures
            final(self).wf(),
            final(self).kind() == old(self).kind(),
            final(self).item_seq() == old(self).item_seq().push(TrackItem::Clip(clip)),
    {
        self.items.push(TrackItem::Clip(clip));
    }

    /// Append a gap. Errors if the preceding item is a transition, which would
    /// strand that transition without a following clip.
    pub fn push_gap(&mut self, gap: Gap) -> (r: Result<(), TimelineError>)
        requires
            old(self).wf(),
            gap.wf(),
        ensures
            final(self).wf(),
            final(self).kind() == old(self).kind(),
            old(self).item_seq().len() > 0 && old(self).item_seq().last() is Transition ==> (r
                == Err::<(), TimelineError>(TimelineError::MisplacedTransition)
                && final(self).item_seq() == old(self).item_seq()),
            !(old(self).item_seq().len() > 0 && old(self).item_seq().last() is Transition) ==> (r
                == Ok::<(), TimelineError>(())
                && final(self).item_seq() == old(self).item_seq().push(TrackItem::Gap(gap))),
    {
        let n = self.items.len();
        if n > 0 {
            if let TrackItem::Transition(_) = &self.items[n - 1] {
                return Err(TimelineError::MisplacedTransition);
            }
        }
        self.items.push(TrackItem::Gap(gap));
        Ok(())
    }

    /// Append a transition. Errors unless this is an audio track and the
    /// preceding item is a clip; the following clip is checked by
    /// [`validate`](Self::validate).
    pub fn push_transition(&mut self, transition: Transition) -> (r: Result<(), TimelineError>)
        requires
            old(self).wf(),
            transition.wf(),
        ensures
            final(self).wf(),
            final(self).kind() == old(self).kind(),
            old(self).kind() != TrackKind::Audio ==> (r == Err::<(), TimelineError>(
                TimelineError::TransitionOnVideoTrack,
            ) && final(self).item_seq() == old(self).item_seq()),
            old(self).kind() == TrackKind::Audio && !(old(self).item_seq().len() > 0
                && old(self).item_seq().last() is Clip) ==> (r == Err::<(), TimelineError>(
                TimelineError::MisplacedTransition,
            ) && final(self).item_seq() == old(self).item_seq()),
            old(self).kind() == TrackKind::Audio && old(self).item_seq().len() > 0
                && old(self).item_seq().last() is Clip ==> (r == Ok::<(), TimelineError>(())
                && final(self).item_seq() == old(self).item_seq().push(
                TrackItem::Transition(transition),
            )),
    {
        match self.kind {
            TrackKind::Audio => {},
            TrackKind::Video => {
                return Err(TimelineError::TransitionOnVideoTrack);
            },
        }
        let n = self.items.len();
        if n == 0 {
            return Err(TimelineError::MisplacedTransition);
        }
        match &self.items[n - 1] {
            TrackItem::Clip(_) => {},
            _ => {
                return Err(TimelineError::MisplacedTransition);
            },
        }
        self.items.push(TrackItem::Transition(transition));
        Ok(())
    }

    /// The total time the track occupies: the running sum of clip and gap
    /// durations (a transition adds nothing). Errors if the sum is not
    /// representable in exact `i64` rational seconds.
    pub fn occupied(&self) -> (r: Result<Seconds, TimelineError>)
        requires
            self.wf(),
        ensures
            match self.spec_occupied() {
                Some(total) => r == Ok::<Seconds, TimelineError>(total),
                None => r == Err::<Seconds, TimelineError>(TimelineError::OccupiedOverflow),
            },
            r matches Ok(total) ==> total.wf() && total.denotes(
                exact_total_upto(self.item_seq(), self.item_seq().len()).0,
                exact_total_upto(self.item_seq(), self.item_seq().len()).1,
            ),
            totals_fit_upto(self.item_seq(), self.item_seq().len()) ==> r is Ok,
    {
        let n = self.items.len();
        let mut acc = Seconds::zero();
        let mut i: usize = 0;
        while i < n
            invariant
                n == self.item_seq().len(),
                i <= n,
                items_wf(self.item_seq()),
                occupied_upto(self.item_seq(), i as nat) == Some(acc),
                acc.wf(),
                exact_total_upto(self.item_seq(), i as nat).1 > 0,
                acc.denotes(
                    exact_total_upto(self.item_seq(), i as nat).0,
                    exact_total_upto(self.item_seq(), i as nat).1,
                ),
            decreases n - i,
        {
            let item = &self.items[i];
            assert(item.wf());
            let span = match item {
                TrackItem::Clip(clip) => Some(clip.duration()),
                TrackItem::Gap(gap) => Some(gap.duration()),
                TrackItem::Transition(_) => None,
            };
            match span {
                None => {},
                Some(x) => {
                    proof {
                        assert(x.wf()) by {
                            match item {
                                TrackItem::Clip(clip) => {
                                    clip.range().lemma_end();
                                },
                                _ => {},
                            }
                        }
                    }
                    match acc.checked_add(x) {
                        Some(sum) => {
                            proof {
                                let (tn, td) = exact_total_upto(self.item_seq(), i as nat);
                                lemma_sum_denotes(acc, x, sum, tn, td);
                            }
                            acc = sum;
                        },
                        None => {
                            proof {
                                if totals_fit_upto(self.item_seq(), n as nat) {
                                    lemma_totals_fit_prefix(self.item_seq(), (i + 1) as nat, n as nat);
                                    let (tn, td) = exact_total_upto(self.item_seq(), i as nat);
                                    lemma_step_fits(acc, x, tn, td);
                                }
                                lemma_occupied_overflow_sticks(
                                    self.item_seq(),
                                    (i + 1) as nat,
                                    n as nat,
                                );
                            }
                            return Err(TimelineError::OccupiedOverflow);
                        },
                    }
                },
            }
            i = i + 1;
        }
        Ok(acc)
    }

    /// Validate the transition at `index`: it must sit between two clips and,
    /// as an overlap, be no longer than either clip it joins.
    fn validate_transition(&self, index: usize, transition: &Transition) -> (r: Result<
        (),
        TimelineError,
    >)
        requires
            index < self.item_seq().len(),
            self.item_seq()[index as int] == TrackItem::Transition(*transition),
        ensures
            match transition_error(self.item_seq(), index as int) {
                Some(e) => r == Err::<(), TimelineError>(e),
                None => r == Ok::<(), TimelineError>(()),
            },
    {
        let n = self.items.len();
        if index == 0 || index + 1 >= n {
            return Err(TimelineError::MisplacedTransition);
        }
        let prev = self.items[index - 1].as_clip();
        let next = self.items[index + 1].as_clip();
        match (prev, next) {
            (Some(prev_clip), Some(next_clip)) => {
                let fade = transition.duration();
                if prev_clip.duration().before(fade) || next_clip.duration().before(fade) {
                    Err(TimelineError::CrossFadeTooLong)
                } else {
                    Ok(())
                }
            },
            _ => Err(TimelineError::MisplacedTransition),
        }
    }

    /// Validate structure: the occupied duration is representable, every
    /// transition sits between two clips, and no cross-fade is longer than
    /// either clip it joins.
    pub fn validate(&self) -> (r: Result<(), TimelineError>)
        requires
            self.wf(),
        ensures
            r == self.spec_validate(),
            totals_fit_upto(self.item_seq(), self.item_seq().len()) && first_transition_error(
                self.item_seq(),
                self.item_seq().len(),
            ) is None ==> r is Ok,
    {
        if self.occupied().is_err() {
            return Err(TimelineError::OccupiedOverflow);
        }
        let n = self.items.len();
        let mut i: usize = 0;
        while i < n
            invariant
                n == self.item_seq().len(),
                i <= n,
                self.spec_occupied() is Some,
                first_transition_error(self.item_seq(), i as nat) is None,
            decreases n - i,
        {
            if let TrackItem::Transition(transition) = &self.items[i] {
                let checked = self.validate_transition(i, transition);
                if let Err(e) = checked {
                    proof {
                        lemma_first_error_sticks(self.item_seq(), (i + 1) as nat, n as nat);
                    }
                    return Err(e);
                }
            }
            i = i + 1;
        }
        Ok(())
    }
}

/// A cross-fade longer than the clip before it or the clip after it fails
/// validation: the track does not validate, and where nothing earlier in it
/// is wrong the error is `CrossFadeTooLong`.
pub proof fn lemma_long_fade_fails(track: Track, i: int)
    requires
        1 <= i && i + 1 < track.item_seq().len(),
        track.item_seq()[i] matches TrackItem::Transition(fade) && track.item_seq()[i - 1] matches TrackItem::Clip(
            before,
        ) && track.item_seq()[i + 1] matches TrackItem::Clip(after) && (before.range().duration().spec_before(
            fade.duration(),
        ) || after.range().duration().spec_before(fade.duration())),
    ensures
        track.spec_validate() is Err,
        track.spec_occupied() is Some && first_transition_error(track.item_seq(), i as nat) is None
            ==> track.spec_validate() == Err::<(), TimelineError>(TimelineError::CrossFadeTooLong),
{
    let items = track.item_seq();
    let n = items.len();
    if first_transition_error(items, i as nat) is Some {
        lemma_first_error_sticks(items, i as nat, n);
    } else {
        assert(transition_error(items, i) == Some(TimelineError::CrossFadeTooLong));
        assert(first_transition_error(items, (i + 1) as nat) == Some(TimelineError::CrossFadeTooLong));
        lemma_first_error_sticks(items, (i + 1) as nat, n);
    }
}

/// A transition that does not sit between two clips fails validation: the
/// track does not validate, and where nothing earlier in it is wrong the
/// error is `MisplacedTransition`.
pub proof fn lemma_misplaced_transition_fails(track: Track, i: int)
    requires
        0 <= i < track.item_seq().len(),
        track.item_seq()[i] is Transition,
        !(1 <= i && i + 1 < track.item_seq().len() && track.item_seq()[i - 1] is Clip
            && track.item_seq()[i + 1] is Clip),
    ensures
        track.spec_validate() is Err,
        track.spec_occupied() is Some && first_transition_error(track.item_seq(), i as nat) is None
            ==> track.spec_validate() == Err::<(), TimelineError>(TimelineError::MisplacedTransition),
{
    let items = track.item_seq();
    let n = items.len();
    if first_transition_error(items, i as nat) is Some {
        lemma_first_error_sticks(items, i as nat, n);
    } else {
        assert(first_transition_error(items, (i + 1) as nat) == Some(TimelineError::MisplacedTransition));
        lemma_first_error_sticks(items, (i + 1) as nat, n);
    }
}

/// Transitions that each sit between two clips and are no longer than
/// either of them raise no transition error.
pub proof fn lemma_fitting_fades_pass(items: Seq<TrackItem>, i: nat)
    requires
        i <= items.len(),
        forall|k: int|
            0 <= k < i && #[trigger] items[k] is Transition ==> {
                &&& 1 <= k && k + 1 < items.len()
                &&& items[k - 1] matches TrackItem::Clip(before)
                &&& items[k + 1] matches TrackItem::Clip(after)
                &&& !before.range().duration().spec_before(items[k]->Transition_0.duration())
                &&& !after.range().duration().spec_before(items[k]->Transition_0.duration())
            },
    ensures
        first_transition_error(items, i) is None,
    decreases i,
{
    if i > 0 {
        lemma_fitting_fades_pass(items, (i - 1) as nat);
        if items[i - 1] is Transition {
            assert(items[(i - 1) as int] is Transition);
        }
    }
}

/// Once a transition error is found it stays the first one.
proof fn lemma_first_error_sticks(items: Seq<TrackItem>, i: nat, j: nat)
    requires
        i <= j <= items.len(),
        first_transition_error(items, i) is Some,
    ensures
        first_transition_error(items, j) == first_transition_error(items, i),
    decreases j - i,
{
    if i < j {
        lemma_first_error_sticks(items, i, (j - 1) as nat);
    }
}

/// A transition adds no time: appending one leaves the occupied total as it
/// was, while appending a clip or gap adds its duration.
pub proof fn lemma_occupied_step(items: Seq<TrackItem>, item: TrackItem)
    ensures
        occupied_upto(items.push(item), items.len() + 1) == match occupied_upto(
            items,
            items.len(),
        ) {
            None => None,
            Some(acc) => match item.span() {
                None => Some(acc),
                Some(x) => acc.spec_checked_add(x),
            },
        },
        item is Transition ==> occupied_upto(items.push(item), items.len() + 1) == occupied_upto(
            items,
            items.len(),
        ),
{
    lemma_occupied_prefix(items, item, items.len());
}

/// A track whose every transition is flanked by clips, and no longer than
/// either of them, validates whenever its occupied total is representable.
pub proof fn lemma_flanked_transitions_validate(track: Track)
    requires
        track.wf(),
        track.spec_occupied() is Some,
        forall|i: int|
            0 <= i < track.item_seq().len() && #[trigger] track.item_seq()[i] is Transition ==> i
                + 1 < track.item_seq().len() && track.item_seq()[i + 1] is Clip
                && !track.item_seq()[i - 1]->Clip_0.range().duration().spec_before(
                track.item_seq()[i]->Transition_0.duration(),
            ) && !track.item_seq()[i + 1]->Clip_0.range().duration().spec_before(
                track.item_seq()[i]->Transition_0.duration(),
            ),
    ensures
        track.spec_validate() == Ok::<(), TimelineError>(()),
{
    let items = track.item_seq();
    assert forall|k: nat| k <= items.len() implies first_transition_error(items, k) is None by {
        lemma_no_transition_error(track, k);
    }
}

proof fn lemma_no_transition_error(track: Track, k: nat)
    requires
        track.wf(),
        k <= track.item_seq().len(),
        forall|i: int|
            0 <= i < track.item_seq().len() && #[trigger] track.item_seq()[i] is Transition ==> i
                + 1 < track.item_seq().len() && track.item_seq()[i + 1] is Clip
                && !track.item_seq()[i - 1]->Clip_0.range().duration().spec_before(
                track.item_seq()[i]->Transition_0.duration(),
            ) && !track.item_seq()[i + 1]->Clip_0.range().duration().spec_before(
                track.item_seq()[i]->Transition_0.duration(),
            ),
    ensures
        first_transition_error(track.item_seq(), k) is None,
    decreases k,
{
    let items = track.item_seq();
    if k > 0 {
        lemma_no_transition_error(track, (k - 1) as nat);
        if items[k - 1] is Transition {
            assert(items[k - 1] is Transition);
        }
    }
}

} // verus!
