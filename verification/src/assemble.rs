//! Assemble a trimmed timeline from silence-detection keep regions.
//!
//! Keep regions are the spans of a source worth keeping. Each becomes a clip of
//! the source, and the clips are laid back to back so the dead air between them
//! is removed: the assembled timeline is the rough cut an editor starts from.
use vstd::prelude::*;

use crate::asset::{MediaAsset, MediaSource};
use crate::error::TimelineError;
use crate::time::{FrameRate, Seconds, TimeRange};
use crate::timeline::{
    clip_error, find_asset, first_clip_error, first_track_error, track_error, Timeline,
};
use crate::track::{
    exact_total_upto, first_transition_error, occupied_upto, totals_fit_upto, zero_seconds, Clip,
    Track, TrackItem, TrackKind,
};

verus! {

broadcast use {Clip::lemma_spec_new, Seconds::lemma_from_raw};

/// Failure assembling a timeline from keep regions.
#[derive(Clone, Debug, PartialEq, Eq)]
pub enum AssembleError {
    /// Keep region `index` starts before the previous region ends: regions must
    /// be ascending and non-overlapping.
    RegionsNotAscending {
        /// The position of the offending region in the input.
        index: usize,
    },
    /// Keep region `index` starts before the source begins or reaches past its
    /// end.
    RegionOutsideSource {
        /// The position of the offending region in the input.
        index: usize,
    },
    /// Keep region `index` has zero duration.
    EmptyRegion {
        /// The position of the offending region in the input.
        index: usize,
    },
    /// The assembled timeline failed the timeline IR's own validation.
    InvalidTimeline(TimelineError),
}

/// The track a source belongs on: video if it carries a video stream,
/// otherwise audio.
pub open spec fn kind_for(asset: MediaAsset) -> TrackKind {
    if asset.video() is Some {
        TrackKind::Video
    } else {
        TrackKind::Audio
    }
}

/// The end of the region before `index`, or zero for the first region.
pub open spec fn previous_end(regions: Seq<TimeRange>, index: int) -> Seconds {
    if index == 0 {
        zero_seconds()
    } else {
        regions[index - 1].end()
    }
}

/// Why region `index` cannot be kept from a source of `length`, if it cannot.
pub open spec fn region_error(regions: Seq<TimeRange>, length: Seconds, index: int) -> Option<
    AssembleError,
> {
    let region = regions[index];
    if region.duration().numer() == 0 {
        Some(AssembleError::EmptyRegion { index: index as usize })
    } else if region.start().numer() < 0 || length.spec_before(region.end()) {
        Some(AssembleError::RegionOutsideSource { index: index as usize })
    } else if region.start().spec_before(previous_end(regions, index)) {
        Some(AssembleError::RegionsNotAscending { index: index as usize })
    } else {
        None
    }
}

/// The first region error among the first `i` regions.
pub open spec fn first_region_error(regions: Seq<TimeRange>, length: Seconds, i: nat) -> Option<
    AssembleError,
>
    decreases i,
{
    if i == 0 || i > regions.len() {
        None
    } else {
        match first_region_error(regions, length, (i - 1) as nat) {
            Some(e) => Some(e),
            None => region_error(regions, length, i - 1),
        }
    }
}

/// The assembled track's items: one clip of `source` per region, in order.
pub open spec fn assembled_items(source: MediaSource, regions: Seq<TimeRange>) -> Seq<TrackItem> {
    Seq::new(regions.len(), |i: int| TrackItem::Clip(Clip::spec_new(source, regions[i])))
}

/// The track a source belongs on: video if it carries a video stream (its
/// audio rides with the clip), otherwise audio.
pub fn track_kind(asset: &MediaAsset) -> (k: TrackKind)
    ensures
        k == kind_for(*asset),
{
    if asset.video().is_some() {
        TrackKind::Video
    } else {
        TrackKind::Audio
    }
}

proof fn lemma_region_error_sticks(regions: Seq<TimeRange>, length: Seconds, i: nat, j: nat)
    requires
        i <= j <= regions.len(),
        first_region_error(regions, length, i) is Some,
    ensures
        first_region_error(regions, length, j) == first_region_error(regions, length, i),
    decreases j - i,
{
    if i < j {
        lemma_region_error_sticks(regions, length, i, (j - 1) as nat);
    }
}

/// With no region error, every region is a non-empty span inside the source.
proof fn lemma_regions_fit(regions: Seq<TimeRange>, length: Seconds, i: nat, k: int)
    requires
        i <= regions.len(),
        0 <= k < i,
        first_region_error(regions, length, i) is None,
    ensures
        region_error(regions, length, k) is None,
    decreases i,
{
    if k < i - 1 {
        lemma_regions_fit(regions, length, (i - 1) as nat, k);
    }
}

/// A track of clips only has no transition errors.
proof fn lemma_clips_have_no_transition_error(items: Seq<TrackItem>, i: nat)
    requires
        i <= items.len(),
        forall|k: int| 0 <= k < items.len() ==> #[trigger] items[k] is Clip,
    ensures
        first_transition_error(items, i) is None,
    decreases i,
{
    if i > 0 {
        lemma_clips_have_no_transition_error(items, (i - 1) as nat);
        assert(items[i - 1] is Clip);
    }
}

/// The assembled clips pass the timeline's per-clip checks against the one
/// registered asset.
proof fn lemma_assembled_clips_fit(
    asset: MediaAsset,
    regions: Seq<TimeRange>,
    i: nat,
)
    requires
        asset.wf(),
        i <= regions.len(),
        first_region_error(regions, asset.duration(), regions.len()) is None,
        forall|k: int| 0 <= k < regions.len() ==> (#[trigger] regions[k]).wf(),
    ensures
        first_clip_error(
            seq![asset],
            kind_for(asset),
            assembled_items(*asset.source(), regions),
            i,
        ) is None,
    decreases i,
{
    let items = assembled_items(*asset.source(), regions);
    if i > 0 {
        lemma_assembled_clips_fit(asset, regions, (i - 1) as nat);
        let k = i - 1;
        lemma_regions_fit(regions, asset.duration(), regions.len(), k);
        let clip = Clip::spec_new(*asset.source(), regions[k]);
        assert(items[k] == TrackItem::Clip(clip));
        assert(find_asset(seq![asset], asset.source()@) == Some(asset)) by {
            reveal_with_fuel(crate::timeline::first_asset_upto, 2);
        }
        assert(clip_error(seq![asset], kind_for(asset), clip) is None);
    }
}

/// Assemble `keep_regions` of `asset` into a trimmed [`Timeline`] named
/// `name` at `frame_rate`.
///
/// Each keep region becomes a clip of the source in order, laid end to end so
/// the dead air between regions is dropped. The track is video when the source
/// carries a video stream, otherwise audio. Each region must be a non-empty
/// span within the source, and the regions ascending and non-overlapping; the
/// first region to break that is reported by its index.
pub fn assemble(name: &str, frame_rate: FrameRate, asset: MediaAsset, keep_regions: &[TimeRange]) -> (r:
    Result<Timeline, AssembleError>)
    requires
        frame_rate.wf(),
        asset.wf(),
        forall|k: int| 0 <= k < keep_regions@.len() ==> (#[trigger] keep_regions@[k]).wf(),
    ensures
        match first_region_error(keep_regions@, asset.duration(), keep_regions@.len()) {
            Some(e) => r == Err::<Timeline, AssembleError>(e),
            None => if occupied_upto(
                assembled_items(*asset.source(), keep_regions@),
                keep_regions@.len(),
            ) is None {
                r == Err::<Timeline, AssembleError>(
                    AssembleError::InvalidTimeline(TimelineError::OccupiedOverflow),
                )
            } else {
                r matches Ok(t) && t.wf() && t.spec_validate() == Ok::<(), TimelineError>(())
                    && t.name_view() == name@ && t.frame_rate() == frame_rate && t.asset_seq()
                    == seq![asset] && t.track_seq().len() == 1 && t.track_seq()[0].kind()
                    == kind_for(asset) && t.track_seq()[0].item_seq() == assembled_items(
                    *asset.source(),
                    keep_regions@,
                )
            },
        },
        first_region_error(keep_regions@, asset.duration(), keep_regions@.len()) is None
            && totals_fit_upto(
            assembled_items(*asset.source(), keep_regions@),
            keep_regions@.len(),
        ) ==> r is Ok,
{
    let kind = track_kind(&asset);
    let source = asset.source().duplicate();
    let source_duration = asset.duration();
    let n = keep_regions.len();
    let mut previous = Seconds::zero();
    let mut index: usize = 0;
    while index < n
        invariant
            n == keep_regions@.len(),
            index <= n,
            forall|k: int| 0 <= k < keep_regions@.len() ==> (#[trigger] keep_regions@[k]).wf(),
            first_region_error(keep_regions@, source_duration, index as nat) is None,
            previous == previous_end(keep_regions@, index as int),
            source_duration == asset.duration(),
        decreases n - index,
    {
        let region = keep_regions[index];
        assert(region.wf());
        let failure = if region.duration().is_zero() {
            Some(AssembleError::EmptyRegion { index })
        } else if region.start().is_negative() || source_duration.before(region.end()) {
            Some(AssembleError::RegionOutsideSource { index })
        } else if region.start().before(previous) {
            Some(AssembleError::RegionsNotAscending { index })
        } else {
            None
        };
        if let Some(e) = failure {
            proof {
                lemma_region_error_sticks(
                    keep_regions@,
                    source_duration,
                    (index + 1) as nat,
                    n as nat,
                );
            }
            return Err(e);
        }
        previous = region.end();
        index = index + 1;
    }
    let ghost regions = keep_regions@;
    let mut timeline = Timeline::new(name, frame_rate);
    let added = timeline.add_asset(asset);
    assert(added is Ok);
    let mut track = Track::new(kind);
    let mut i: usize = 0;
    while i < n
        invariant
            n == regions.len(),
            regions == keep_regions@,
            i <= n,
            forall|k: int| 0 <= k < regions.len() ==> (#[trigger] regions[k]).wf(),
            track.wf(),
            track.kind() == kind,
            track.item_seq() == assembled_items(source, regions).take(i as int),
        decreases n - i,
    {
        let region = keep_regions[i];
        assert(region.wf());
        track.push_clip(Clip::new(source.duplicate(), region));
        assert(track.item_seq() =~= assembled_items(source, regions).take(i + 1));
        i = i + 1;
    }
    assert(track.item_seq() =~= assembled_items(source, regions));
    let ghost built = track;
    timeline.add_track(track);
    let checked = timeline.validate();
    proof {
        let items = assembled_items(source, regions);
        assert(timeline.track_seq() =~= seq![built]);
        assert(timeline.asset_seq() =~= seq![asset]);
        assert forall|k: int| 0 <= k < items.len() implies #[trigger] items[k] is Clip by {}
        lemma_clips_have_no_transition_error(items, items.len());
        lemma_assembled_clips_fit(asset, regions, regions.len());
        assert(first_track_error(timeline.asset_seq(), timeline.track_seq(), 1) == track_error(
            timeline.asset_seq(),
            built,
        )) by {
            reveal_with_fuel(first_track_error, 2);
        }
        if totals_fit_upto(items, regions.len()) {
            assert(timeline.track_seq()[0] == built);
            assert(timeline.steps_sound());
        }
    }
    match checked {
        Ok(()) => Ok(timeline),
        Err(e) => Err(AssembleError::InvalidTimeline(e)),
    }
}

/// The assembled track runs exactly as long as the kept spans together: its
/// exact total is the sum of the regions' durations, whatever the dead air
/// between them.
pub proof fn lemma_assembled_length(source: MediaSource, regions: Seq<TimeRange>, i: nat)
    requires
        i <= regions.len(),
    ensures
        exact_total_upto(assembled_items(source, regions), i) == region_total(regions, i),
    decreases i,
{
    if i > 0 {
        lemma_assembled_length(source, regions, (i - 1) as nat);
    }
}

/// The exact rational sum `(numerator, denominator)` of the first `i`
/// regions' durations.
pub open spec fn region_total(regions: Seq<TimeRange>, i: nat) -> (int, int)
    decreases i,
{
    if i == 0 || i > regions.len() {
        (0, 1)
    } else {
        let (n, d) = region_total(regions, (i - 1) as nat);
        let x = regions[i - 1].duration();
        (n * x.denom() + x.numer() * d, d * x.denom())
    }
}

} // verus!
