//! Errors produced when constructing or validating timeline IR values.
use vstd::prelude::*;

use crate::asset::MediaSource;

verus! {

/// Failure building or validating a timeline IR value.
#[derive(Clone, Debug, PartialEq, Eq)]
pub enum TimelineError {
    /// A rational time was constructed with a zero denominator.
    ZeroDenominator,
    /// A rational time was constructed with a negative denominator; the sign
    /// belongs on the numerator.
    NegativeDenominator,
    /// A frame rate numerator or denominator was zero.
    NonPositiveFrameRate,
    /// A sample rate was zero.
    ZeroSampleRate,
    /// An explicit channel count was zero.
    ZeroChannelCount,
    /// A duration was negative where a non-negative value is required.
    NegativeDuration,
    /// A duration was zero or negative where a strictly positive value is
    /// required (gaps and transitions must occupy time).
    NonPositiveDuration,
    /// A media asset carries neither a video nor an audio stream.
    AssetWithoutStreams,
    /// Two assets were registered under the same source.
    DuplicateAsset(MediaSource),
    /// A clip referenced an asset not registered in the timeline.
    UnknownAsset(MediaSource),
    /// A clip's source range has zero duration.
    EmptyClip,
    /// A clip's source range starts before zero or ends after its asset.
    ClipOutOfAssetBounds,
    /// A time range's exclusive end is not representable in exact `i64`
    /// rational seconds.
    TimeRangeOverflow,
    /// The summed duration of a track's items is not representable.
    OccupiedOverflow,
    /// A transition was placed somewhere other than between two clips.
    MisplacedTransition,
    /// An audio cross-fade was placed on a track that is not an audio track.
    TransitionOnVideoTrack,
    /// A cross-fade is longer than one of the clips it sits between.
    CrossFadeTooLong,
    /// A clip's track kind does not match the streams its asset carries.
    TrackAssetStreamMismatch,
}

} // verus!
