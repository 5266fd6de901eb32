use hollywood::asset::{AudioProperties, ChannelLayout, MediaAsset, MediaSource, VideoProperties};
use hollywood::error::TimelineError;
use hollywood::time::{FrameRate, SampleRate, Seconds, TimeRange};
use hollywood::timeline::Timeline;
use hollywood::track::{Clip, Gap, Track, TrackItem, TrackKind, Transition};

fn secs(n: i64) -> Seconds {
    Seconds::from_secs(n)
}

// ----- time -----

#[test]
fn frames_convert_to_exact_seconds() {
    let rate = FrameRate::new(30000, 1001).unwrap();
    // 30000 frames at 29.97 fps is exactly 1001 seconds, with no drift.
    assert_eq!(Seconds::from_frames(30000, rate), secs(1001));
}

#[test]
fn seconds_round_trip_through_frames() {
    let rate = FrameRate::whole(24).unwrap();
    assert_eq!(secs(2).to_frames(rate), 48);
    assert_eq!(Seconds::from_frames(48, rate).to_frames(rate), 48);
}

#[test]
fn samples_convert_to_exact_seconds() {
    let rate = SampleRate::new(48_000).unwrap();
    assert_eq!(Seconds::from_samples(48_000, rate), secs(1));
    assert_eq!(Seconds::from_samples(24_000, rate), Seconds::new(1, 2).unwrap());
}

#[test]
fn seconds_convert_to_samples() {
    let rate = SampleRate::new(48_000).unwrap();
    assert_eq!(secs(1).to_samples(rate), 48_000);
    assert_eq!(Seconds::new(1, 2).unwrap().to_samples(rate), 24_000);
    // Sub-sample durations round to the nearest sample (1.2 samples -> 1).
    assert_eq!(Seconds::new(1, 40_000).unwrap().to_samples(rate), 1);
}

#[test]
fn zero_denominator_is_rejected() {
    assert_eq!(Seconds::new(1, 0), Err(TimelineError::ZeroDenominator));
}

#[test]
fn negative_denominator_is_rejected() {
    assert_eq!(Seconds::new(1, -1), Err(TimelineError::NegativeDenominator));
}

#[test]
fn rates_reject_zero() {
    assert_eq!(FrameRate::new(0, 1), Err(TimelineError::NonPositiveFrameRate));
    assert_eq!(FrameRate::new(30, 0), Err(TimelineError::NonPositiveFrameRate));
    assert_eq!(SampleRate::new(0), Err(TimelineError::ZeroSampleRate));
}

#[test]
fn arithmetic_and_ordering() {
    let one = secs(1);
    let half = Seconds::new(1, 2).unwrap();
    assert_eq!(one.checked_add(half).unwrap(), Seconds::new(3, 2).unwrap());
    assert_eq!(one.checked_sub(half).unwrap(), half);
    assert!(one.checked_sub(one).unwrap().is_zero());
    assert!(half.checked_sub(one).unwrap().is_negative());
    assert!(half < one);
}

#[test]
fn checked_arithmetic_guards_overflow() {
    assert_eq!(secs(2).checked_add(secs(3)), Some(secs(5)));
    let huge = Seconds::new(i64::MAX, 1).unwrap();
    assert_eq!(huge.checked_add(secs(1)), None);
}

#[test]
fn time_range_rejects_negative_duration() {
    let neg = Seconds::new(-1, 1).unwrap();
    assert_eq!(TimeRange::new(Seconds::zero(), neg), Err(TimelineError::NegativeDuration));
}

#[test]
fn time_range_rejects_unrepresentable_end() {
    // start + duration overflows i64, so the end is rejected at construction.
    let near_max = Seconds::new(i64::MAX, 1).unwrap();
    let one = secs(1);
    assert_eq!(TimeRange::new(near_max, one), Err(TimelineError::TimeRangeOverflow));
}

#[test]
fn time_range_contains_and_overlaps() {
    let a = TimeRange::new(secs(0), secs(10)).unwrap();
    let b = TimeRange::new(secs(5), secs(10)).unwrap();
    let c = TimeRange::new(secs(10), secs(5)).unwrap();
    assert_eq!(a.end(), secs(10));
    assert!(a.contains(secs(0)));
    assert!(!a.contains(secs(10)));
    assert!(a.overlaps(b));
    assert!(!a.overlaps(c));
}

#[test]
fn rationals_are_kept_in_lowest_terms() {
    let third = Seconds::new(2, 6).unwrap();
    assert_eq!((third.numer(), third.denom()), (1, 3));
    let negative = Seconds::new(-4, 8).unwrap();
    assert_eq!((negative.numer(), negative.denom()), (-1, 2));
    assert_eq!(Seconds::new(0, 7).unwrap(), Seconds::zero());
}

#[test]
fn checked_sub_guards_overflow() {
    let low = Seconds::new(i64::MIN + 1, 1).unwrap();
    assert_eq!(low.checked_sub(secs(2)), None);
    assert_eq!(secs(5).checked_sub(secs(2)), Some(secs(3)));
}

#[test]
fn ordering_compares_across_denominators() {
    let third = Seconds::new(1, 3).unwrap();
    let half = Seconds::new(1, 2).unwrap();
    assert!(third.before(half));
    assert!(!half.before(third));
    assert!(third.at_or_before(third));
    assert!(!half.at_or_before(third));
    assert!(third < half && half > third);
    assert!(third <= Seconds::new(2, 6).unwrap() && third >= Seconds::new(1, 3).unwrap());
    assert_eq!(Seconds::new(-1, 2).unwrap().partial_cmp(&Seconds::zero()), Some(std::cmp::Ordering::Less));
}

#[test]
fn whole_rates_report_their_fps() {
    assert_eq!(FrameRate::whole(25).unwrap().as_whole(), Some(25));
    assert_eq!(FrameRate::new(30000, 1001).unwrap().as_whole(), None);
    assert_eq!(FrameRate::new(60, 2).unwrap().as_whole(), Some(30));
    assert_eq!(SampleRate::new(44_100).unwrap().hertz(), 44_100);
}

#[test]
fn to_samples_rounds_half_away_from_zero() {
    let rate = SampleRate::new(2).unwrap();
    // 1/4 s at 2 Hz is half a sample: rounds away from zero.
    assert_eq!(Seconds::new(1, 4).unwrap().to_samples(rate), 1);
    assert_eq!(Seconds::new(-1, 4).unwrap().to_samples(rate), -1);
    assert_eq!(Seconds::new(1, 4).unwrap().checked_to_samples(rate), Some(1));
}

#[test]
fn from_origin_starts_at_zero() {
    let range = TimeRange::from_origin(secs(4)).unwrap();
    assert_eq!(range.start(), Seconds::zero());
    assert_eq!(range.duration(), secs(4));
    assert_eq!(range.end(), secs(4));
    assert_eq!(TimeRange::from_origin(Seconds::new(-1, 2).unwrap()), Err(TimelineError::NegativeDuration));
}

// ----- assets -----

fn stereo() -> AudioProperties {
    AudioProperties { sample_rate: SampleRate::new(48_000).unwrap(), channels: ChannelLayout::Stereo }
}

fn asset(duration: Seconds) -> Result<MediaAsset, TimelineError> {
    MediaAsset::new(MediaSource::file("a.mov"), duration, None, Some(stereo()))
}

#[test]
fn asset_with_a_stream_is_accepted() {
    let media = asset(secs(10)).unwrap();
    assert_eq!(media.audio(), Some(stereo()));
}

#[test]
fn asset_without_any_stream_is_rejected() {
    assert_eq!(
        MediaAsset::new(MediaSource::file("a.mov"), secs(10), None, None),
        Err(TimelineError::AssetWithoutStreams)
    );
}

#[test]
fn zero_duration_asset_is_rejected() {
    assert_eq!(asset(Seconds::zero()), Err(TimelineError::NonPositiveDuration));
}

#[test]
fn negative_duration_asset_is_rejected() {
    let negative = Seconds::new(-1, 1).unwrap();
    assert_eq!(asset(negative), Err(TimelineError::NonPositiveDuration));
}

#[test]
fn channels_rejects_zero() {
    assert_eq!(ChannelLayout::channels(0), Err(TimelineError::ZeroChannelCount));
}

#[test]
fn channel_count_is_non_zero_for_every_layout() {
    assert_eq!(ChannelLayout::Mono.count(), 1);
    assert_eq!(ChannelLayout::Stereo.count(), 2);
    assert_eq!(ChannelLayout::channels(6).unwrap().count(), 6);
}

#[test]
fn channels_canonicalizes_mono_and_stereo() {
    assert_eq!(ChannelLayout::channels(1).unwrap(), ChannelLayout::Mono);
    assert_eq!(ChannelLayout::channels(2).unwrap(), ChannelLayout::Stereo);
    assert_eq!(ChannelLayout::channels(6).unwrap(), ChannelLayout::Channels(6));
}

#[test]
fn file_name_returns_the_leaf() {
    assert_eq!(MediaSource::file("/footage/day1/a001.mov").file_name(), Some("a001.mov"));
}

#[test]
fn file_name_is_none_without_a_leaf() {
    assert_eq!(MediaSource::file("/").file_name(), None);
}

#[test]
fn file_identity_ignores_redundant_path_segments() {
    assert_eq!(MediaSource::file("./a.mov"), MediaSource::file("a.mov"));
    assert_eq!(MediaSource::file("a/./b.mov"), MediaSource::file("a/b.mov"));
    assert_eq!(MediaSource::file("a//b.mov"), MediaSource::file("a/b.mov"));
}

#[test]
fn normalization_keeps_parent_segments_and_the_root() {
    assert_eq!(MediaSource::file("/a/../b").path(), "/a/../b");
    assert_eq!(MediaSource::file("./").path(), ".");
    assert_eq!(MediaSource::file("/./").path(), "/");
    assert_eq!(MediaSource::file("a/b/").path(), "a/b");
    assert_eq!(MediaSource::file("x/..").file_name(), None);
}

#[test]
fn channel_counts_round_trip_through_the_layout() {
    for count in 1..=8u16 {
        assert_eq!(ChannelLayout::channels(count).unwrap().count(), count);
    }
}

// ----- tracks -----

fn clip(seconds: i64) -> Clip {
    let range = TimeRange::from_origin(secs(seconds)).unwrap();
    Clip::new(MediaSource::file("a.mov"), range)
}

#[test]
fn track_occupied_sums_clips_and_gaps_but_not_transitions() {
    let mut track = Track::new(TrackKind::Audio);
    track.push_clip(clip(3));
    track.push_transition(Transition::cross_fade(secs(1)).unwrap()).unwrap();
    track.push_clip(clip(2));
    track.push_gap(Gap::new(secs(4)).unwrap()).unwrap();
    assert_eq!(track.occupied(), Ok(secs(9)));
}

#[test]
fn track_transition_must_follow_a_clip() {
    let mut track = Track::new(TrackKind::Audio);
    let result = track.push_transition(Transition::cross_fade(secs(1)).unwrap());
    assert_eq!(result, Err(TimelineError::MisplacedTransition));
}

#[test]
fn transition_is_rejected_on_a_video_track() {
    let mut track = Track::new(TrackKind::Video);
    track.push_clip(clip(2));
    let result = track.push_transition(Transition::cross_fade(secs(1)).unwrap());
    assert_eq!(result, Err(TimelineError::TransitionOnVideoTrack));
}

#[test]
fn gap_is_rejected_immediately_after_a_transition() {
    let mut track = Track::new(TrackKind::Audio);
    track.push_clip(clip(2));
    track.push_transition(Transition::cross_fade(secs(1)).unwrap()).unwrap();
    assert_eq!(track.push_gap(Gap::new(secs(1)).unwrap()), Err(TimelineError::MisplacedTransition));
}

#[test]
fn track_transition_must_precede_a_clip() {
    let mut track = Track::new(TrackKind::Audio);
    track.push_clip(clip(2));
    track.push_transition(Transition::cross_fade(secs(1)).unwrap()).unwrap();
    // No clip after the transition: validation must fail.
    assert_eq!(track.validate(), Err(TimelineError::MisplacedTransition));
}

#[test]
fn track_well_formed_track_validates() {
    let mut track = Track::new(TrackKind::Audio);
    track.push_clip(clip(2));
    track.push_transition(Transition::cross_fade(secs(1)).unwrap()).unwrap();
    track.push_clip(clip(2));
    assert_eq!(track.validate(), Ok(()));
}

#[test]
fn track_zero_cross_fade_is_rejected() {
    assert_eq!(Transition::cross_fade(Seconds::zero()), Err(TimelineError::NonPositiveDuration));
}

#[test]
fn new_clip_has_no_name() {
    assert_eq!(clip(2).name(), None);
}

#[test]
fn named_clip_keeps_its_name() {
    let named = Clip::with_name(MediaSource::file("a.mov"), TimeRange::from_origin(secs(2)).unwrap(), "intro");
    assert_eq!(named.name(), Some("intro"));
    assert_eq!(named.duration(), secs(2));
}

#[test]
fn cross_fade_longer_than_a_clip_is_rejected() {
    let mut track = Track::new(TrackKind::Audio);
    track.push_clip(clip(2));
    track.push_transition(Transition::cross_fade(secs(3)).unwrap()).unwrap();
    track.push_clip(clip(5));
    // The 3s fade exceeds the 2s first clip it overlaps.
    assert_eq!(track.validate(), Err(TimelineError::CrossFadeTooLong));
}

#[test]
fn occupied_overflows_on_unrepresentable_total() {
    let huge = TimeRange::from_origin(Seconds::new(i64::MAX, 1).unwrap()).unwrap();
    let mut track = Track::new(TrackKind::Video);
    track.push_clip(Clip::new(MediaSource::file("a.mov"), huge));
    track.push_clip(Clip::new(MediaSource::file("b.mov"), huge));
    assert_eq!(track.occupied(), Err(TimelineError::OccupiedOverflow));
    // validate() is the documented gate, so it surfaces the same overflow.
    assert_eq!(track.validate(), Err(TimelineError::OccupiedOverflow));
}

#[test]
fn track_zero_and_negative_gaps_are_rejected() {
    assert_eq!(Gap::new(Seconds::zero()), Err(TimelineError::NonPositiveDuration));
    assert_eq!(Gap::new(Seconds::new(-1, 1).unwrap()), Err(TimelineError::NonPositiveDuration));
}

#[test]
fn pushed_items_keep_their_order() {
    let mut track = Track::new(TrackKind::Audio);
    track.push_clip(clip(1));
    track.push_gap(Gap::new(secs(2)).unwrap()).unwrap();
    track.push_clip(clip(3));
    let items = track.items();
    assert_eq!(items.len(), 3);
    assert!(matches!(items[0], TrackItem::Clip(_)));
    assert!(matches!(items[1], TrackItem::Gap(_)));
    assert_eq!(items[2].as_clip().map(|c| c.duration()), Some(secs(3)));
    assert_eq!(track.kind(), TrackKind::Audio);
}

// ----- timelines -----

fn fps() -> FrameRate {
    FrameRate::whole(30).unwrap()
}

fn audio_asset(id: &str, seconds: i64) -> MediaAsset {
    MediaAsset::new(MediaSource::file(id), secs(seconds), None, Some(stereo())).unwrap()
}

fn video_asset(id: &str, seconds: i64) -> MediaAsset {
    MediaAsset::new(
        MediaSource::file(id),
        secs(seconds),
        Some(VideoProperties { frame_rate: fps(), width: 1920, height: 1080 }),
        None,
    )
    .unwrap()
}

#[test]
fn timeline_duplicate_asset_is_rejected() {
    let mut timeline = Timeline::new("t", fps());
    timeline.add_asset(audio_asset("a", 10)).unwrap();
    assert_eq!(
        timeline.add_asset(audio_asset("a", 5)),
        Err(TimelineError::DuplicateAsset(MediaSource::file("a")))
    );
}

#[test]
fn timeline_clip_referencing_unknown_asset_fails_validation() {
    let mut timeline = Timeline::new("t", fps());
    let mut track = Track::new(TrackKind::Audio);
    let range = TimeRange::from_origin(secs(2)).unwrap();
    track.push_clip(Clip::new(MediaSource::file("missing"), range));
    timeline.add_track(track);
    assert_eq!(timeline.validate(), Err(TimelineError::UnknownAsset(MediaSource::file("missing"))));
}

#[test]
fn timeline_clip_exceeding_asset_duration_fails_validation() {
    let mut timeline = Timeline::new("t", fps());
    timeline.add_asset(audio_asset("a", 3)).unwrap();
    let mut track = Track::new(TrackKind::Audio);
    let range = TimeRange::new(secs(2), secs(2)).unwrap();
    track.push_clip(Clip::new(MediaSource::file("a"), range));
    timeline.add_track(track);
    assert_eq!(timeline.validate(), Err(TimelineError::ClipOutOfAssetBounds));
}

#[test]
fn timeline_clip_starting_before_the_asset_fails_validation() {
    let mut timeline = Timeline::new("t", fps());
    timeline.add_asset(audio_asset("a", 10)).unwrap();
    let mut track = Track::new(TrackKind::Audio);
    // start = -1s, duration = 2s: a valid TimeRange but out of asset bounds.
    let range = TimeRange::new(Seconds::new(-1, 1).unwrap(), secs(2)).unwrap();
    track.push_clip(Clip::new(MediaSource::file("a"), range));
    timeline.add_track(track);
    assert_eq!(timeline.validate(), Err(TimelineError::ClipOutOfAssetBounds));
}

#[test]
fn timeline_zero_duration_clip_fails_validation() {
    let mut timeline = Timeline::new("t", fps());
    timeline.add_asset(audio_asset("a", 10)).unwrap();
    let mut track = Track::new(TrackKind::Audio);
    let range = TimeRange::new(secs(1), Seconds::zero()).unwrap();
    track.push_clip(Clip::new(MediaSource::file("a"), range));
    timeline.add_track(track);
    assert_eq!(timeline.validate(), Err(TimelineError::EmptyClip));
}

#[test]
fn timeline_well_formed_timeline_validates() {
    let mut timeline = Timeline::new("t", fps());
    timeline.add_asset(audio_asset("a", 10)).unwrap();
    let mut track = Track::new(TrackKind::Audio);
    let range = TimeRange::new(secs(1), secs(4)).unwrap();
    track.push_clip(Clip::new(MediaSource::file("a"), range));
    timeline.add_track(track);
    assert_eq!(timeline.validate(), Ok(()));
}

#[test]
fn video_clip_from_audio_only_asset_fails_validation() {
    let mut timeline = Timeline::new("t", fps());
    timeline.add_asset(audio_asset("a", 10)).unwrap();
    let mut track = Track::new(TrackKind::Video);
    let range = TimeRange::new(Seconds::zero(), secs(2)).unwrap();
    track.push_clip(Clip::new(MediaSource::file("a"), range));
    timeline.add_track(track);
    assert_eq!(timeline.validate(), Err(TimelineError::TrackAssetStreamMismatch));
}

#[test]
fn video_clip_from_video_asset_validates() {
    let mut timeline = Timeline::new("t", fps());
    timeline.add_asset(video_asset("v", 10)).unwrap();
    let mut track = Track::new(TrackKind::Video);
    let range = TimeRange::new(secs(1), secs(4)).unwrap();
    track.push_clip(Clip::new(MediaSource::file("v"), range));
    timeline.add_track(track);
    assert_eq!(timeline.validate(), Ok(()));
}

#[test]
fn track_accessor_resolves_the_returned_index() {
    let mut timeline = Timeline::new("t", fps());
    let index = timeline.add_track(Track::new(TrackKind::Audio));
    assert_eq!(timeline.track(index).map(Track::kind), Some(TrackKind::Audio));
}

#[test]
fn added_asset_is_found_by_its_source() {
    let mut timeline = Timeline::new("cut", fps());
    timeline.add_asset(audio_asset("./a.wav", 7)).unwrap();
    assert_eq!(timeline.asset(&MediaSource::file("a.wav")).map(|a| a.duration()), Some(secs(7)));
    assert!(timeline.asset(&MediaSource::file("b.wav")).is_none());
    assert_eq!(timeline.name(), "cut");
    assert_eq!(timeline.frame_rate(), fps());
    assert_eq!(timeline.assets().len(), 1);
    let second = timeline.add_track(Track::new(TrackKind::Video));
    assert_eq!(second.get(), 0);
    assert_eq!(timeline.tracks().len(), 1);
}

#[test]
fn normalizing_a_normalized_path_changes_nothing() {
    for path in ["./a//b/./c.mov", "/x/./y/", ".", "", "/", "../up/./x", "a/.."] {
        let once = MediaSource::file(path);
        assert_eq!(MediaSource::file(once.path()), once);
        assert_eq!(MediaSource::file(once.path()).file_name(), once.file_name());
    }
}

#[test]
fn samples_round_trip_through_seconds() {
    let rate = SampleRate::new(44_100).unwrap();
    for samples in [0i64, 1, 22_050, 44_101, -7] {
        assert_eq!(Seconds::from_samples(samples, rate).to_samples(rate), samples);
    }
}

#[test]
fn samples_reduce_to_lowest_terms() {
    let rate = SampleRate::new(48_000).unwrap();
    let half = Seconds::from_samples(24_000, rate);
    assert_eq!((half.numer(), half.denom()), (1, 2));
    assert_eq!(half, Seconds::new(3, 6).unwrap());
}

#[test]
fn occupied_sums_mixed_denominators_in_lowest_terms() {
    let mut track = Track::new(TrackKind::Audio);
    track.push_gap(Gap::new(Seconds::new(1, 3).unwrap()).unwrap()).unwrap();
    track.push_gap(Gap::new(Seconds::new(1, 6).unwrap()).unwrap()).unwrap();
    let total = track.occupied().unwrap();
    assert_eq!((total.numer(), total.denom()), (1, 2));
    assert_eq!(track.validate(), Ok(()));
}
