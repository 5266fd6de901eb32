use hollywood::assemble::{assemble, AssembleError};
use hollywood::asset::{AudioProperties, ChannelLayout, MediaAsset, MediaSource, VideoProperties};
use hollywood::time::{FrameRate, SampleRate, Seconds, TimeRange};
use hollywood::timeline::Timeline;
use hollywood::track::{TrackItem, TrackKind};

fn audio_asset(seconds: i64) -> MediaAsset {
    MediaAsset::new(
        MediaSource::file("vo.wav"),
        Seconds::from_secs(seconds),
        None,
        Some(AudioProperties { sample_rate: SampleRate::new(48_000).unwrap(), channels: ChannelLayout::Stereo }),
    )
    .unwrap()
}

fn video_asset(seconds: i64) -> MediaAsset {
    MediaAsset::new(
        MediaSource::file("a.mov"),
        Seconds::from_secs(seconds),
        Some(VideoProperties { frame_rate: FrameRate::whole(30).unwrap(), width: 1920, height: 1080 }),
        None,
    )
    .unwrap()
}

fn region(start: i64, duration: i64) -> TimeRange {
    TimeRange::new(Seconds::from_secs(start), Seconds::from_secs(duration)).unwrap()
}

fn clip_ranges(timeline: &Timeline) -> Vec<TimeRange> {
    timeline.tracks()[0]
        .items()
        .iter()
        .filter_map(|item| match item {
            TrackItem::Clip(clip) => Some(clip.range()),
            TrackItem::Gap(_) | TrackItem::Transition(_) => None,
        })
        .collect()
}

#[test]
fn removes_dead_air_between_keep_regions() {
    let fps = FrameRate::whole(30).unwrap();
    let timeline = assemble("cut", fps, audio_asset(10), &[region(0, 2), region(5, 3)]).unwrap();

    // The two kept spans become back-to-back clips; the [2, 5) silence is gone.
    assert_eq!(clip_ranges(&timeline), vec![region(0, 2), region(5, 3)]);
    // The assembled track is the sum of the kept spans, not the source length.
    assert_eq!(timeline.tracks()[0].occupied().unwrap(), Seconds::from_secs(5));
}

#[test]
fn empty_keep_regions_yield_an_empty_track() {
    let fps = FrameRate::whole(30).unwrap();
    let timeline = assemble("cut", fps, audio_asset(10), &[]).unwrap();

    assert!(clip_ranges(&timeline).is_empty());
    assert_eq!(timeline.tracks()[0].occupied().unwrap(), Seconds::zero());
}

#[test]
fn video_source_assembles_onto_a_video_track() {
    let fps = FrameRate::whole(30).unwrap();
    let timeline = assemble("cut", fps, video_asset(10), &[region(0, 4)]).unwrap();
    assert_eq!(timeline.tracks()[0].kind(), TrackKind::Video);
}

#[test]
fn audio_source_assembles_onto_an_audio_track() {
    let fps = FrameRate::whole(30).unwrap();
    let timeline = assemble("cut", fps, audio_asset(10), &[region(0, 4)]).unwrap();
    assert_eq!(timeline.tracks()[0].kind(), TrackKind::Audio);
}

#[test]
fn keep_region_past_the_source_is_rejected() {
    let fps = FrameRate::whole(30).unwrap();
    // [8, 13) reaches past the 10 s source.
    let result = assemble("cut", fps, audio_asset(10), &[region(8, 5)]);
    assert!(matches!(result, Err(AssembleError::RegionOutsideSource { index: 0 })));
}

#[test]
fn keep_region_starting_before_the_source_is_rejected() {
    let fps = FrameRate::whole(30).unwrap();
    // A negative start lies before the source begins.
    let result = assemble("cut", fps, audio_asset(10), &[region(-1, 3)]);
    assert!(matches!(result, Err(AssembleError::RegionOutsideSource { index: 0 })));
}

#[test]
fn adjacent_regions_are_kept_back_to_back() {
    let fps = FrameRate::whole(30).unwrap();
    // [0, 2) and [2, 3) touch exactly (no dead air between them).
    let timeline = assemble("cut", fps, audio_asset(10), &[region(0, 2), region(2, 1)]).unwrap();
    assert_eq!(clip_ranges(&timeline), vec![region(0, 2), region(2, 1)]);
    assert_eq!(timeline.tracks()[0].occupied().unwrap(), Seconds::from_secs(3));
}

#[test]
fn region_ending_exactly_at_the_source_end_is_accepted() {
    let fps = FrameRate::whole(30).unwrap();
    // [7, 10) ends exactly at the 10 s source: the bound is half-open.
    let timeline = assemble("cut", fps, audio_asset(10), &[region(7, 3)]).unwrap();
    assert_eq!(clip_ranges(&timeline), vec![region(7, 3)]);
}

#[test]
fn overlapping_regions_are_rejected() {
    let fps = FrameRate::whole(30).unwrap();
    // [3, 6) overlaps the preceding [0, 5): the cut would duplicate [3, 5).
    let result = assemble("cut", fps, audio_asset(10), &[region(0, 5), region(3, 3)]);
    assert!(matches!(result, Err(AssembleError::RegionsNotAscending { index: 1 })));
}

#[test]
fn out_of_order_regions_are_rejected() {
    let fps = FrameRate::whole(30).unwrap();
    // The second region precedes the first in the source.
    let result = assemble("cut", fps, audio_asset(10), &[region(5, 3), region(0, 2)]);
    assert!(matches!(result, Err(AssembleError::RegionsNotAscending { index: 1 })));
}

#[test]
fn empty_region_is_rejected() {
    let fps = FrameRate::whole(30).unwrap();
    let result = assemble("cut", fps, audio_asset(10), &[region(2, 0)]);
    assert!(matches!(result, Err(AssembleError::EmptyRegion { index: 0 })));
}

#[test]
fn assembled_timeline_carries_its_name_rate_and_single_asset() {
    let fps = FrameRate::new(24000, 1001).unwrap();
    let timeline = assemble("rough", fps, audio_asset(10), &[region(1, 2)]).unwrap();
    assert_eq!(timeline.name(), "rough");
    assert_eq!(timeline.frame_rate(), fps);
    assert_eq!(timeline.assets().len(), 1);
    assert_eq!(timeline.tracks().len(), 1);
    assert_eq!(timeline.validate(), Ok(()));
}

#[test]
fn the_first_bad_region_is_the_one_reported() {
    let fps = FrameRate::whole(30).unwrap();
    // Region 1 is empty and region 2 is out of order: index 1 is reported.
    let result = assemble("cut", fps, audio_asset(10), &[region(4, 2), region(7, 0), region(1, 1)]);
    assert!(matches!(result, Err(AssembleError::EmptyRegion { index: 1 })));
}
