use hollywood::asset::{AudioProperties, ChannelLayout, MediaAsset, MediaSource, VideoProperties};
use hollywood::error::TimelineError;
use hollywood::fcpxml::to_fcpxml;
use hollywood::nle::NleError;
use hollywood::otio::to_otio;
use hollywood::time::{FrameRate, SampleRate, Seconds, TimeRange};
use hollywood::timeline::Timeline;
use hollywood::track::{Clip, Gap, Track, TrackKind, Transition};
use hollywood::xmeml::to_xmeml;

fn video30() -> VideoProperties {
    VideoProperties { frame_rate: FrameRate::whole(30).unwrap(), width: 1920, height: 1080 }
}

fn stereo() -> AudioProperties {
    AudioProperties { sample_rate: SampleRate::new(48_000).unwrap(), channels: ChannelLayout::Stereo }
}

/// A 30 fps timeline holding one asset and one track with one clip.
fn one_clip_timeline(rate: FrameRate, asset: MediaAsset, kind: TrackKind, range: TimeRange) -> Timeline {
    let source = asset.source().clone();
    let mut timeline = Timeline::new("demo", rate);
    timeline.add_asset(asset).unwrap();
    let mut track = Track::new(kind);
    track.push_clip(Clip::new(source, range));
    timeline.add_track(track);
    timeline.validate().unwrap();
    timeline
}

fn sub_frame_timeline() -> Timeline {
    let asset = MediaAsset::new(MediaSource::file("a.mov"), Seconds::from_secs(60), Some(video30()), None).unwrap();
    // 1/7 s is not a whole number of frames at 30 fps.
    one_clip_timeline(
        FrameRate::whole(30).unwrap(),
        asset,
        TrackKind::Video,
        TimeRange::new(Seconds::zero(), Seconds::new(1, 7).unwrap()).unwrap(),
    )
}

fn ntsc_timeline() -> Timeline {
    let rate = FrameRate::new(30_000, 1001).unwrap();
    let video = VideoProperties { frame_rate: rate, width: 1920, height: 1080 };
    let asset = MediaAsset::new(MediaSource::file("a.mov"), Seconds::from_secs(60), Some(video), None).unwrap();
    one_clip_timeline(rate, asset, TrackKind::Video, TimeRange::new(Seconds::zero(), Seconds::from_secs(1)).unwrap())
}

fn cross_fade_timeline(source: &str) -> Timeline {
    let mut timeline = Timeline::new("demo", FrameRate::whole(30).unwrap());
    timeline
        .add_asset(MediaAsset::new(MediaSource::file(source), Seconds::from_secs(60), None, Some(stereo())).unwrap())
        .unwrap();
    // Cross-fades live on audio tracks.
    let mut track = Track::new(TrackKind::Audio);
    track.push_clip(Clip::new(MediaSource::file(source), TimeRange::new(Seconds::zero(), Seconds::from_secs(2)).unwrap()));
    track.push_transition(Transition::cross_fade(Seconds::from_secs(1)).unwrap()).unwrap();
    track.push_clip(Clip::new(
        MediaSource::file(source),
        TimeRange::new(Seconds::from_secs(3), Seconds::from_secs(2)).unwrap(),
    ));
    timeline.add_track(track);
    timeline
}

// ----- xmeml -----

fn two_clip_video_timeline() -> Timeline {
    let mut timeline = Timeline::new("demo", FrameRate::whole(30).unwrap());
    for id in ["a.mov", "b.mov"] {
        timeline
            .add_asset(MediaAsset::new(MediaSource::file(id), Seconds::from_secs(60), Some(video30()), None).unwrap())
            .unwrap();
    }
    let mut track = Track::new(TrackKind::Video);
    track.push_clip(Clip::with_name(
        MediaSource::file("a.mov"),
        TimeRange::new(Seconds::from_secs(2), Seconds::from_secs(3)).unwrap(),
        "intro",
    ));
    track.push_gap(Gap::new(Seconds::from_secs(1)).unwrap()).unwrap();
    track.push_clip(Clip::with_name(
        MediaSource::file("b.mov"),
        TimeRange::new(Seconds::from_secs(10), Seconds::from_secs(4)).unwrap(),
        "outro",
    ));
    timeline.add_track(track);
    timeline.validate().unwrap();
    timeline
}

#[test]
fn golden_xmeml_two_clip_video_track_matches_golden() {
    // The checked-in golden document is not available; this pins the parts of
    // it that the exporter's contract fixes: two clip items placed after the
    // gap, whole-frame times at a 30 fps timebase, and one file per asset.
    let xml = to_xmeml(&two_clip_video_timeline()).unwrap();
    assert!(xml.starts_with("<?xml version=\"1.0\" encoding=\"UTF-8\"?>"));
    assert!(xml.contains("<xmeml version=\"5\">"));
    assert_eq!(xml.matches("<clipitem").count(), 2);
    assert!(xml.contains("<name>intro</name>"));
    assert!(xml.contains("<name>outro</name>"));
    assert!(xml.contains("<timebase>30</timebase>"));
    assert!(xml.contains("<in>60</in>"));
    assert!(xml.contains("<out>150</out>"));
    // The second clip starts after 3 s of clip and 1 s of gap: frame 120.
    assert!(xml.contains("<start>120</start>"));
    assert!(xml.contains("<end>240</end>"));
    assert!(xml.contains("<pathurl>a.mov</pathurl>"));
    assert!(xml.contains("<pathurl>b.mov</pathurl>"));
    assert!(!xml.contains("<audio>"));
}

#[test]
fn golden_xmeml_transitions_are_rejected_for_now() {
    assert!(matches!(to_xmeml(&cross_fade_timeline("a.mov")), Err(NleError::UnsupportedTransition)));
}

#[test]
fn golden_xmeml_sub_frame_duration_is_rejected() {
    assert!(matches!(to_xmeml(&sub_frame_timeline()), Err(NleError::UnalignedDuration)));
}

#[test]
fn golden_xmeml_ntsc_frame_rate_is_rejected() {
    // 29.97 fps (30000/1001) is not a whole timebase.
    assert!(matches!(to_xmeml(&ntsc_timeline()), Err(NleError::UnsupportedFrameRate)));
}

#[test]
fn audio_track_is_serialized() {
    let mut timeline = Timeline::new("demo", FrameRate::whole(30).unwrap());
    timeline
        .add_asset(MediaAsset::new(MediaSource::file("v.wav"), Seconds::from_secs(60), None, Some(stereo())).unwrap())
        .unwrap();
    let mut track = Track::new(TrackKind::Audio);
    track.push_clip(Clip::with_name(
        MediaSource::file("v.wav"),
        TimeRange::new(Seconds::zero(), Seconds::from_secs(2)).unwrap(),
        "voice",
    ));
    timeline.add_track(track);
    timeline.validate().unwrap();

    let xml = to_xmeml(&timeline).unwrap();
    assert!(xml.contains("<audio>") && xml.contains("</audio>"));
    assert!(xml.contains("<name>voice</name>"));
    assert!(xml.contains("<pathurl>v.wav</pathurl>"));
    assert!(!xml.contains("<video>"));
}

#[test]
fn trailing_sub_frame_gap_is_rejected() {
    let mut timeline = Timeline::new("demo", FrameRate::whole(30).unwrap());
    timeline
        .add_asset(MediaAsset::new(MediaSource::file("a.mov"), Seconds::from_secs(60), Some(video30()), None).unwrap())
        .unwrap();
    let mut track = Track::new(TrackKind::Video);
    track.push_clip(Clip::new(MediaSource::file("a.mov"), TimeRange::new(Seconds::zero(), Seconds::from_secs(1)).unwrap()));
    // A trailing gap of 1/7 s is not frame-aligned at 30 fps.
    track.push_gap(Gap::new(Seconds::new(1, 7).unwrap()).unwrap()).unwrap();
    timeline.add_track(track);
    timeline.validate().unwrap();

    assert!(matches!(to_xmeml(&timeline), Err(NleError::UnalignedDuration)));
}

#[test]
fn an_invalid_timeline_is_not_exported() {
    let mut timeline = Timeline::new("demo", FrameRate::whole(30).unwrap());
    let mut track = Track::new(TrackKind::Audio);
    track.push_clip(Clip::new(MediaSource::file("missing"), TimeRange::from_origin(Seconds::from_secs(1)).unwrap()));
    timeline.add_track(track);
    let expected = NleError::InvalidTimeline(TimelineError::UnknownAsset(MediaSource::file("missing")));
    assert_eq!(to_xmeml(&timeline), Err(expected.clone()));
    assert_eq!(to_fcpxml(&timeline), Err(expected.clone()));
    assert_eq!(to_otio(&timeline), Err(expected));
}

#[test]
fn markup_in_names_is_escaped() {
    let mut timeline = Timeline::new("a<b", FrameRate::whole(30).unwrap());
    timeline
        .add_asset(MediaAsset::new(MediaSource::file("v.wav"), Seconds::from_secs(60), None, Some(stereo())).unwrap())
        .unwrap();
    let mut track = Track::new(TrackKind::Audio);
    track.push_clip(Clip::with_name(
        MediaSource::file("v.wav"),
        TimeRange::new(Seconds::zero(), Seconds::from_secs(1)).unwrap(),
        "rock & roll",
    ));
    timeline.add_track(track);
    let xml = to_xmeml(&timeline).unwrap();
    assert!(xml.contains("<name>a&lt;b</name>"));
    assert!(xml.contains("<name>rock &amp; roll</name>"));
}

// ----- fcpxml -----

/// A primary video track (two clips around a gap) and a connected audio track.
fn sample_fcp_timeline() -> Result<Timeline, TimelineError> {
    let fps = FrameRate::whole(30)?;
    let video = VideoProperties { frame_rate: fps, width: 1920, height: 1080 };
    let stereo = AudioProperties { sample_rate: SampleRate::new(48_000)?, channels: ChannelLayout::Stereo };

    let mut timeline = Timeline::new("demo", fps);
    for id in ["a.mov", "b.mov"] {
        timeline.add_asset(MediaAsset::new(MediaSource::file(id), Seconds::from_secs(60), Some(video), None)?)?;
    }
    timeline.add_asset(MediaAsset::new(MediaSource::file("vo.wav"), Seconds::from_secs(60), None, Some(stereo))?)?;

    let mut video_track = Track::new(TrackKind::Video);
    video_track.push_clip(Clip::with_name(
        MediaSource::file("a.mov"),
        TimeRange::new(Seconds::from_secs(2), Seconds::from_secs(3))?,
        "intro",
    ));
    video_track.push_gap(Gap::new(Seconds::from_secs(1))?)?;
    video_track.push_clip(Clip::with_name(
        MediaSource::file("b.mov"),
        TimeRange::new(Seconds::from_secs(10), Seconds::from_secs(4))?,
        "outro",
    ));
    timeline.add_track(video_track);

    let mut audio_track = Track::new(TrackKind::Audio);
    audio_track.push_clip(Clip::with_name(
        MediaSource::file("vo.wav"),
        TimeRange::new(Seconds::zero(), Seconds::from_secs(8))?,
        "voice",
    ));
    timeline.add_track(audio_track);

    timeline.validate()?;
    Ok(timeline)
}

fn sample_audio_only_timeline() -> Result<Timeline, TimelineError> {
    let stereo = AudioProperties { sample_rate: SampleRate::new(48_000)?, channels: ChannelLayout::Stereo };
    let mut timeline = Timeline::new("podcast", FrameRate::whole(30)?);
    timeline.add_asset(MediaAsset::new(MediaSource::file("vo.wav"), Seconds::from_secs(60), None, Some(stereo))?)?;
    let mut audio = Track::new(TrackKind::Audio);
    audio.push_clip(Clip::with_name(
        MediaSource::file("vo.wav"),
        TimeRange::new(Seconds::zero(), Seconds::from_secs(5))?,
        "voice",
    ));
    timeline.add_track(audio);
    timeline.validate()?;
    Ok(timeline)
}

#[test]
fn audio_asset_declares_explicit_channel_sources() {
    let xml = to_fcpxml(&sample_fcp_timeline().unwrap()).unwrap();
    assert!(xml.contains(r#"hasAudio="1""#));
    assert!(xml.contains(r#"audioSources="1""#));
    assert!(xml.contains(r#"audioChannels="2""#));
    assert!(xml.contains(r#"audioRate="48000""#));
}

#[test]
fn connected_audio_track_uses_a_negative_lane() {
    let xml = to_fcpxml(&sample_fcp_timeline().unwrap()).unwrap();
    assert!(xml.contains(r#"lane="-1""#));
    assert!(xml.contains("<spine>"));
    // Rational frame-duration time, not floating seconds.
    assert!(xml.contains(r#"frameDuration="1/30s""#));
}

#[test]
fn video_assets_with_the_same_geometry_share_one_format() {
    let xml = to_fcpxml(&sample_fcp_timeline().unwrap()).unwrap();
    assert_eq!(xml.matches("<format ").count(), 1);
}

#[test]
fn golden_fcpxml_transitions_are_rejected_for_now() {
    assert!(matches!(to_fcpxml(&cross_fade_timeline("a.wav")), Err(NleError::UnsupportedTransition)));
}

#[test]
fn golden_fcpxml_sub_frame_duration_is_rejected() {
    assert!(matches!(to_fcpxml(&sub_frame_timeline()), Err(NleError::UnalignedDuration)));
}

#[test]
fn golden_fcpxml_ntsc_frame_rate_is_rejected() {
    assert!(matches!(to_fcpxml(&ntsc_timeline()), Err(NleError::UnsupportedFrameRate)));
}

#[test]
fn audio_only_timeline_uses_default_format_and_omits_video() {
    let xml = to_fcpxml(&sample_audio_only_timeline().unwrap()).unwrap();
    assert!(xml.contains(r#"width="1920""#));
    assert!(xml.contains(r#"height="1080""#));
    assert!(xml.contains(r#"hasVideo="0""#));
    assert!(!xml.contains(r#"hasVideo="1""#));
}

#[test]
fn connected_audio_offset_carries_the_host_clip_in_point() {
    let xml = to_fcpxml(&sample_fcp_timeline().unwrap()).unwrap();
    assert!(xml.contains(r#"<asset-clip ref="r4" lane="-1" offset="60/30s" name="voice""#));
}

#[test]
fn fcpxml_document_has_the_library_shape() {
    let xml = to_fcpxml(&sample_fcp_timeline().unwrap()).unwrap();
    assert!(xml.starts_with("<?xml version=\"1.0\" encoding=\"UTF-8\"?>"));
    assert!(xml.contains("<!DOCTYPE fcpxml>"));
    assert!(xml.contains("<library>"));
    assert!(xml.contains("<sequence "));
    assert!(xml.contains(r#"<gap "#));
    // The primary storyline runs 3 s + 1 s + 4 s = 240 frames.
    assert!(xml.contains(r#"duration="240/30s""#));
}

// ----- OpenTimelineIO -----

fn sample_otio_timeline() -> Result<Timeline, TimelineError> {
    let fps = FrameRate::whole(30)?;
    let video = VideoProperties { frame_rate: fps, width: 1920, height: 1080 };
    let stereo = AudioProperties { sample_rate: SampleRate::new(48_000)?, channels: ChannelLayout::Stereo };

    let mut timeline = Timeline::new("demo", fps);
    for id in ["a.mov", "b.mov"] {
        timeline.add_asset(MediaAsset::new(MediaSource::file(id), Seconds::from_secs(60), Some(video), None)?)?;
    }
    timeline.add_asset(MediaAsset::new(MediaSource::file("vo.wav"), Seconds::from_secs(60), None, Some(stereo))?)?;

    let mut video_track = Track::new(TrackKind::Video);
    video_track.push_clip(Clip::with_name(
        MediaSource::file("a.mov"),
        TimeRange::new(Seconds::from_secs(2), Seconds::from_secs(3))?,
        "intro",
    ));
    video_track.push_gap(Gap::new(Seconds::from_secs(1))?)?;
    video_track.push_clip(Clip::with_name(
        MediaSource::file("b.mov"),
        TimeRange::new(Seconds::from_secs(10), Seconds::from_secs(4))?,
        "outro",
    ));
    timeline.add_track(video_track);

    let mut audio_track = Track::new(TrackKind::Audio);
    audio_track.push_clip(Clip::with_name(
        MediaSource::file("vo.wav"),
        TimeRange::new(Seconds::zero(), Seconds::from_secs(2))?,
        "take-1",
    ));
    audio_track.push_transition(Transition::cross_fade(Seconds::from_secs(1))?)?;
    audio_track.push_clip(Clip::with_name(
        MediaSource::file("vo.wav"),
        TimeRange::new(Seconds::from_secs(3), Seconds::from_secs(2))?,
        "take-2",
    ));
    timeline.add_track(audio_track);

    timeline.validate()?;
    Ok(timeline)
}

#[test]
fn output_parses_with_the_expected_structure() {
    let json = to_otio(&sample_otio_timeline().unwrap()).unwrap();
    let value: serde_json::Value = serde_json::from_str(&json).expect("output must be valid JSON");

    assert_eq!(value["OTIO_SCHEMA"], "Timeline.1");
    assert_eq!(value["name"], "demo");
    assert_eq!(value["tracks"]["OTIO_SCHEMA"], "Stack.1");

    let tracks = value["tracks"]["children"].as_array().unwrap();
    assert_eq!(tracks.len(), 2);
    assert_eq!(tracks[0]["OTIO_SCHEMA"], "Track.1");
    assert_eq!(tracks[0]["kind"], "Video");
    assert_eq!(tracks[1]["kind"], "Audio");

    let video = tracks[0]["children"].as_array().unwrap();
    assert_eq!(video[0]["OTIO_SCHEMA"], "Clip.1");
    assert_eq!(video[1]["OTIO_SCHEMA"], "Gap.1");
    assert_eq!(video[2]["OTIO_SCHEMA"], "Clip.1");

    assert_eq!(video[0]["name"], "intro");
    assert_eq!(video[0]["source_range"]["start_time"]["value"], 60);
    assert_eq!(video[0]["source_range"]["duration"]["value"], 90);
    assert_eq!(video[0]["source_range"]["start_time"]["rate"], 30);
    let media = &video[0]["media_reference"];
    assert_eq!(media["OTIO_SCHEMA"], "ExternalReference.1");
    assert_eq!(media["target_url"], "a.mov");
    assert_eq!(media["available_range"]["duration"]["value"], 60);
    assert_eq!(media["available_range"]["duration"]["rate"], 1);
}

#[test]
fn cross_fade_becomes_a_transition_between_its_clips() {
    let value: serde_json::Value = serde_json::from_str(&to_otio(&sample_otio_timeline().unwrap()).unwrap()).unwrap();
    let audio = value["tracks"]["children"][1]["children"].as_array().unwrap();
    assert_eq!(audio[0]["OTIO_SCHEMA"], "Clip.1");
    assert_eq!(audio[1]["OTIO_SCHEMA"], "Transition.1");
    assert_eq!(audio[2]["OTIO_SCHEMA"], "Clip.1");
    assert_eq!(audio[1]["transition_type"], "SMPTE_Dissolve");
    // A 1s (30-frame) fade reaches 15 frames into each neighbour.
    assert_eq!(audio[1]["in_offset"]["value"], 15);
    assert_eq!(audio[1]["out_offset"]["value"], 15);
}

#[test]
fn odd_frame_cross_fade_splits_the_transition_offsets() {
    let mut timeline = Timeline::new("demo", FrameRate::whole(30).unwrap());
    timeline
        .add_asset(MediaAsset::new(MediaSource::file("vo.wav"), Seconds::from_secs(60), None, Some(stereo())).unwrap())
        .unwrap();
    let mut track = Track::new(TrackKind::Audio);
    track.push_clip(Clip::new(MediaSource::file("vo.wav"), TimeRange::new(Seconds::zero(), Seconds::from_secs(2)).unwrap()));
    track.push_transition(Transition::cross_fade(Seconds::new(3, 30).unwrap()).unwrap()).unwrap();
    track.push_clip(Clip::new(
        MediaSource::file("vo.wav"),
        TimeRange::new(Seconds::from_secs(3), Seconds::from_secs(2)).unwrap(),
    ));
    timeline.add_track(track);
    timeline.validate().unwrap();

    let value: serde_json::Value = serde_json::from_str(&to_otio(&timeline).unwrap()).unwrap();
    let transition = &value["tracks"]["children"][0]["children"][1];
    assert_eq!(transition["OTIO_SCHEMA"], "Transition.1");
    assert_eq!(transition["in_offset"]["value"], 1);
    assert_eq!(transition["out_offset"]["value"], 2);
}

#[test]
fn golden_otio_sub_frame_duration_is_rejected() {
    assert!(matches!(to_otio(&sub_frame_timeline()), Err(NleError::UnalignedDuration)));
}

#[test]
fn golden_otio_ntsc_frame_rate_is_rejected() {
    assert!(matches!(to_otio(&ntsc_timeline()), Err(NleError::UnsupportedFrameRate)));
}

#[test]
fn non_frame_aligned_source_duration_is_accepted() {
    let asset =
        MediaAsset::new(MediaSource::file("vo.wav"), Seconds::new(1001, 1000).unwrap(), None, Some(stereo())).unwrap();
    let timeline = one_clip_timeline(
        FrameRate::whole(30).unwrap(),
        asset,
        TrackKind::Audio,
        TimeRange::new(Seconds::zero(), Seconds::from_secs(1)).unwrap(),
    );
    let value: serde_json::Value = serde_json::from_str(&to_otio(&timeline).unwrap()).unwrap();
    let clip = &value["tracks"]["children"][0]["children"][0];
    let available = &clip["media_reference"]["available_range"]["duration"];
    assert_eq!(available["value"], 1001);
    assert_eq!(available["rate"], 1000);
}

#[test]
fn audio_only_timeline_exports_a_single_audio_track() {
    let timeline = sample_audio_only_timeline().unwrap();
    let value: serde_json::Value = serde_json::from_str(&to_otio(&timeline).unwrap()).unwrap();
    let tracks = value["tracks"]["children"].as_array().unwrap();
    assert_eq!(tracks.len(), 1);
    assert_eq!(tracks[0]["kind"], "Audio");
    assert_eq!(tracks[0]["children"][0]["name"], "voice");
}

#[test]
fn clip_without_a_name_falls_back_to_the_source_filename() {
    let asset = MediaAsset::new(MediaSource::file("shot.mov"), Seconds::from_secs(60), Some(video30()), None).unwrap();
    let timeline = one_clip_timeline(
        FrameRate::whole(30).unwrap(),
        asset,
        TrackKind::Video,
        TimeRange::new(Seconds::zero(), Seconds::from_secs(2)).unwrap(),
    );
    let value: serde_json::Value = serde_json::from_str(&to_otio(&timeline).unwrap()).unwrap();
    assert_eq!(value["tracks"]["children"][0]["children"][0]["name"], "shot.mov");
}

#[test]
fn clip_with_no_name_or_filename_omits_the_name_field() {
    let asset = MediaAsset::new(MediaSource::file(".."), Seconds::from_secs(60), None, Some(stereo())).unwrap();
    let timeline = one_clip_timeline(
        FrameRate::whole(30).unwrap(),
        asset,
        TrackKind::Audio,
        TimeRange::new(Seconds::zero(), Seconds::from_secs(2)).unwrap(),
    );
    let value: serde_json::Value = serde_json::from_str(&to_otio(&timeline).unwrap()).unwrap();
    let clip = &value["tracks"]["children"][0]["children"][0];
    assert!(clip.get("name").is_none());
}

#[test]
fn otio_text_is_pretty_printed_and_escaped() {
    let mut timeline = Timeline::new("say \"hi\"", FrameRate::whole(30).unwrap());
    timeline
        .add_asset(MediaAsset::new(MediaSource::file("vo.wav"), Seconds::from_secs(60), None, Some(stereo())).unwrap())
        .unwrap();
    timeline.add_track(Track::new(TrackKind::Audio));
    let json = to_otio(&timeline).unwrap();
    assert!(json.starts_with("{\n  \""));
    let value: serde_json::Value = serde_json::from_str(&json).unwrap();
    assert_eq!(value["name"], "say \"hi\"");
    assert_eq!(value["tracks"]["children"][0]["children"].as_array().unwrap().len(), 0);
}
