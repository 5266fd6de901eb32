use hollywood::asset::{AudioProperties, ChannelLayout, MediaSource, VideoProperties};
use hollywood::cli::{config, export_file_name, extension, CliError};
use hollywood::detect::DetectError;
use hollywood::error::TimelineError;
use hollywood::gui::{
    apply_probe_batch, can_process, format_duration, ExportSelection, ExportTarget, FootageEntry, ProbeOutcome,
};
use hollywood::pipeline::ExportTarget as FlowTarget;
use hollywood::probe::{
    audio_properties, container_seconds, probe_outcome, raw_stream_seconds, video_properties, MediaError, ProbedMedia,
};
use hollywood::time::{FrameRate, SampleRate, Seconds};

// ----- export selection -----

#[test]
fn lists_every_target() {
    assert_eq!(ExportTarget::all(), [ExportTarget::Xmeml, ExportTarget::Fcpxml]);
}

#[test]
fn only_xmeml_is_available_today() {
    assert!(ExportTarget::Xmeml.is_available());
    assert!(!ExportTarget::Fcpxml.is_available());
}

#[test]
fn default_enables_only_xmeml() {
    let selection = ExportSelection::default_enabled();
    assert!(selection.contains(ExportTarget::Xmeml));
    assert!(!selection.contains(ExportTarget::Fcpxml));
    assert!(selection.has_implemented_target());
}

#[test]
fn deselecting_xmeml_leaves_no_implemented_target() {
    let mut selection = ExportSelection::default_enabled();
    selection.set(ExportTarget::Xmeml, false);
    assert!(!selection.contains(ExportTarget::Xmeml));
    assert!(!selection.has_implemented_target());
}

#[test]
fn unavailable_target_cannot_be_enabled() {
    let mut selection = ExportSelection::default();
    selection.set(ExportTarget::Fcpxml, true);
    assert!(!selection.contains(ExportTarget::Fcpxml));
    assert!(!selection.has_implemented_target());
}

#[test]
fn enabling_twice_does_not_duplicate() {
    let mut selection = ExportSelection::default();
    selection.set(ExportTarget::Xmeml, true);
    selection.set(ExportTarget::Xmeml, true);
    assert!(selection.contains(ExportTarget::Xmeml));
    selection.set(ExportTarget::Xmeml, false);
    assert!(!selection.contains(ExportTarget::Xmeml));
}

#[test]
fn labels_name_the_applications() {
    assert_eq!(ExportTarget::Xmeml.label(), "Premiere / Resolve (FCP7 xmeml)");
    assert_eq!(ExportTarget::Fcpxml.label(), "Final Cut / Resolve (FCPXML)");
}

// ----- footage -----

fn audio() -> AudioProperties {
    AudioProperties { sample_rate: SampleRate::new(48_000).unwrap(), channels: ChannelLayout::Stereo }
}

fn video() -> VideoProperties {
    VideoProperties { frame_rate: FrameRate::new(30, 1).unwrap(), width: 1920, height: 1080 }
}

fn ready(duration_secs: i64, video: Option<VideoProperties>, audio: Option<AudioProperties>) -> ProbeOutcome {
    ProbeOutcome::Ready(ProbedMedia { duration: Seconds::from_secs(duration_secs), video, audio })
}

#[test]
fn pending_summary() {
    assert_eq!(ProbeOutcome::Pending.summary(), "probing…");
}

#[test]
fn failed_summary_is_the_message() {
    assert_eq!(ProbeOutcome::Failed("bad file".to_owned()).summary(), "bad file");
}

#[test]
fn ready_summary_lists_present_streams() {
    assert_eq!(ready(83, Some(video()), Some(audio())).summary(), "video + audio, 1:23");
    assert_eq!(ready(5, None, Some(audio())).summary(), "audio, 0:05");
    assert_eq!(ready(600, Some(video()), None).summary(), "video, 10:00");
    assert_eq!(ready(1, None, None).summary(), "no streams, 0:01");
}

#[test]
fn format_duration_is_minutes_and_padded_seconds() {
    assert_eq!(format_duration(Seconds::from_secs(0)), "0:00");
    assert_eq!(format_duration(Seconds::from_secs(9)), "0:09");
    assert_eq!(format_duration(Seconds::from_secs(83)), "1:23");
    assert_eq!(format_duration(Seconds::from_secs(600)), "10:00");
}

#[test]
fn format_duration_rounds_to_the_nearest_second() {
    assert_eq!(format_duration(Seconds::new(183, 2).unwrap()), "1:32");
    assert_eq!(format_duration(Seconds::new(181, 2).unwrap()), "1:30");
    assert_eq!(format_duration(Seconds::new(1001, 1000).unwrap()), "0:01");
    assert_eq!(format_duration(Seconds::new(7, 10).unwrap()), "0:01");
}

#[test]
fn negative_durations_keep_their_sign_in_both_parts() {
    assert_eq!(format_duration(Seconds::new(-5, 1).unwrap()), "-1:-5");
    assert_eq!(format_duration(Seconds::new(-65, 1).unwrap()), "-2:-5");
    assert_eq!(format_duration(Seconds::new(-60, 1).unwrap()), "-1:-0");
}

#[test]
fn label_is_the_leaf_file_name() {
    let entry = FootageEntry::pending(MediaSource::file("clips/take 1.mov"));
    assert_eq!(entry.label(), "take 1.mov");
}

#[test]
fn label_falls_back_to_the_path() {
    let entry = FootageEntry::pending(MediaSource::file("/"));
    assert_eq!(entry.label(), "/");
}

#[test]
fn display_joins_label_and_summary() {
    let entry = FootageEntry::pending(MediaSource::file("a/clip.mp4"));
    assert_eq!(entry.display(), "clip.mp4 — probing…");
}

#[test]
fn a_run_needs_probed_footage_and_an_implemented_format() {
    let selection = ExportSelection::default_enabled();
    let done = FootageEntry::probed(MediaSource::file("a.mov"), ready(3, None, Some(audio())));
    let failed = FootageEntry::probed(MediaSource::file("b.mov"), ProbeOutcome::Failed("x".to_owned()));
    let pending = FootageEntry::pending(MediaSource::file("c.mov"));
    assert!(!can_process(&[], &selection));
    assert!(can_process(&[done.clone(), failed.clone()], &selection));
    assert!(!can_process(&[done.clone(), pending], &selection));
    assert!(!can_process(&[done], &ExportSelection::default()));
}

#[test]
fn a_probe_batch_lands_at_its_offset() {
    let mut footage = vec![
        FootageEntry::pending(MediaSource::file("a.mov")),
        FootageEntry::pending(MediaSource::file("b.mov")),
        FootageEntry::pending(MediaSource::file("c.mov")),
    ];
    let batch = vec![
        FootageEntry::probed(MediaSource::file("b.mov"), ProbeOutcome::Failed("b".to_owned())),
        FootageEntry::probed(MediaSource::file("c.mov"), ProbeOutcome::Failed("c".to_owned())),
        FootageEntry::probed(MediaSource::file("d.mov"), ProbeOutcome::Failed("d".to_owned())),
    ];
    apply_probe_batch(&mut footage, 1, batch);
    assert_eq!(footage.len(), 3);
    assert_eq!(footage[0].outcome(), &ProbeOutcome::Pending);
    assert_eq!(footage[1].outcome(), &ProbeOutcome::Failed("b".to_owned()));
    assert_eq!(footage[2].outcome(), &ProbeOutcome::Failed("c".to_owned()));
}

// ----- probing -----

#[test]
fn channel_layout_maps_counts() {
    assert_eq!(ChannelLayout::channels(1).unwrap(), ChannelLayout::Mono);
    assert_eq!(ChannelLayout::channels(2).unwrap(), ChannelLayout::Stereo);
    assert_eq!(ChannelLayout::channels(6).unwrap(), ChannelLayout::Channels(6));
    // A degenerate zero-channel report is an error, not a silent mono fallback.
    assert_eq!(ChannelLayout::channels(0), Err(TimelineError::ZeroChannelCount));
}

#[test]
fn container_duration_converts_microseconds() {
    assert_eq!(container_seconds(2_000_000), Some(Seconds::from_secs(2)));
    assert_eq!(container_seconds(500_000), Some(Seconds::new(1, 2).unwrap()));
}

#[test]
fn non_positive_container_duration_is_unknown() {
    assert_eq!(container_seconds(0), None);
    assert_eq!(container_seconds(-5), None);
    assert_eq!(container_seconds(i64::MIN), None);
}

#[test]
fn stream_duration_scales_by_time_base() {
    // 150 ticks at a 1/30 time base is exactly 5 seconds.
    assert_eq!(raw_stream_seconds(150, 1, 30), Some(Seconds::from_secs(5)));
}

#[test]
fn degenerate_stream_duration_is_unknown() {
    assert_eq!(raw_stream_seconds(0, 1, 30), None);
    assert_eq!(raw_stream_seconds(-1, 1, 30), None);
    assert_eq!(raw_stream_seconds(150, 0, 30), None);
    assert_eq!(raw_stream_seconds(150, 1, 0), None);
}

#[test]
fn overflowing_stream_duration_is_unknown() {
    assert_eq!(raw_stream_seconds(i64::MAX, 2, 1), None);
}

#[test]
fn probed_media_converts_to_asset() {
    let probed = ProbedMedia { duration: Seconds::from_secs(10), video: None, audio: Some(audio()) };
    let asset = probed.into_asset(MediaSource::file("a.wav")).unwrap();
    assert_eq!(asset.duration(), Seconds::from_secs(10));
    assert_eq!(asset.audio().map(|a| a.channels), Some(ChannelLayout::Stereo));
}

#[test]
fn into_asset_rejects_zero_duration() {
    let probed = ProbedMedia { duration: Seconds::zero(), video: None, audio: None };
    assert!(probed.into_asset(MediaSource::file("x")).is_err());
}

#[test]
fn the_container_duration_wins_then_each_stream_in_turn() {
    let found = probe_outcome(None, Some(Ok(audio())), 3_000_000, Some((10, 1, 1)), None).unwrap();
    assert_eq!(found.duration, Seconds::from_secs(3));
    let found = probe_outcome(Some(Ok(video())), Some(Ok(audio())), 0, Some((90, 1, 30)), Some((8, 1, 1))).unwrap();
    assert_eq!(found.duration, Seconds::from_secs(3));
    let found = probe_outcome(Some(Ok(video())), Some(Ok(audio())), 0, Some((0, 1, 30)), Some((8, 1, 1))).unwrap();
    assert_eq!(found.duration, Seconds::from_secs(8));
    assert_eq!(
        probe_outcome(None, Some(Ok(audio())), 0, None, Some((8, 1, 0))),
        Err(MediaError::UnknownDuration)
    );
}

#[test]
fn a_stream_error_surfaces_only_when_nothing_was_read() {
    let video_error = MediaError::MetadataBounds;
    let audio_error = MediaError::Timeline(TimelineError::ZeroSampleRate);
    // Audio was read: the video failure is dropped.
    let found = probe_outcome(Some(Err(video_error.clone())), Some(Ok(audio())), 1_000_000, None, None).unwrap();
    assert_eq!(found.video, None);
    assert_eq!(found.audio, Some(audio()));
    // Nothing read: the video error comes first, then the audio one.
    assert_eq!(
        probe_outcome(Some(Err(video_error.clone())), Some(Err(audio_error.clone())), 1, None, None),
        Err(video_error)
    );
    assert_eq!(probe_outcome(None, Some(Err(audio_error.clone())), 1, None, None), Err(audio_error));
    assert_eq!(probe_outcome(None, None, 1, None, None), Err(MediaError::NoStreams));
}

#[test]
fn video_properties_fall_back_to_the_base_rate() {
    let avg = video_properties((30000, 1001), (30, 1), 1280, 720).unwrap();
    assert_eq!(avg.frame_rate, FrameRate::new(30000, 1001).unwrap());
    assert_eq!((avg.width, avg.height), (1280, 720));
    let base = video_properties((0, 0), (25, 1), 1920, 1080).unwrap();
    assert_eq!(base.frame_rate, FrameRate::whole(25).unwrap());
    assert_eq!(video_properties((0, 0), (-25, 1), 1, 1), Err(MediaError::MetadataBounds));
    assert_eq!(
        video_properties((0, 0), (0, 0), 1, 1),
        Err(MediaError::Timeline(TimelineError::NonPositiveFrameRate))
    );
}

#[test]
fn audio_properties_reject_zeros() {
    assert_eq!(audio_properties(48_000, 2), Ok(audio()));
    assert_eq!(audio_properties(0, 2), Err(MediaError::Timeline(TimelineError::ZeroSampleRate)));
    assert_eq!(audio_properties(48_000, 0), Err(MediaError::Timeline(TimelineError::ZeroChannelCount)));
}

// ----- the process command -----

#[test]
fn config_rejects_a_zero_frame_rate() {
    assert!(matches!(config(Some("take"), 0, true, 20, 50, vec![FlowTarget::Xmeml]), Err(CliError::Config(_))));
}

#[test]
fn config_names_the_sequence_after_the_input_and_maps_targets() {
    let built = config(Some("take"), 30, true, 20, 50, vec![FlowTarget::Fcpxml, FlowTarget::Otio]).unwrap();
    assert_eq!(built.name, "take");
    assert_eq!(built.targets, vec![FlowTarget::Fcpxml, FlowTarget::Otio]);
    assert_eq!(built.frame_rate, FrameRate::whole(30).unwrap());
    assert_eq!(built.gate.window(), Seconds::new(20, 1_000).unwrap());
    assert_eq!(built.gate.padding(), Seconds::new(50, 1_000).unwrap());
}

#[test]
fn config_reports_the_first_bad_setting() {
    assert_eq!(config(None, 0, false, 0, 0, vec![]).unwrap_err(), CliError::BadInputPath);
    assert_eq!(config(Some("t"), 0, false, 0, 0, vec![]).unwrap_err(), CliError::Gate(DetectError::NonPositiveWindow));
    assert_eq!(config(Some("t"), 0, false, 10, 0, vec![]).unwrap_err(), CliError::Gate(DetectError::InvalidThreshold));
}

#[test]
fn each_document_is_named_after_the_sequence() {
    assert_eq!(extension(FlowTarget::Xmeml), "xml");
    assert_eq!(extension(FlowTarget::Fcpxml), "fcpxml");
    assert_eq!(extension(FlowTarget::Otio), "otio");
    assert_eq!(export_file_name("take", FlowTarget::Xmeml), "take.xml");
    assert_eq!(export_file_name("rough cut", FlowTarget::Otio), "rough cut.otio");
}
