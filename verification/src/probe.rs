//! What a media probe decides from the stream metadata a backend reads: the
//! duration (container first, then each stream's own), the video and audio
//! properties, and when a source is unusable. Opening files and decoding
//! belong to the backend; these functions take the values it read.
use vstd::prelude::*;

use crate::asset::{AudioProperties, ChannelLayout, MediaAsset, MediaSource, VideoProperties};
use crate::error::TimelineError;
use crate::time::{FrameRate, SampleRate, Seconds};

verus! {

/// Failure probing or decoding a media source.
#[derive(Clone, Debug, PartialEq, Eq)]
pub enum MediaError {
    /// The media backend failed to open, demux, or decode the source.
    Ffmpeg,
    /// The source has neither a video nor an audio stream.
    NoStreams,
    /// Neither the container nor any stream reported a usable duration.
    UnknownDuration,
    /// Stream metadata does not fit a typed domain bound (e.g. a negative
    /// frame-rate numerator).
    MetadataBounds,
    /// The timeline IR rejected probed or converted values.
    Timeline(TimelineError),
    /// The source has no audio stream to decode.
    NoAudioStream,
    /// The audio stream decoded to no samples.
    NoAudioData,
    /// A decoded frame did not have the planar layout asked for.
    UnexpectedAudioLayout,
}

/// The properties a probe reads from a source: what becomes a timeline
/// [`MediaAsset`].
#[derive(Clone, Copy, Debug, PartialEq, Eq, Structural)]
pub struct ProbedMedia {
    /// The source's total duration.
    pub duration: Seconds,
    /// The video stream's properties, if it has one.
    pub video: Option<VideoProperties>,
    /// The audio stream's properties, if it has one.
    pub audio: Option<AudioProperties>,
}

impl ProbedMedia {
    /// Every value is one the timeline IR accepts in a field.
    pub open spec fn wf(self) -> bool {
        &&& self.duration.wf()
        &&& (self.video matches Some(v) ==> v.wf())
        &&& (self.audio matches Some(a) ==> a.wf())
    }

    /// Convert to a timeline asset for `source`; the IR's rejection of a
    /// non-positive duration or of an asset without streams surfaces as
    /// [`MediaError::Timeline`].
    pub fn into_asset(self, source: MediaSource) -> (r: Result<MediaAsset, MediaError>)
        requires
            self.wf(),
        ensures
            self.duration.numer() <= 0 ==> r == Err::<MediaAsset, MediaError>(
                MediaError::Timeline(TimelineError::NonPositiveDuration),
            ),
            self.duration.numer() > 0 && self.video is None && self.audio is None ==> r == Err::<
                MediaAsset,
                MediaError,
            >(MediaError::Timeline(TimelineError::AssetWithoutStreams)),
            self.duration.numer() > 0 && (self.video is Some || self.audio is Some) ==> (r matches Ok(
                a,
            ) && a.wf() && a.source() == source && a.duration() == self.duration && a.video()
                == self.video && a.audio() == self.audio),
    {
        match MediaAsset::new(source, self.duration, self.video, self.audio) {
            Ok(asset) => Ok(asset),
            Err(e) => Err(MediaError::Timeline(e)),
        }
    }
}

/// The FFmpeg-backed probe; its file access lives with the backend.
#[derive(Clone, Copy, Debug, Default)]
pub struct FfmpegProbe;

/// The FFmpeg-backed audio decoder; its file access lives with the backend.
#[derive(Clone, Copy, Debug, Default)]
pub struct FfmpegDecoder;

/// Microseconds per second: the unit of a container's duration.
pub const AV_TIME_BASE: i64 = 1_000_000;

/// A container duration of `micros` microseconds, if it is positive (zero
/// and the "no value" sentinel mean the container reports none).
pub fn container_seconds(micros: i64) -> (r: Option<Seconds>)
    ensures
        micros <= 0 ==> r is None,
        micros > 0 ==> (r matches Some(s) && s.wf() && s.denotes(micros as int, AV_TIME_BASE as int)),
{
    if micros <= 0 {
        return None;
    }
    match Seconds::new(micros, AV_TIME_BASE) {
        Ok(s) => Some(s),
        Err(_) => None,
    }
}

/// A stream duration of `raw` ticks of `time_base_num / time_base_den`
/// seconds, if every value is positive and the tick count times the
/// numerator fits in `i64`.
pub fn raw_stream_seconds(raw: i64, time_base_num: i64, time_base_den: i64) -> (r: Option<Seconds>)
    ensures
        (raw <= 0 || time_base_num <= 0 || time_base_den <= 0 || raw * time_base_num > i64::MAX)
            ==> r is None,
        (raw > 0 && time_base_num > 0 && time_base_den > 0 && raw * time_base_num <= i64::MAX)
            ==> (r matches Some(s) && s.wf() && s.denotes(
            raw * time_base_num,
            time_base_den as int,
        )),
{
    if raw <= 0 || time_base_num <= 0 || time_base_den <= 0 {
        return None;
    }
    let numerator = match raw.checked_mul(time_base_num) {
        Some(n) => n,
        None => return None,
    };
    match Seconds::new(numerator, time_base_den) {
        Ok(s) => Some(s),
        Err(_) => None,
    }
}

/// A stream's duration, as a numerator and denominator of seconds, from the
/// ticks and time base a backend reads: present when every value is positive
/// and the tick count times the time base's numerator fits in `i64`.
pub open spec fn stream_duration(ticks: Option<(i64, i64, i64)>) -> Option<(int, int)> {
    match ticks {
        None => None,
        Some(t) => if t.0 > 0 && t.1 > 0 && t.2 > 0 && t.0 * t.1 <= i64::MAX {
            Some((t.0 * t.1, t.2 as int))
        } else {
            None
        },
    }
}

fn stream_seconds(ticks: Option<(i64, i64, i64)>) -> (r: Option<Seconds>)
    ensures
        match stream_duration(ticks) {
            None => r is None,
            Some((n, d)) => r matches Some(s) && s.wf() && s.denotes(n, d),
        },
{
    match ticks {
        None => None,
        Some((raw, num, den)) => raw_stream_seconds(raw, num, den),
    }
}

/// The video properties from a stream's average frame rate, its base rate
/// (used when the average is unknown, a zero numerator), and its decoder's
/// frame size. A rate component that is negative does not fit the
/// properties; a zero one is rejected by the timeline IR.
pub fn video_properties(avg: (i32, i32), base: (i32, i32), width: u32, height: u32) -> (r: Result<
    VideoProperties,
    MediaError,
>)
    ensures
        ({
            let rate = if avg.0 > 0 {
                avg
            } else {
                base
            };
            if rate.0 < 0 || rate.1 < 0 {
                r == Err::<VideoProperties, MediaError>(MediaError::MetadataBounds)
            } else if rate.0 == 0 || rate.1 == 0 {
                r == Err::<VideoProperties, MediaError>(
                    MediaError::Timeline(TimelineError::NonPositiveFrameRate),
                )
            } else {
                r matches Ok(v) && v.wf() && v.width == width && v.height == height
                    && v.frame_rate.numer() * rate.1 == rate.0 * v.frame_rate.denom()
            }
        }),
{
    let rate = if avg.0 > 0 {
        avg
    } else {
        base
    };
    if rate.0 < 0 || rate.1 < 0 {
        return Err(MediaError::MetadataBounds);
    }
    match FrameRate::new(rate.0 as u32, rate.1 as u32) {
        Ok(frame_rate) => Ok(VideoProperties { frame_rate, width, height }),
        Err(e) => Err(MediaError::Timeline(e)),
    }
}

/// The audio properties from a stream decoder's sample rate and channel
/// count; a zero of either is rejected by the timeline IR.
pub fn audio_properties(rate: u32, channels: u16) -> (r: Result<AudioProperties, MediaError>)
    ensures
        rate == 0 ==> r == Err::<AudioProperties, MediaError>(
            MediaError::Timeline(TimelineError::ZeroSampleRate),
        ),
        rate > 0 && channels == 0 ==> r == Err::<AudioProperties, MediaError>(
            MediaError::Timeline(TimelineError::ZeroChannelCount),
        ),
        rate > 0 && channels > 0 ==> (r matches Ok(a) && a.wf() && a.sample_rate.hertz() == rate
            && a.channels.spec_count() == channels),
{
    let sample_rate = match SampleRate::new(rate) {
        Ok(s) => s,
        Err(e) => return Err(MediaError::Timeline(e)),
    };
    match ChannelLayout::channels(channels) {
        Ok(layout) => Ok(AudioProperties { sample_rate, channels: layout }),
        Err(e) => Err(MediaError::Timeline(e)),
    }
}

/// What a probe of a source gives, from what the backend read of it: the
/// outcome of reading its best video and best audio stream (absent where it
/// has none), the container's duration in microseconds, and each stream's
/// duration in ticks of its time base.
pub open spec fn probe_result(
    video: Option<Result<VideoProperties, MediaError>>,
    audio: Option<Result<AudioProperties, MediaError>>,
    container_micros: i64,
    video_ticks: Option<(i64, i64, i64)>,
    audio_ticks: Option<(i64, i64, i64)>,
) -> Result<(Option<VideoProperties>, Option<AudioProperties>, (int, int)), MediaError> {
    let v = match video {
        Some(Ok(p)) => Some(p),
        _ => None,
    };
    let a = match audio {
        Some(Ok(p)) => Some(p),
        _ => None,
    };
    if v is None && a is None {
        match (video, audio) {
            (Some(Err(e)), _) => Err(e),
            (_, Some(Err(e))) => Err(e),
            _ => Err(MediaError::NoStreams),
        }
    } else if container_micros > 0 {
        Ok((v, a, (container_micros as int, AV_TIME_BASE as int)))
    } else {
        match stream_duration(video_ticks) {
            Some(d) => Ok((v, a, d)),
            None => match stream_duration(audio_ticks) {
                Some(d) => Ok((v, a, d)),
                None => Err(MediaError::UnknownDuration),
            },
        }
    }
}

/// Decide a probe from what the backend read: the streams that were read
/// successfully (an error surfaces only when no stream could be read, video
/// first), and the duration from the container, else the video stream, else
/// the audio stream.
pub fn probe_outcome(
    video: Option<Result<VideoProperties, MediaError>>,
    audio: Option<Result<AudioProperties, MediaError>>,
    container_micros: i64,
    video_ticks: Option<(i64, i64, i64)>,
    audio_ticks: Option<(i64, i64, i64)>,
) -> (r: Result<ProbedMedia, MediaError>)
    ensures
        match probe_result(video, audio, container_micros, video_ticks, audio_ticks) {
            Err(e) => r == Err::<ProbedMedia, MediaError>(e),
            Ok((v, a, (n, d))) => r matches Ok(m) && m.video == v && m.audio == a
                && m.duration.wf() && m.duration.denotes(n, d),
        },
{
    let v = match &video {
        Some(Ok(p)) => Some(*p),
        _ => None,
    };
    let a = match &audio {
        Some(Ok(p)) => Some(*p),
        _ => None,
    };
    if v.is_none() && a.is_none() {
        if let Some(Err(e)) = video {
            return Err(e);
        }
        if let Some(Err(e)) = audio {
            return Err(e);
        }
        return Err(MediaError::NoStreams);
    }
    let duration = match container_seconds(container_micros) {
        Some(d) => d,
        None => match stream_seconds(video_ticks) {
            Some(d) => d,
            None => match stream_seconds(audio_ticks) {
                Some(d) => d,
                None => return Err(MediaError::UnknownDuration),
            },
        },
    };
    Ok(ProbedMedia { duration, video: v, audio: a })
}

} // verus!
