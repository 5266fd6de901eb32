//! FCPXML exporter: the interchange format Final Cut Pro and DaVinci Resolve
//! prefer over legacy FCP7 `xmeml`.
//!
//! FCPXML separates resources (each source file an `<asset>`, each pixel
//! geometry and frame rate a `<format>`) from the timeline (a `<sequence>`
//! whose `<spine>` lays the primary track end to end, with every other track
//! hung off the first spine element as connected clips on their own lanes).
//! Times are exact rational seconds (`<frames>/<fps>s`). Transitions,
//! fractional NTSC rates and times off the frame grid are rejected.
use vstd::prelude::*;

use crate::asset::{leaf_name, MediaAsset};
use crate::error::TimelineError;
use crate::nle::{frames_exact, whole_fps, whole_frames, NleError};
use crate::text::{decimal, decimal_digits, push_decimal, push_digits};
use crate::time::{FrameRate, Seconds};
use crate::timeline::Timeline;
use crate::track::{occupied_upto, zero_seconds, Clip, Track, TrackItem, TrackKind};
use crate::xmeml::{
    asset_position, clip_label, label_of, position_of, rendered_or_error, result_view,
};
use crate::xml::{
    attrs_view, empty_tag, events_view, new_attrs, open_tag, push_attr, push_decl, push_doctype,
    push_empty_with, push_end, push_start, push_start_with, render_xml, lemma_leading_markup, XmlEvent, XmlEventView,
};

verus! {

broadcast use Seconds::lemma_from_raw;

/// An attribute list as plain values.
pub type Attrs = Seq<(Seq<char>, Seq<char>)>;

/// A video `<format>` resource: pixel geometry at a whole frame rate.
#[derive(Clone, Copy, Debug, PartialEq, Eq, Structural)]
pub struct Format {
    /// Whole frames per second.
    pub fps: u32,
    /// Frame width in pixels.
    pub width: u32,
    /// Frame height in pixels.
    pub height: u32,
}

/// The resource id numbered `n`: `r1`, `r2`, ...
pub open spec fn resource_id(n: int) -> Seq<char> {
    "r"@ + decimal_digits(n as nat)
}

/// `"1"` or `"0"`.
pub open spec fn bool_text(value: bool) -> Seq<char> {
    if value {
        "1"@
    } else {
        "0"@
    }
}

/// An FCPXML boolean attribute value: `"1"` or `"0"`.
pub fn bool_attr(value: bool) -> (s: String)
    ensures
        s@ == bool_text(value),
{
    if value {
        String::from_str("1")
    } else {
        String::from_str("0")
    }
}

/// `seconds` as an FCPXML rational time at `fps`, e.g. `90/30s`, or `0s`.
pub open spec fn fcp_time(seconds: Seconds, fps: int) -> Result<Seq<char>, NleError> {
    match whole_frames(seconds, fps) {
        None => Err(NleError::UnalignedDuration),
        Some(frames) => if frames == 0 {
            Ok("0s"@)
        } else {
            Ok(decimal(frames as int) + "/"@ + decimal(fps) + "s"@)
        },
    }
}

/// Format `seconds` as an FCPXML rational time at `rate`, erroring if it is
/// not exactly a frame boundary.
pub fn fcp_time_text(seconds: Seconds, rate: FrameRate) -> (r: Result<String, NleError>)
    requires
        seconds.wf(),
        rate.wf(),
        whole_fps(rate) is Some,
    ensures
        match fcp_time(seconds, rate.numer() as int) {
            Ok(t) => r matches Ok(s) && s@ == t,
            Err(e) => r == Err::<String, NleError>(e),
        },
{
    let frames = frames_exact(seconds, rate)?;
    if frames == 0 {
        return Ok(String::from_str("0s"));
    }
    let mut text = String::new();
    push_decimal(&mut text, frames);
    text.push('/');
    push_decimal(&mut text, rate.numer());
    text.push('s');
    proof {
        reveal_strlit("/");
        reveal_strlit("s");
        assert(text@ =~= decimal(frames as int) + "/"@ + decimal(rate.numer() as int) + "s"@);
    }
    Ok(text)
}

/// The id text `r<n>`.
fn resource_id_text(n: u64) -> (s: String)
    ensures
        s@ == resource_id(n as int),
{
    let mut s = String::from_str("r");
    push_digits(&mut s, n);
    s
}

// ----- resources -----

/// The geometry of the first of the first `i` assets with a video stream.
pub open spec fn video_geometry_upto(assets: Seq<MediaAsset>, i: nat) -> Option<(u32, u32)>
    decreases i,
{
    if i == 0 || i > assets.len() {
        None
    } else {
        match video_geometry_upto(assets, (i - 1) as nat) {
            Some(g) => Some(g),
            None => match assets[i - 1].video() {
                Some(v) => Some((v.width, v.height)),
                None => None,
            },
        }
    }
}

/// The sequence geometry: the first video asset's, else 1920x1080.
pub open spec fn sequence_geometry(assets: Seq<MediaAsset>) -> (u32, u32) {
    match video_geometry_upto(assets, assets.len()) {
        Some(g) => g,
        None => (1920, 1080),
    }
}

/// `formats` with `key` added at the end unless already present.
pub open spec fn interned(formats: Seq<Format>, key: Format) -> Seq<Format> {
    if formats.contains(key) {
        formats
    } else {
        formats.push(key)
    }
}

/// The formats after the first `i` assets: the sequence format first, then
/// each video asset's format, without repeats.
pub open spec fn formats_upto(assets: Seq<MediaAsset>, seq_fps: u32, i: nat) -> Result<
    Seq<Format>,
    NleError,
>
    decreases i,
{
    if i == 0 || i > assets.len() {
        let g = sequence_geometry(assets);
        Ok(seq![Format { fps: seq_fps, width: g.0, height: g.1 }])
    } else {
        match formats_upto(assets, seq_fps, (i - 1) as nat) {
            Err(e) => Err(e),
            Ok(formats) => match assets[i - 1].video() {
                None => Ok(formats),
                Some(v) => match whole_fps(v.frame_rate) {
                    None => Err(NleError::UnsupportedFrameRate),
                    Some(f) => Ok(interned(formats, Format { fps: f, width: v.width, height: v.height })),
                },
            },
        }
    }
}

/// The deduplicated `<format>` resources of a timeline.
pub open spec fn resource_formats(assets: Seq<MediaAsset>, seq_fps: u32) -> Result<
    Seq<Format>,
    NleError,
> {
    formats_upto(assets, seq_fps, assets.len())
}

/// The index of `key` among the first `i` formats.
pub open spec fn format_position_upto(formats: Seq<Format>, key: Format, i: nat) -> Option<int>
    decreases i,
{
    if i == 0 || i > formats.len() {
        None
    } else {
        match format_position_upto(formats, key, (i - 1) as nat) {
            Some(k) => Some(k),
            None => if formats[i - 1] == key {
                Some(i - 1)
            } else {
                None
            },
        }
    }
}

/// The index of `key` among the formats.
pub open spec fn format_position(formats: Seq<Format>, key: Format) -> Option<int> {
    format_position_upto(formats, key, formats.len())
}

proof fn lemma_format_position_sticks(formats: Seq<Format>, key: Format, i: nat, j: nat)
    requires
        i <= j <= formats.len(),
        format_position_upto(formats, key, i) is Some,
    ensures
        format_position_upto(formats, key, j) == format_position_upto(formats, key, i),
    decreases j - i,
{
    if i < j {
        lemma_format_position_sticks(formats, key, i, (j - 1) as nat);
    }
}

proof fn lemma_format_position_none(formats: Seq<Format>, key: Format, i: nat)
    requires
        i <= formats.len(),
    ensures
        format_position_upto(formats, key, i) is None <==> forall|k: int|
            0 <= k < i ==> formats[k] != key,
        format_position_upto(formats, key, i) matches Some(k) ==> 0 <= k < i && formats[k] == key,
    decreases i,
{
    if i > 0 {
        lemma_format_position_none(formats, key, (i - 1) as nat);
    }
}

/// Where `key` sits among `formats`.
fn find_format(formats: &Vec<Format>, key: Format) -> (r: Option<usize>)
    ensures
        match format_position(formats@, key) {
            Some(k) => r matches Some(x) && x as int == k && k < formats@.len(),
            None => r is None,
        },
{
    let n = formats.len();
    let mut i: usize = 0;
    while i < n
        invariant
            n == formats@.len(),
            i <= n,
            format_position_upto(formats@, key, i as nat) is None,
        decreases n - i,
    {
        let f = formats[i];
        if f.fps == key.fps && f.width == key.width && f.height == key.height {
            proof {
                lemma_format_position_sticks(formats@, key, (i + 1) as nat, n as nat);
            }
            return Some(i);
        }
        i = i + 1;
    }
    None
}

/// Add the format `key` unless it is already present.
pub fn intern_format(formats: &mut Vec<Format>, key: Format)
    ensures
        final(formats)@ == interned(old(formats)@, key),
{
    let found = find_format(formats, key);
    proof {
        lemma_format_position_none(formats@, key, formats@.len());
        if found is Some {
            assert(formats@[found->Some_0 as int] == key);
            assert(formats@.contains(key));
        }
    }
    if found.is_none() {
        formats.push(key);
    }
}

/// The resources a document needs: its deduplicated formats. Assets are the
/// timeline's own, in order, numbered after the formats.
pub struct Resources {
    /// The `<format>` resources, the sequence format first.
    pub formats: Vec<Format>,
}

impl Resources {
    /// Collect the formats of `timeline` at the sequence rate `seq_fps`.
    pub fn build(timeline: &Timeline, seq_fps: u32) -> (r: Result<Resources, NleError>)
        requires
            timeline.wf(),
        ensures
            match resource_formats(timeline.asset_seq(), seq_fps) {
                Ok(formats) => r matches Ok(res) && res.formats@ == formats,
                Err(e) => r is Err && r->Err_0 == e,
            },
    {
        let assets = timeline.assets();
        let n = assets.len();
        let mut geometry: Option<(u32, u32)> = None;
        let mut i: usize = 0;
        while i < n
            invariant
                n == assets@.len(),
                i <= n,
                geometry == video_geometry_upto(assets@, i as nat),
            decreases n - i,
        {
            if geometry.is_none() {
                if let Some(video) = assets[i].video() {
                    geometry = Some((video.width, video.height));
                }
            }
            i = i + 1;
        }
        let (width, height) = match geometry {
            Some(g) => g,
            None => (1920, 1080),
        };
        let mut formats: Vec<Format> = Vec::new();
        intern_format(&mut formats, Format { fps: seq_fps, width, height });
        assert(formats@ =~= seq![Format { fps: seq_fps, width, height }]);
        let mut j: usize = 0;
        while j < n
            invariant
                n == assets@.len(),
                j <= n,
                timeline.wf(),
                assets@ == timeline.asset_seq(),
                formats_upto(assets@, seq_fps, j as nat) == Ok::<Seq<Format>, NleError>(formats@),
            decreases n - j,
        {
            if let Some(video) = assets[j].video() {
                assert(timeline.asset_seq()[j as int].wf());
                let fps = match video.frame_rate.as_whole() {
                    Some(f) => f,
                    None => {
                        proof {
                            lemma_formats_error_sticks(assets@, seq_fps, (j + 1) as nat, n as nat);
                        }
                        return Err(NleError::UnsupportedFrameRate);
                    },
                };
                intern_format(&mut formats, Format { fps, width: video.width, height: video.height });
            }
            j = j + 1;
        }
        Ok(Resources { formats })
    }
}

proof fn lemma_formats_error_sticks(assets: Seq<MediaAsset>, seq_fps: u32, i: nat, j: nat)
    requires
        i <= j <= assets.len(),
        formats_upto(assets, seq_fps, i) is Err,
    ensures
        formats_upto(assets, seq_fps, j) == formats_upto(assets, seq_fps, i),
    decreases j - i,
{
    if i < j {
        lemma_formats_error_sticks(assets, seq_fps, i, (j - 1) as nat);
    }
}

// ----- resource elements -----

/// The `<format>` element for `format`, numbered `n`.
pub open spec fn format_event(format: Format, n: int) -> XmlEventView {
    empty_tag(
        "format"@,
        seq![
            ("id"@, resource_id(n)),
            ("frameDuration"@, "1/"@ + decimal(format.fps as int) + "s"@),
            ("width"@, decimal(format.width as int)),
            ("height"@, decimal(format.height as int)),
        ],
    )
}

/// The `<format>` elements of the first `i` formats.
pub open spec fn format_events_upto(formats: Seq<Format>, i: nat) -> Seq<XmlEventView>
    decreases i,
{
    if i == 0 || i > formats.len() {
        Seq::empty()
    } else {
        format_events_upto(formats, (i - 1) as nat).push(format_event(formats[i - 1], i as int))
    }
}

/// The `format` attribute of a video asset's `<asset>`, if it has video.
pub open spec fn video_attrs(formats: Seq<Format>, asset: MediaAsset) -> Result<Attrs, NleError> {
    match asset.video() {
        None => Ok(Seq::empty()),
        Some(v) => match whole_fps(v.frame_rate) {
            None => Err(NleError::UnsupportedFrameRate),
            Some(f) => match format_position(formats, Format { fps: f, width: v.width, height: v.height }) {
                None => Err(NleError::UnsupportedFrameRate),
                Some(k) => Ok(seq![("format"@, resource_id(k + 1))]),
            },
        },
    }
}

/// The audio attributes of an audio asset's `<asset>`, if it has audio.
pub open spec fn audio_attrs(asset: MediaAsset) -> Attrs {
    match asset.audio() {
        None => Seq::empty(),
        Some(a) => seq![
            ("audioSources"@, "1"@),
            ("audioChannels"@, decimal(a.channels.spec_count() as int)),
            ("audioRate"@, decimal(a.sample_rate.hertz() as int)),
        ],
    }
}

/// The `<asset>` element of `asset`, numbered `id_number`.
pub open spec fn asset_events(formats: Seq<Format>, fps: int, asset: MediaAsset, id_number: int) -> Result<
    Seq<XmlEventView>,
    NleError,
> {
    let id = resource_id(id_number);
    let name = match leaf_name(asset.source()@) {
        Some(leaf) => leaf,
        None => id,
    };
    match fcp_time(asset.duration(), fps) {
        Err(e) => Err(e),
        Ok(duration) => match video_attrs(formats, asset) {
            Err(e) => Err(e),
            Ok(video) => Ok(
                seq![
                    open_tag(
                        "asset"@,
                        seq![
                            ("id"@, id),
                            ("name"@, name),
                            ("start"@, "0s"@),
                            ("duration"@, duration),
                            ("hasVideo"@, bool_text(asset.video() is Some)),
                            ("hasAudio"@, bool_text(asset.audio() is Some)),
                        ] + video + audio_attrs(asset),
                    ),
                    empty_tag(
                        "media-rep"@,
                        seq![("kind"@, "original-media"@), ("src"@, asset.source()@)],
                    ),
                    XmlEventView::End("asset"@),
                ],
            ),
        },
    }
}

/// The `<asset>` elements of the first `i` assets, numbered after the formats.
pub open spec fn asset_events_upto(formats: Seq<Format>, fps: int, assets: Seq<MediaAsset>, i: nat) -> Result<
    Seq<XmlEventView>,
    NleError,
>
    decreases i,
{
    if i == 0 || i > assets.len() {
        Ok(Seq::empty())
    } else {
        match asset_events_upto(formats, fps, assets, (i - 1) as nat) {
            Err(e) => Err(e),
            Ok(evs) => match asset_events(formats, fps, assets[i - 1], (formats.len() + i) as int) {
                Err(e) => Err(e),
                Ok(more) => Ok(evs + more),
            },
        }
    }
}

/// The `<resources>` element.
pub open spec fn resources_events(formats: Seq<Format>, fps: int, assets: Seq<MediaAsset>) -> Result<
    Seq<XmlEventView>,
    NleError,
> {
    match asset_events_upto(formats, fps, assets, assets.len()) {
        Err(e) => Err(e),
        Ok(evs) => Ok(seq![open_tag("resources"@, Seq::empty())] + format_events_upto(
            formats,
            formats.len(),
        ) + evs + seq![XmlEventView::End("resources"@)]),
    }
}

fn format_attr_value(prefix: &str, n: u32, suffix: &str) -> (s: String)
    ensures
        s@ == prefix@ + decimal(n as int) + suffix@,
{
    let mut s = String::from_str(prefix);
    push_decimal(&mut s, n as i64);
    s.append(suffix);
    s
}

fn write_format(events: &mut Vec<XmlEvent>, format: Format, n: u64)
    ensures
        events_view(final(events)@) == events_view(old(events)@).push(format_event(format, n as int)),
{
    let mut attrs = new_attrs();
    push_attr(&mut attrs, "id", resource_id_text(n));
    push_attr(&mut attrs, "frameDuration", format_attr_value("1/", format.fps, "s"));
    push_attr(&mut attrs, "width", format_attr_value("", format.width, ""));
    push_attr(&mut attrs, "height", format_attr_value("", format.height, ""));
    proof {
        reveal_strlit("");
        assert(attrs_view(attrs@) =~= seq![
            ("id"@, resource_id(n as int)),
            ("frameDuration"@, "1/"@ + decimal(format.fps as int) + "s"@),
            ("width"@, decimal(format.width as int)),
            ("height"@, decimal(format.height as int)),
        ]);
    }
    push_empty_with(events, "format", &attrs);
}

fn write_asset(
    events: &mut Vec<XmlEvent>,
    formats: &Vec<Format>,
    rate: FrameRate,
    asset: &MediaAsset,
    id_number: u64,
) -> (r: Result<(), NleError>)
    requires
        rate.wf(),
        whole_fps(rate) is Some,
        asset.wf(),
    ensures
        match asset_events(formats@, rate.numer() as int, *asset, id_number as int) {
            Err(e) => r == Err::<(), NleError>(e),
            Ok(evs) => r is Ok && events_view(final(events)@) == events_view(old(events)@) + evs,
        },
{
    let id = resource_id_text(id_number);
    let name = match asset.source().file_name() {
        Some(leaf) => String::from_str(leaf),
        None => id.clone(),
    };
    let has_video = asset.video().is_some();
    let has_audio = asset.audio().is_some();
    let duration = fcp_time_text(asset.duration(), rate)?;
    let mut attrs = new_attrs();
    push_attr(&mut attrs, "id", id);
    push_attr(&mut attrs, "name", name);
    push_attr(&mut attrs, "start", String::from_str("0s"));
    push_attr(&mut attrs, "duration", duration);
    push_attr(&mut attrs, "hasVideo", bool_attr(has_video));
    push_attr(&mut attrs, "hasAudio", bool_attr(has_audio));
    let ghost base = attrs_view(attrs@);
    assert(base =~= seq![
        ("id"@, resource_id(id_number as int)),
        ("name"@, match leaf_name(asset.source()@) {
            Some(leaf) => leaf,
            None => resource_id(id_number as int),
        }),
        ("start"@, "0s"@),
        ("duration"@, fcp_time(asset.duration(), rate.numer() as int)->Ok_0),
        ("hasVideo"@, bool_text(asset.video() is Some)),
        ("hasAudio"@, bool_text(asset.audio() is Some)),
    ]);
    if let Some(video) = asset.video() {
        let fps = match video.frame_rate.as_whole() {
            Some(f) => f,
            None => {
                return Err(NleError::UnsupportedFrameRate);
            },
        };
        let index = match find_format(formats, Format { fps, width: video.width, height: video.height }) {
            Some(k) => k,
            None => {
                return Err(NleError::UnsupportedFrameRate);
            },
        };
        assert(index < formats.len());
        push_attr(&mut attrs, "format", resource_id_text((index as u64) + 1));
    }
    let ghost with_video = attrs_view(attrs@);
    if let Some(audio) = asset.audio() {
        push_attr(&mut attrs, "audioSources", String::from_str("1"));
        push_attr(&mut attrs, "audioChannels", format_attr_value("", audio.channels.count() as u32, ""));
        push_attr(&mut attrs, "audioRate", format_attr_value("", audio.sample_rate.hertz(), ""));
    }
    proof {
        reveal_strlit("");
        assert(with_video =~= base + video_attrs(formats@, *asset)->Ok_0);
        assert(attrs_view(attrs@) =~= with_video + audio_attrs(*asset));
    }
    let ghost e0 = events_view(events@);
    push_start_with(events, "asset", &attrs);
    let ghost e1 = events_view(events@);
    proof {
        let duration = fcp_time(asset.duration(), rate.numer() as int)->Ok_0;
        let name = match leaf_name(asset.source()@) {
            Some(leaf) => leaf,
            None => resource_id(id_number as int),
        };
        assert(attrs_view(attrs@) == seq![
            ("id"@, resource_id(id_number as int)),
            ("name"@, name),
            ("start"@, "0s"@),
            ("duration"@, duration),
            ("hasVideo"@, bool_text(asset.video() is Some)),
            ("hasAudio"@, bool_text(asset.audio() is Some)),
        ] + video_attrs(formats@, *asset)->Ok_0 + audio_attrs(*asset));
        assert(e1 == e0.push(open_tag("asset"@, attrs_view(attrs@))));
    }
    let mut rep = new_attrs();
    push_attr(&mut rep, "kind", String::from_str("original-media"));
    push_attr(&mut rep, "src", String::from_str(asset.source().path()));
    push_empty_with(events, "media-rep", &rep);
    push_end(events, "asset");
    proof {
        assert(attrs_view(rep@) =~= seq![("kind"@, "original-media"@), ("src"@, asset.source()@)]);
        let evs = asset_events(formats@, rate.numer() as int, *asset, id_number as int)->Ok_0;
        assert(events_view(final(events)@) =~= events_view(old(events)@) + evs);
    }
    Ok(())
}

proof fn lemma_assets_error_sticks(formats: Seq<Format>, fps: int, assets: Seq<MediaAsset>, i: nat, j: nat)
    requires
        i <= j <= assets.len(),
        asset_events_upto(formats, fps, assets, i) is Err,
    ensures
        asset_events_upto(formats, fps, assets, j) == asset_events_upto(formats, fps, assets, i),
    decreases j - i,
{
    if i < j {
        lemma_assets_error_sticks(formats, fps, assets, i, (j - 1) as nat);
    }
}

fn write_resources(
    events: &mut Vec<XmlEvent>,
    formats: &Vec<Format>,
    timeline: &Timeline,
    rate: FrameRate,
) -> (r: Result<(), NleError>)
    requires
        timeline.wf(),
        rate.wf(),
        whole_fps(rate) is Some,
        formats@.len() <= timeline.asset_seq().len() + 1,
        timeline.asset_seq().len() < 0x7fff_ffff_ffff_ffff,
    ensures
        match resources_events(formats@, rate.numer() as int, timeline.asset_seq()) {
            Err(e) => r == Err::<(), NleError>(e),
            Ok(evs) => r is Ok && events_view(final(events)@) == events_view(old(events)@) + evs,
        },
{
    let ghost fps = rate.numer() as int;
    let ghost start = events_view(events@);
    push_start(events, "resources");
    let nf = formats.len();
    let mut i: usize = 0;
    while i < nf
        invariant
            nf == formats@.len(),
            nf <= 0x7fff_ffff_ffff_ffff,
            i <= nf,
            events_view(events@) == start.push(open_tag("resources"@, Seq::empty()))
                + format_events_upto(formats@, i as nat),
        decreases nf - i,
    {
        write_format(events, formats[i], (i as u64) + 1);
        i = i + 1;
    }
    let assets = timeline.assets();
    let na = assets.len();
    let ghost mid = events_view(events@);
    let mut j: usize = 0;
    while j < na
        invariant
            na == assets@.len(),
            assets@ == timeline.asset_seq(),
            timeline.wf(),
            rate.wf(),
            whole_fps(rate) is Some,
            fps == rate.numer(),
            nf == formats@.len(),
            nf <= 0x7fff_ffff_ffff_ffff,
            na < 0x7fff_ffff_ffff_ffff,
            j <= na,
            asset_events_upto(formats@, fps, assets@, j as nat) matches Ok(evs) && events_view(events@)
                == mid + evs,
        decreases na - j,
    {
        assert(timeline.asset_seq()[j as int].wf());
        let ghost before = events_view(events@);
        let written = write_asset(events, formats, rate, &assets[j], (nf as u64) + (j as u64) + 1);
        if let Err(e) = written {
            proof {
                lemma_assets_error_sticks(formats@, fps, assets@, (j + 1) as nat, na as nat);
            }
            return Err(e);
        }
        proof {
            let prev = asset_events_upto(formats@, fps, assets@, j as nat)->Ok_0;
            let more = asset_events(formats@, fps, assets@[j as int], (nf + j + 1) as int)->Ok_0;
            assert(events_view(events@) =~= mid + (prev + more));
        }
        j = j + 1;
    }
    push_end(events, "resources");
    proof {
        let evs = resources_events(formats@, fps, timeline.asset_seq())->Ok_0;
        assert(events_view(events@) =~= start + evs);
    }
    Ok(())
}

// ----- the sequence -----

/// The longest track's occupied total among the first `i` tracks (zero for
/// none); a track whose total overflows stops the export.
pub open spec fn total_upto(tracks: Seq<Track>, i: nat) -> Result<Seconds, NleError>
    decreases i,
{
    if i == 0 || i > tracks.len() {
        Ok(zero_seconds())
    } else {
        match total_upto(tracks, (i - 1) as nat) {
            Err(e) => Err(e),
            Ok(longest) => match tracks[i - 1].spec_occupied() {
                None => Err(NleError::InvalidTimeline(TimelineError::OccupiedOverflow)),
                Some(occupied) => Ok(
                    if occupied.spec_before(longest) {
                        longest
                    } else {
                        occupied
                    },
                ),
            },
        }
    }
}

proof fn lemma_total_error_sticks(tracks: Seq<Track>, i: nat, j: nat)
    requires
        i <= j <= tracks.len(),
        total_upto(tracks, i) is Err,
    ensures
        total_upto(tracks, j) == total_upto(tracks, i),
    decreases j - i,
{
    if i < j {
        lemma_total_error_sticks(tracks, i, (j - 1) as nat);
    }
}

/// The sequence total over the first `i` tracks is the longest of them: no
/// track's occupied duration runs past it, and it is one of those durations
/// (zero when there are no tracks).
pub proof fn lemma_total_is_longest(tracks: Seq<Track>, i: nat)
    requires
        i <= tracks.len(),
        forall|j: int|
            0 <= j < i ==> ((#[trigger] tracks[j]).spec_occupied() matches Some(o) ==> o.wf()),
    ensures
        total_upto(tracks, i) matches Ok(total) ==> {
            &&& forall|j: int|
                0 <= j < i ==> ((#[trigger] tracks[j]).spec_occupied() matches Some(o)
                    && o.spec_at_or_before(total))
            &&& total == zero_seconds() || exists|j: int|
                0 <= j < i && (#[trigger] tracks[j]).spec_occupied() == Some(total)
        },
    decreases i,
{
    if i > 0 {
        lemma_total_is_longest(tracks, (i - 1) as nat);
        if total_upto(tracks, i) is Ok {
            let longest = total_upto(tracks, (i - 1) as nat)->Ok_0;
            let occupied = tracks[i - 1].spec_occupied()->Some_0;
            let total = total_upto(tracks, i)->Ok_0;
            assert(longest.denom() > 0) by {
                if longest != zero_seconds() {
                    let j = choose|j: int|
                        0 <= j < i - 1 && (#[trigger] tracks[j]).spec_occupied() == Some(longest);
                    assert(tracks[j].spec_occupied() matches Some(o) ==> o.wf());
                }
            }
            assert(tracks[i - 1].spec_occupied() matches Some(o) ==> o.wf());
            assert forall|j: int| 0 <= j < i implies (#[trigger] tracks[j]).spec_occupied() matches Some(
                o,
            ) && o.spec_at_or_before(total) by {
                if j < i - 1 {
                    let o = tracks[j].spec_occupied()->Some_0;
                    assert(tracks[j].spec_occupied() matches Some(o) ==> o.wf());
                    crate::time::lemma_cross_trans(
                        o.numer() as int,
                        o.denom() as int,
                        longest.numer() as int,
                        longest.denom() as int,
                        occupied.numer() as int,
                        occupied.denom() as int,
                    );
                }
            }
            if total != zero_seconds() && total == occupied {
                assert(tracks[i - 1].spec_occupied() == Some(total));
            }
        }
    }
}

/// The longest track decides the sequence length; a transition does not
/// advance a track, so the occupied totals already exclude it.
pub fn total_duration(timeline: &Timeline) -> (r: Result<Seconds, NleError>)
    requires
        timeline.wf(),
    ensures
        r == total_upto(timeline.track_seq(), timeline.track_seq().len()),
        r matches Ok(total) ==> total.wf(),
        r matches Ok(total) ==> forall|j: int|
            0 <= j < timeline.track_seq().len() ==> ((#[trigger] timeline.track_seq()[j]).spec_occupied()
                matches Some(o) && o.spec_at_or_before(total)),
        r matches Ok(total) ==> total == zero_seconds() || exists|j: int|
            0 <= j < timeline.track_seq().len() && (#[trigger] timeline.track_seq()[j]).spec_occupied()
                == Some(total),
{
    let tracks = timeline.tracks();
    let n = tracks.len();
    let mut longest = Seconds::zero();
    let mut i: usize = 0;
    while i < n
        invariant
            n == tracks@.len(),
            tracks@ == timeline.track_seq(),
            timeline.wf(),
            i <= n,
            total_upto(tracks@, i as nat) == Ok::<Seconds, NleError>(longest),
            longest.wf(),
            forall|j: int|
                0 <= j < i ==> ((#[trigger] tracks@[j]).spec_occupied() matches Some(o) ==> o.wf()),
        decreases n - i,
    {
        assert(timeline.track_seq()[i as int].wf());
        let occupied = match tracks[i].occupied() {
            Ok(o) => o,
            Err(_) => {
                proof {
                    lemma_total_error_sticks(tracks@, (i + 1) as nat, n as nat);
                }
                return Err(NleError::InvalidTimeline(TimelineError::OccupiedOverflow));
            },
        };
        if !occupied.before(longest) {
            longest = occupied;
        }
        i = i + 1;
    }
    proof {
        lemma_total_is_longest(tracks@, n as nat);
    }
    Ok(longest)
}

/// The first of the first `i` tracks that has `kind` and holds items.
pub open spec fn first_nonempty_upto(tracks: Seq<Track>, kind: TrackKind, i: nat) -> Option<int>
    decreases i,
{
    if i == 0 || i > tracks.len() {
        None
    } else {
        match first_nonempty_upto(tracks, kind, (i - 1) as nat) {
            Some(k) => Some(k),
            None => if tracks[i - 1].kind() == kind && tracks[i - 1].item_seq().len() > 0 {
                Some(i - 1)
            } else {
                None
            },
        }
    }
}

/// The track that drives the spine: the first non-empty video track, else
/// the first non-empty audio track.
pub open spec fn primary_index(tracks: Seq<Track>) -> Option<int> {
    match first_nonempty_upto(tracks, TrackKind::Video, tracks.len()) {
        Some(k) => Some(k),
        None => first_nonempty_upto(tracks, TrackKind::Audio, tracks.len()),
    }
}

proof fn lemma_first_nonempty_sticks(tracks: Seq<Track>, kind: TrackKind, i: nat, j: nat)
    requires
        i <= j <= tracks.len(),
        first_nonempty_upto(tracks, kind, i) is Some,
    ensures
        first_nonempty_upto(tracks, kind, j) == first_nonempty_upto(tracks, kind, i),
    decreases j - i,
{
    if i < j {
        lemma_first_nonempty_sticks(tracks, kind, i, (j - 1) as nat);
    }
}

proof fn lemma_first_nonempty_bound(tracks: Seq<Track>, kind: TrackKind, i: nat)
    requires
        i <= tracks.len(),
    ensures
        first_nonempty_upto(tracks, kind, i) matches Some(k) ==> 0 <= k < i,
    decreases i,
{
    if i > 0 {
        lemma_first_nonempty_bound(tracks, kind, (i - 1) as nat);
    }
}

fn first_nonempty(tracks: &[Track], kind: TrackKind) -> (r: Option<usize>)
    ensures
        match first_nonempty_upto(tracks@, kind, tracks@.len()) {
            Some(k) => r matches Some(x) && x as int == k && k < tracks@.len(),
            None => r is None,
        },
{
    let n = tracks.len();
    let mut i: usize = 0;
    while i < n
        invariant
            n == tracks@.len(),
            i <= n,
            first_nonempty_upto(tracks@, kind, i as nat) is None,
        decreases n - i,
    {
        if tracks[i].kind() == kind && tracks[i].items().len() > 0 {
            proof {
                lemma_first_nonempty_sticks(tracks@, kind, (i + 1) as nat, n as nat);
            }
            return Some(i);
        }
        i = i + 1;
    }
    None
}

/// The index of the track that drives the spine: the first non-empty video
/// track, else the first non-empty audio track.
pub fn primary_track(tracks: &[Track]) -> (r: Option<usize>)
    ensures
        match primary_index(tracks@) {
            Some(k) => r matches Some(x) && x as int == k && k < tracks@.len(),
            None => r is None,
        },
{
    match first_nonempty(tracks, TrackKind::Video) {
        Some(k) => Some(k),
        None => first_nonempty(tracks, TrackKind::Audio),
    }
}

/// A clip from a non-primary track, placed at its absolute timeline offset
/// on a composite lane.
pub type ConnectedView = (Clip, int, Seconds);

/// The connected clips of the first `i` items of one track on `lane`, with
/// the running position.
pub open spec fn connected_items_upto(
    assets: Seq<MediaAsset>,
    fps: int,
    items: Seq<TrackItem>,
    lane: int,
    i: nat,
) -> Result<(Seconds, Seq<ConnectedView>), NleError>
    decreases i,
{
    if i == 0 || i > items.len() {
        Ok((zero_seconds(), Seq::empty()))
    } else {
        match connected_items_upto(assets, fps, items, lane, (i - 1) as nat) {
            Err(e) => Err(e),
            Ok(state) => match items[i - 1] {
                TrackItem::Gap(gap) => match whole_frames(gap.duration(), fps) {
                    None => Err(NleError::UnalignedDuration),
                    Some(_) => match state.0.spec_checked_add(gap.duration()) {
                        None => Err(NleError::InvalidTimeline(TimelineError::OccupiedOverflow)),
                        Some(next) => Ok((next, state.1)),
                    },
                },
                TrackItem::Clip(clip) => match asset_position(assets, clip.asset()@) {
                    None => Err(NleError::InvalidTimeline(TimelineError::UnknownAsset(*clip.asset()))),
                    Some(_) => match state.0.spec_checked_add(clip.range().duration()) {
                        None => Err(NleError::InvalidTimeline(TimelineError::OccupiedOverflow)),
                        Some(next) => Ok((next, state.1.push((clip, lane, state.0)))),
                    },
                },
                TrackItem::Transition(_) => Err(NleError::UnsupportedTransition),
            },
        }
    }
}

/// A connected track is laid out like the track itself: the running position
/// after the first `i` items is their occupied total (gaps included), and
/// each connected clip sits at the occupied total of the items before it.
pub proof fn lemma_connected_offsets(
    assets: Seq<MediaAsset>,
    fps: int,
    items: Seq<TrackItem>,
    lane: int,
    i: nat,
)
    requires
        i <= items.len(),
    ensures
        connected_items_upto(assets, fps, items, lane, i) matches Ok(state) ==> {
            &&& occupied_upto(items, i) == Some(state.0)
            &&& forall|m: int|
                0 <= m < state.1.len() ==> exists|k: int|
                    0 <= k < i && #[trigger] items[k] == TrackItem::Clip((#[trigger] state.1[m]).0)
                        && state.1[m].1 == lane && occupied_upto(items, k as nat) == Some(
                        state.1[m].2,
                    )
        },
    decreases i,
{
    if i > 0 {
        lemma_connected_offsets(assets, fps, items, lane, (i - 1) as nat);
        if connected_items_upto(assets, fps, items, lane, i) is Ok {
            let prev = connected_items_upto(assets, fps, items, lane, (i - 1) as nat)->Ok_0;
            let state = connected_items_upto(assets, fps, items, lane, i)->Ok_0;
            assert forall|m: int| 0 <= m < state.1.len() implies exists|k: int|
                0 <= k < i && #[trigger] items[k] == TrackItem::Clip((#[trigger] state.1[m]).0)
                    && state.1[m].1 == lane && occupied_upto(items, k as nat) == Some(state.1[m].2) by {
                if m < prev.1.len() {
                    assert(state.1[m] == prev.1[m]);
                    let k = choose|k: int|
                        0 <= k < i - 1 && #[trigger] items[k] == TrackItem::Clip((#[trigger] prev.1[m]).0)
                            && prev.1[m].1 == lane && occupied_upto(items, k as nat) == Some(
                            prev.1[m].2,
                        );
                    assert(items[k] == TrackItem::Clip(state.1[m].0));
                } else {
                    let k = i - 1;
                    assert(items[k] == TrackItem::Clip(state.1[m].0));
                }
            }
        }
    }
}

/// The connected clips of the first `i` tracks (skipping the primary and
/// empty tracks), with the next free video and audio lanes.
pub open spec fn connected_upto(
    assets: Seq<MediaAsset>,
    fps: int,
    tracks: Seq<Track>,
    primary: int,
    i: nat,
) -> Result<(int, int, Seq<ConnectedView>), NleError>
    decreases i,
{
    if i == 0 || i > tracks.len() {
        Ok((1, -1, Seq::empty()))
    } else {
        match connected_upto(assets, fps, tracks, primary, (i - 1) as nat) {
            Err(e) => Err(e),
            Ok(state) => {
                let track = tracks[i - 1];
                if i - 1 == primary || track.item_seq().len() == 0 {
                    Ok(state)
                } else {
                    let video = track.kind() == TrackKind::Video;
                    let lane = if video {
                        state.0
                    } else {
                        state.1
                    };
                    match connected_items_upto(
                        assets,
                        fps,
                        track.item_seq(),
                        lane,
                        track.item_seq().len(),
                    ) {
                        Err(e) => Err(e),
                        Ok(found) => Ok(
                            (
                                if video {
                                    state.0 + 1
                                } else {
                                    state.0
                                },
                                if video {
                                    state.1
                                } else {
                                    state.1 - 1
                                },
                                state.2 + found.1,
                            ),
                        ),
                    }
                }
            },
        }
    }
}

/// Where a connected clip comes from: a clip `k` of a non-primary track `j`
/// among the first `i`, at that track's occupied total before it, on a lane
/// above the primary storyline for a video track and below it for audio,
/// within the lanes handed out so far.
pub open spec fn connected_from(
    tracks: Seq<Track>,
    primary: int,
    i: nat,
    lanes: (int, int),
    entry: ConnectedView,
    j: int,
    k: int,
) -> bool {
    &&& 0 <= j < i
    &&& j != primary
    &&& 0 <= k < tracks[j].item_seq().len()
    &&& tracks[j].item_seq()[k] == TrackItem::Clip(entry.0)
    &&& occupied_upto(tracks[j].item_seq(), k as nat) == Some(entry.2)
    &&& tracks[j].kind() == TrackKind::Video ==> 1 <= entry.1 < lanes.0
    &&& tracks[j].kind() == TrackKind::Audio ==> lanes.1 < entry.1 <= -1
}

/// Every connected clip comes from a clip of a non-primary track, at that
/// track's running position, on a lane on its kind's side of the primary
/// storyline; video lanes count up from 1 and audio lanes down from -1. The
/// result names the track and the item the `m`-th connected clip comes from.
pub proof fn lemma_connected_source(
    assets: Seq<MediaAsset>,
    fps: int,
    tracks: Seq<Track>,
    primary: int,
    i: nat,
    m: int,
) -> (from: (int, int))
    requires
        i <= tracks.len(),
        connected_upto(assets, fps, tracks, primary, i) is Ok,
        0 <= m < connected_upto(assets, fps, tracks, primary, i)->Ok_0.2.len(),
    ensures
        ({
            let st = connected_upto(assets, fps, tracks, primary, i)->Ok_0;
            &&& st.0 >= 1
            &&& st.1 <= -1
            &&& connected_from(tracks, primary, i, (st.0, st.1), st.2[m], from.0, from.1)
        }),
    decreases i,
{
    let prev = connected_upto(assets, fps, tracks, primary, (i - 1) as nat)->Ok_0;
    let st = connected_upto(assets, fps, tracks, primary, i)->Ok_0;
    lemma_connected_lanes(assets, fps, tracks, primary, (i - 1) as nat);
    let track = tracks[i - 1];
    let items = track.item_seq();
    let video = track.kind() == TrackKind::Video;
    let lane = if video {
        prev.0
    } else {
        prev.1
    };
    if m < prev.2.len() {
        let from = lemma_connected_source(assets, fps, tracks, primary, (i - 1) as nat, m);
        assert(st.2[m] == prev.2[m]);
        from
    } else {
        lemma_connected_offsets(assets, fps, items, lane, items.len());
        let found = connected_items_upto(assets, fps, items, lane, items.len())->Ok_0;
        let q = m - prev.2.len();
        assert(st.2[m] == found.1[q]);
        let k = choose|k: int|
            0 <= k < items.len() && #[trigger] items[k] == TrackItem::Clip((#[trigger] found.1[q]).0)
                && found.1[q].1 == lane && occupied_upto(items, k as nat) == Some(found.1[q].2);
        (i - 1, k)
    }
}

/// The lanes handed out so far: video from 1 up, audio from -1 down.
proof fn lemma_connected_lanes(
    assets: Seq<MediaAsset>,
    fps: int,
    tracks: Seq<Track>,
    primary: int,
    i: nat,
)
    requires
        i <= tracks.len(),
    ensures
        connected_upto(assets, fps, tracks, primary, i) matches Ok(st) ==> st.0 >= 1 && st.1 <= -1,
    decreases i,
{
    if i > 0 {
        lemma_connected_lanes(assets, fps, tracks, primary, (i - 1) as nat);
    }
}

/// The attributes of an `<asset-clip>` for `clip` at `offset`, on `lane` if
/// it is connected.
pub open spec fn clip_attrs(
    assets: Seq<MediaAsset>,
    formats_len: int,
    fps: int,
    clip: Clip,
    offset: Seconds,
    lane: Option<int>,
) -> Result<Attrs, NleError> {
    match asset_position(assets, clip.asset()@) {
        None => Err(NleError::InvalidTimeline(TimelineError::UnknownAsset(*clip.asset()))),
        Some(p) => match fcp_time(offset, fps) {
            Err(e) => Err(e),
            Ok(at) => match fcp_time(clip.range().start(), fps) {
                Err(e) => Err(e),
                Ok(start) => match fcp_time(clip.range().duration(), fps) {
                    Err(e) => Err(e),
                    Ok(duration) => Ok(
                        seq![("ref"@, resource_id(formats_len + p + 1))] + match lane {
                            Some(l) => seq![("lane"@, decimal(l))],
                            None => Seq::empty(),
                        } + seq![
                            ("offset"@, at),
                            ("name"@, clip_label(clip)),
                            ("start"@, start),
                            ("duration"@, duration),
                        ],
                    ),
                },
            },
        },
    }
}

/// The `<asset-clip>` elements of the first `i` connected clips, hosted by
/// an element whose source starts at `host_start`.
pub open spec fn connected_events_upto(
    assets: Seq<MediaAsset>,
    formats_len: int,
    fps: int,
    connected: Seq<ConnectedView>,
    host_start: Seconds,
    i: nat,
) -> Result<Seq<XmlEventView>, NleError>
    decreases i,
{
    if i == 0 || i > connected.len() {
        Ok(Seq::empty())
    } else {
        match connected_events_upto(assets, formats_len, fps, connected, host_start, (i - 1) as nat) {
            Err(e) => Err(e),
            Ok(evs) => {
                let entry = connected[i - 1];
                match host_start.spec_checked_add(entry.2) {
                    None => Err(NleError::InvalidTimeline(TimelineError::OccupiedOverflow)),
                    Some(offset) => match clip_attrs(
                        assets,
                        formats_len,
                        fps,
                        entry.0,
                        offset,
                        Some(entry.1),
                    ) {
                        Err(e) => Err(e),
                        Ok(attrs) => Ok(evs.push(empty_tag("asset-clip"@, attrs))),
                    },
                }
            },
        }
    }
}

/// Each of the first `i` connected clips becomes one `<asset-clip>`, in
/// order, on its own lane, at the host's start plus the clip's offset on its
/// track.
pub proof fn lemma_connected_elements(
    assets: Seq<MediaAsset>,
    formats_len: int,
    fps: int,
    connected: Seq<ConnectedView>,
    host_start: Seconds,
    i: nat,
)
    requires
        i <= connected.len(),
    ensures
        connected_events_upto(assets, formats_len, fps, connected, host_start, i) matches Ok(evs) ==> {
            &&& evs.len() == i
            &&& forall|m: int|
                0 <= m < i ==> {
                    &&& host_start.spec_checked_add(connected[m].2) matches Some(offset)
                    &&& clip_attrs(assets, formats_len, fps, connected[m].0, offset, Some(connected[m].1))
                        matches Ok(attrs)
                    &&& #[trigger] evs[m] == empty_tag("asset-clip"@, attrs)
                }
        },
    decreases i,
{
    if i > 0 {
        lemma_connected_elements(assets, formats_len, fps, connected, host_start, (i - 1) as nat);
    }
}

/// One primary item's spine element(s), after `state` (the running position
/// and the elements so far); `host` marks the item hosting the connected
/// clips.
#[verifier::opaque]
pub open spec fn spine_step(
    assets: Seq<MediaAsset>,
    formats_len: int,
    fps: int,
    connected: Seq<ConnectedView>,
    state: (Seconds, Seq<XmlEventView>),
    item: TrackItem,
    host: bool,
) -> Result<(Seconds, Seq<XmlEventView>), NleError> {
    match item {
        TrackItem::Gap(gap) => match fcp_time(state.0, fps) {
            Err(e) => Err(e),
            Ok(at) => match fcp_time(gap.duration(), fps) {
                Err(e) => Err(e),
                Ok(duration) => {
                    let attrs = seq![("offset"@, at), ("duration"@, duration)];
                    let body = if host {
                        match connected_events_upto(
                            assets,
                            formats_len,
                            fps,
                            connected,
                            zero_seconds(),
                            connected.len(),
                        ) {
                            Err(e) => Err(e),
                            Ok(inner) => Ok(seq![open_tag("gap"@, attrs)] + inner + seq![
                                XmlEventView::End("gap"@),
                            ]),
                        }
                    } else {
                        Ok(seq![empty_tag("gap"@, attrs)])
                    };
                    match body {
                        Err(e) => Err(e),
                        Ok(b) => match state.0.spec_checked_add(gap.duration()) {
                            None => Err(
                                NleError::InvalidTimeline(TimelineError::OccupiedOverflow),
                            ),
                            Some(next) => Ok((next, state.1 + b)),
                        },
                    }
                },
            },
        },
        TrackItem::Clip(clip) => match clip_attrs(
            assets,
            formats_len,
            fps,
            clip,
            state.0,
            None,
        ) {
            Err(e) => Err(e),
            Ok(attrs) => {
                let body = if host {
                    match connected_events_upto(
                        assets,
                        formats_len,
                        fps,
                        connected,
                        clip.range().start(),
                        connected.len(),
                    ) {
                        Err(e) => Err(e),
                        Ok(inner) => Ok(seq![open_tag("asset-clip"@, attrs)] + inner
                            + seq![XmlEventView::End("asset-clip"@)]),
                    }
                } else {
                    Ok(seq![empty_tag("asset-clip"@, attrs)])
                };
                match body {
                    Err(e) => Err(e),
                    Ok(b) => match state.0.spec_checked_add(clip.range().duration()) {
                        None => Err(
                            NleError::InvalidTimeline(TimelineError::OccupiedOverflow),
                        ),
                        Some(next) => Ok((next, state.1 + b)),
                    },
                }
            },
        },
        TrackItem::Transition(_) => Err(NleError::UnsupportedTransition),
    }
}

/// The spine elements of the first `i` primary items, with the running
/// position; the first item hosts the connected clips.
pub open spec fn spine_upto(
    assets: Seq<MediaAsset>,
    formats_len: int,
    fps: int,
    items: Seq<TrackItem>,
    connected: Seq<ConnectedView>,
    i: nat,
) -> Result<(Seconds, Seq<XmlEventView>), NleError>
    decreases i,
{
    if i == 0 || i > items.len() {
        Ok((zero_seconds(), Seq::empty()))
    } else {
        match spine_upto(assets, formats_len, fps, items, connected, (i - 1) as nat) {
            Err(e) => Err(e),
            Ok(state) => spine_step(
                assets,
                formats_len,
                fps,
                connected,
                state,
                items[i - 1],
                i == 1 && connected.len() > 0,
            ),
        }
    }
}

/// The `<spine>` element: the primary track laid end to end, its first
/// element hosting every other track's clips; empty without a primary track.
pub open spec fn spine_events(assets: Seq<MediaAsset>, formats_len: int, fps: int, tracks: Seq<Track>) -> Result<
    Seq<XmlEventView>,
    NleError,
> {
    match primary_index(tracks) {
        None => Ok(seq![open_tag("spine"@, Seq::empty()), XmlEventView::End("spine"@)]),
        Some(p) => match connected_upto(assets, fps, tracks, p, tracks.len()) {
            Err(e) => Err(e),
            Ok(c) => match spine_upto(
                assets,
                formats_len,
                fps,
                tracks[p].item_seq(),
                c.2,
                tracks[p].item_seq().len(),
            ) {
                Err(e) => Err(e),
                Ok(state) => Ok(seq![open_tag("spine"@, Seq::empty())] + state.1 + seq![
                    XmlEventView::End("spine"@),
                ]),
            },
        },
    }
}

/// The `<library>` element: one event and project holding the sequence.
pub open spec fn library_events(assets: Seq<MediaAsset>, formats_len: int, fps: int, timeline: Timeline) -> Result<
    Seq<XmlEventView>,
    NleError,
> {
    let name = timeline.name_view();
    match total_upto(timeline.track_seq(), timeline.track_seq().len()) {
        Err(e) => Err(e),
        Ok(total) => match fcp_time(total, fps) {
            Err(e) => Err(e),
            Ok(duration) => match spine_events(assets, formats_len, fps, timeline.track_seq()) {
                Err(e) => Err(e),
                Ok(spine) => Ok(
                    seq![
                        open_tag("library"@, Seq::empty()),
                        open_tag("event"@, seq![("name"@, name)]),
                        open_tag("project"@, seq![("name"@, name)]),
                        open_tag(
                            "sequence"@,
                            seq![
                                ("format"@, "r1"@),
                                ("duration"@, duration),
                                ("tcStart"@, "0s"@),
                                ("tcFormat"@, "NDF"@),
                            ],
                        ),
                    ] + spine + seq![
                        XmlEventView::End("sequence"@),
                        XmlEventView::End("project"@),
                        XmlEventView::End("event"@),
                        XmlEventView::End("library"@),
                    ],
                ),
            },
        },
    }
}

/// The whole FCPXML document as writer events, or the error exporting stops
/// at.
pub open spec fn fcpxml_events(timeline: Timeline) -> Result<Seq<XmlEventView>, NleError> {
    match timeline.spec_validate() {
        Err(e) => Err(NleError::InvalidTimeline(e)),
        Ok(_) => match whole_fps(timeline.frame_rate()) {
            None => Err(NleError::UnsupportedFrameRate),
            Some(fps) => match resource_formats(timeline.asset_seq(), fps) {
                Err(e) => Err(e),
                Ok(formats) => match resources_events(formats, fps as int, timeline.asset_seq()) {
                    Err(e) => Err(e),
                    Ok(resources) => match library_events(
                        timeline.asset_seq(),
                        formats.len() as int,
                        fps as int,
                        timeline,
                    ) {
                        Err(e) => Err(e),
                        Ok(library) => Ok(
                            seq![
                                XmlEventView::Decl("1.0"@, "UTF-8"@),
                                XmlEventView::DocType("fcpxml"@),
                                open_tag("fcpxml"@, seq![("version"@, "1.10"@)]),
                            ] + resources + library + seq![XmlEventView::End("fcpxml"@)],
                        ),
                    },
                },
            },
        },
    }
}

// ----- writing the sequence -----

/// A clip from a non-primary track, placed at its absolute timeline offset on
/// a composite lane.
pub struct Connected {
    /// The clip.
    pub clip: Clip,
    /// Its lane: positive above the primary storyline, negative below.
    pub lane: i32,
    /// Its absolute timeline offset.
    pub offset: Seconds,
}

/// Connected clips as plain values.
pub open spec fn connected_view(connected: Seq<Connected>) -> Seq<ConnectedView> {
    connected.map_values(|c: Connected| (c.clip, c.lane as int, c.offset))
}

/// Hand out the lane `*next` and step it by `step`.
pub fn take_lane(next: &mut i32, step: i32) -> (lane: i32)
    requires
        -0x8000_0000 <= *old(next) + step <= 0x7fff_ffff,
    ensures
        lane == *old(next),
        *final(next) == *old(next) + step,
{
    let lane = *next;
    *next = *next + step;
    lane
}

/// The `<asset-clip>` attributes for `clip` at `offset`, on `lane` if it is
/// connected.
pub fn asset_clip_attrs(
    assets: &[MediaAsset],
    formats_len: usize,
    rate: FrameRate,
    clip: &Clip,
    offset: Seconds,
    lane: Option<i32>,
) -> (r: Result<Vec<(String, String)>, NleError>)
    requires
        rate.wf(),
        whole_fps(rate) is Some,
        clip.wf(),
        offset.wf(),
        formats_len + assets@.len() < 0x1_0000_0000_0000_0000,
    ensures
        match clip_attrs(
            assets@,
            formats_len as int,
            rate.numer() as int,
            *clip,
            offset,
            match lane {
                Some(l) => Some(l as int),
                None => None,
            },
        ) {
            Ok(a) => r matches Ok(v) && attrs_view(v@) == a,
            Err(e) => r is Err && r->Err_0 == e,
        },
{
    let position = match position_of(assets, clip.asset()) {
        Some(p) => p,
        None => {
            return Err(NleError::InvalidTimeline(TimelineError::UnknownAsset(clip.asset().duplicate())));
        },
    };
    let at = fcp_time_text(offset, rate)?;
    let start = fcp_time_text(clip.range().start(), rate)?;
    let duration = fcp_time_text(clip.duration(), rate)?;
    let mut attrs = new_attrs();
    assert(position < assets.len());
    push_attr(&mut attrs, "ref", resource_id_text((formats_len as u64) + (position as u64) + 1));
    let ghost first = attrs_view(attrs@);
    if let Some(l) = lane {
        let mut text = String::new();
        push_decimal(&mut text, l as i64);
        push_attr(&mut attrs, "lane", text);
    }
    let ghost second = attrs_view(attrs@);
    push_attr(&mut attrs, "offset", at);
    push_attr(&mut attrs, "name", String::from_str(label_of(clip)));
    push_attr(&mut attrs, "start", start);
    push_attr(&mut attrs, "duration", duration);
    proof {
        let l = match lane {
            Some(l) => Some(l as int),
            None => None,
        };
        let a = clip_attrs(assets@, formats_len as int, rate.numer() as int, *clip, offset, l)->Ok_0;
        assert(second =~= first + match l {
            Some(x) => seq![("lane"@, decimal(x))],
            None => Seq::empty(),
        });
        assert(attrs_view(attrs@) =~= a);
    }
    Ok(attrs)
}

fn write_connected(
    events: &mut Vec<XmlEvent>,
    assets: &[MediaAsset],
    formats_len: usize,
    rate: FrameRate,
    connected: &Vec<Connected>,
    host_start: Seconds,
) -> (r: Result<(), NleError>)
    requires
        rate.wf(),
        whole_fps(rate) is Some,
        host_start.wf(),
        formats_len + assets@.len() < 0x1_0000_0000_0000_0000,
        forall|k: int| 0 <= k < connected@.len() ==> (#[trigger] connected@[k]).clip.wf()
            && connected@[k].offset.wf(),
    ensures
        match connected_events_upto(
            assets@,
            formats_len as int,
            rate.numer() as int,
            connected_view(connected@),
            host_start,
            connected@.len(),
        ) {
            Err(e) => r == Err::<(), NleError>(e),
            Ok(evs) => r is Ok && events_view(final(events)@) == events_view(old(events)@) + evs,
        },
{
    let ghost fps = rate.numer() as int;
    let ghost view = connected_view(connected@);
    let ghost start = events_view(events@);
    let n = connected.len();
    let mut i: usize = 0;
    while i < n
        invariant
            rate.wf(),
            whole_fps(rate) is Some,
            host_start.wf(),
            fps == rate.numer(),
            formats_len + assets@.len() < 0x1_0000_0000_0000_0000,
            forall|k: int| 0 <= k < connected@.len() ==> (#[trigger] connected@[k]).clip.wf()
                && connected@[k].offset.wf(),
            view == connected_view(connected@),
            n == connected@.len(),
            i <= n,
            connected_events_upto(assets@, formats_len as int, fps, view, host_start, i as nat) matches Ok(
                evs,
            ) && events_view(events@) == start + evs,
        decreases n - i,
    {
        let entry = &connected[i];
        assert(view[i as int] == (entry.clip, entry.lane as int, entry.offset));
        let outcome: Result<(), NleError> = match host_start.checked_add(entry.offset) {
            None => Err(NleError::InvalidTimeline(TimelineError::OccupiedOverflow)),
            Some(offset) => match asset_clip_attrs(assets, formats_len, rate, &entry.clip, offset, Some(entry.lane)) {
                Err(e) => Err(e),
                Ok(attrs) => {
                    push_empty_with(events, "asset-clip", &attrs);
                    Ok(())
                },
            },
        };
        if let Err(e) = outcome {
            proof {
                lemma_connected_events_error_sticks(
                    assets@,
                    formats_len as int,
                    fps,
                    view,
                    host_start,
                    (i + 1) as nat,
                    n as nat,
                );
            }
            return Err(e);
        }
        proof {
            let prev = connected_events_upto(assets@, formats_len as int, fps, view, host_start, i as nat)->Ok_0;
            let now = connected_events_upto(assets@, formats_len as int, fps, view, host_start, (i + 1) as nat)->Ok_0;
            assert(events_view(events@) =~= start + now);
        }
        i = i + 1;
    }
    Ok(())
}

proof fn lemma_connected_events_error_sticks(
    assets: Seq<MediaAsset>,
    formats_len: int,
    fps: int,
    connected: Seq<ConnectedView>,
    host_start: Seconds,
    i: nat,
    j: nat,
)
    requires
        i <= j <= connected.len(),
        connected_events_upto(assets, formats_len, fps, connected, host_start, i) is Err,
    ensures
        connected_events_upto(assets, formats_len, fps, connected, host_start, j)
            == connected_events_upto(assets, formats_len, fps, connected, host_start, i),
    decreases j - i,
{
    if i < j {
        lemma_connected_events_error_sticks(assets, formats_len, fps, connected, host_start, i, (j - 1) as nat);
    }
}

proof fn lemma_connected_items_error_sticks(
    assets: Seq<MediaAsset>,
    fps: int,
    items: Seq<TrackItem>,
    lane: int,
    i: nat,
    j: nat,
)
    requires
        i <= j <= items.len(),
        connected_items_upto(assets, fps, items, lane, i) is Err,
    ensures
        connected_items_upto(assets, fps, items, lane, j) == connected_items_upto(assets, fps, items, lane, i),
    decreases j - i,
{
    if i < j {
        lemma_connected_items_error_sticks(assets, fps, items, lane, i, (j - 1) as nat);
    }
}

proof fn lemma_connected_error_sticks(
    assets: Seq<MediaAsset>,
    fps: int,
    tracks: Seq<Track>,
    primary: int,
    i: nat,
    j: nat,
)
    requires
        i <= j <= tracks.len(),
        connected_upto(assets, fps, tracks, primary, i) is Err,
    ensures
        connected_upto(assets, fps, tracks, primary, j) == connected_upto(assets, fps, tracks, primary, i),
    decreases j - i,
{
    if i < j {
        lemma_connected_error_sticks(assets, fps, tracks, primary, i, (j - 1) as nat);
    }
}

/// The connected clips of one non-primary track on `lane`, appended to `out`.
fn collect_track(
    out: &mut Vec<Connected>,
    assets: &[MediaAsset],
    rate: FrameRate,
    track: &Track,
    lane: i32,
) -> (r: Result<(), NleError>)
    requires
        rate.wf(),
        whole_fps(rate) is Some,
        track.wf(),
        forall|k: int| 0 <= k < old(out)@.len() ==> (#[trigger] old(out)@[k]).clip.wf()
            && old(out)@[k].offset.wf(),
    ensures
        match connected_items_upto(
            assets@,
            rate.numer() as int,
            track.item_seq(),
            lane as int,
            track.item_seq().len(),
        ) {
            Ok(found) => r is Ok && connected_view(final(out)@) == connected_view(old(out)@)
                + found.1 && forall|k: int|
                0 <= k < final(out)@.len() ==> (#[trigger] final(out)@[k]).clip.wf()
                    && final(out)@[k].offset.wf(),
            Err(e) => r == Err::<(), NleError>(e),
        },
{
    let ghost fps = rate.numer() as int;
    let ghost base = connected_view(out@);
    let items = track.items();
    let n = items.len();
    let mut position = Seconds::zero();
    let mut i: usize = 0;
    while i < n
        invariant
            rate.wf(),
            whole_fps(rate) is Some,
            fps == rate.numer(),
            track.wf(),
            items@ == track.item_seq(),
            n == items@.len(),
            i <= n,
            position.wf(),
            connected_items_upto(assets@, fps, items@, lane as int, i as nat) matches Ok(state)
                && state.0 == position && connected_view(out@) == base + state.1,
            forall|k: int| 0 <= k < out@.len() ==> (#[trigger] out@[k]).clip.wf()
                && out@[k].offset.wf(),
        decreases n - i,
    {
        assert(items@[i as int].wf());
        let ghost before = out@;
        let outcome: Result<(), NleError> = match &items[i] {
            TrackItem::Gap(gap) => match frames_exact(gap.duration(), rate) {
                Err(e) => Err(e),
                Ok(_) => match position.checked_add(gap.duration()) {
                    None => Err(NleError::InvalidTimeline(TimelineError::OccupiedOverflow)),
                    Some(next) => {
                        position = next;
                        Ok(())
                    },
                },
            },
            TrackItem::Clip(clip) => match position_of(assets, clip.asset()) {
                None => Err(NleError::InvalidTimeline(TimelineError::UnknownAsset(clip.asset().duplicate()))),
                Some(_) => {
                    proof {
                        clip.range().lemma_end();
                    }
                    match position.checked_add(clip.duration()) {
                        None => Err(NleError::InvalidTimeline(TimelineError::OccupiedOverflow)),
                        Some(next) => {
                            out.push(Connected { clip: clip.duplicate(), lane, offset: position });
                            proof {
                                assert(connected_view(out@) =~= connected_view(before).push(
                                    (*clip, lane as int, position),
                                ));
                            }
                            position = next;
                            Ok(())
                        },
                    }
                },
            },
            TrackItem::Transition(_) => Err(NleError::UnsupportedTransition),
        };
        if let Err(e) = outcome {
            proof {
                lemma_connected_items_error_sticks(assets@, fps, items@, lane as int, (i + 1) as nat, n as nat);
            }
            return Err(e);
        }
        i = i + 1;
    }
    Ok(())
}

/// Every non-primary, non-empty track's clips as connected clips, each track
/// on a lane of its own: video lanes `1, 2, ..` above the primary storyline,
/// audio lanes `-1, -2, ..` below it.
pub fn collect_connected(assets: &[MediaAsset], rate: FrameRate, tracks: &[Track], primary: usize) -> (r:
    Result<Vec<Connected>, NleError>)
    requires
        rate.wf(),
        whole_fps(rate) is Some,
        tracks@.len() < 0x7fff_ffff,
        forall|k: int| 0 <= k < tracks@.len() ==> (#[trigger] tracks@[k]).wf(),
    ensures
        match connected_upto(assets@, rate.numer() as int, tracks@, primary as int, tracks@.len()) {
            Ok(state) => r matches Ok(v) && connected_view(v@) == state.2 && forall|k: int|
                0 <= k < v@.len() ==> (#[trigger] v@[k]).clip.wf() && v@[k].offset.wf(),
            Err(e) => r is Err && r->Err_0 == e,
        },
{
    let ghost fps = rate.numer() as int;
    let mut connected: Vec<Connected> = Vec::new();
    let mut next_video: i32 = 1;
    let mut next_audio: i32 = -1;
    let n = tracks.len();
    let mut i: usize = 0;
    assert(connected_view(connected@) =~= Seq::<ConnectedView>::empty());
    while i < n
        invariant
            rate.wf(),
            whole_fps(rate) is Some,
            fps == rate.numer(),
            n == tracks@.len(),
            n < 0x7fff_ffff,
            forall|k: int| 0 <= k < tracks@.len() ==> (#[trigger] tracks@[k]).wf(),
            i <= n,
            1 <= next_video <= 1 + i,
            -1 - i <= next_audio <= -1,
            connected_upto(assets@, fps, tracks@, primary as int, i as nat) matches Ok(state)
                && state.0 == next_video && state.1 == next_audio && state.2 == connected_view(
                connected@,
            ),
            forall|k: int| 0 <= k < connected@.len() ==> (#[trigger] connected@[k]).clip.wf()
                && connected@[k].offset.wf(),
        decreases n - i,
    {
        let track = &tracks[i];
        assert(tracks@[i as int].wf());
        if i != primary && track.items().len() > 0 {
            let lane = match track.kind() {
                TrackKind::Video => take_lane(&mut next_video, 1),
                TrackKind::Audio => take_lane(&mut next_audio, -1),
            };
            let collected = collect_track(&mut connected, assets, rate, track, lane);
            if let Err(e) = collected {
                proof {
                    lemma_connected_error_sticks(assets@, fps, tracks@, primary as int, (i + 1) as nat, n as nat);
                }
                return Err(e);
            }
        }
        i = i + 1;
    }
    Ok(connected)
}

proof fn lemma_spine_error_sticks(
    assets: Seq<MediaAsset>,
    formats_len: int,
    fps: int,
    items: Seq<TrackItem>,
    connected: Seq<ConnectedView>,
    i: nat,
    j: nat,
)
    requires
        i <= j <= items.len(),
        spine_upto(assets, formats_len, fps, items, connected, i) is Err,
    ensures
        spine_upto(assets, formats_len, fps, items, connected, j) == spine_upto(
            assets,
            formats_len,
            fps,
            items,
            connected,
            i,
        ),
    decreases j - i,
{
    if i < j {
        lemma_spine_error_sticks(assets, formats_len, fps, items, connected, i, (j - 1) as nat);
    }
}

fn write_spine_item(
    events: &mut Vec<XmlEvent>,
    assets: &[MediaAsset],
    formats_len: usize,
    rate: FrameRate,
    connected: &Vec<Connected>,
    item: &TrackItem,
    position: Seconds,
    host: bool,
) -> (r: Result<Seconds, NleError>)
    requires
        rate.wf(),
        whole_fps(rate) is Some,
        position.wf(),
        item.wf(),
        formats_len + assets@.len() < 0x1_0000_0000_0000_0000,
        forall|k: int| 0 <= k < connected@.len() ==> (#[trigger] connected@[k]).clip.wf()
            && connected@[k].offset.wf(),
    ensures
        match spine_step(
            assets@,
            formats_len as int,
            rate.numer() as int,
            connected_view(connected@),
            (position, events_view(old(events)@)),
            *item,
            host,
        ) {
            Ok(state) => r == Ok::<Seconds, NleError>(state.0) && state.1 == events_view(
                final(events)@,
            ) && state.0.wf(),
            Err(e) => r == Err::<Seconds, NleError>(e),
        },
{
    reveal(spine_step);
    let ghost start = events_view(events@);
    match item {
        TrackItem::Gap(gap) => {
            let at = fcp_time_text(position, rate)?;
            let duration = fcp_time_text(gap.duration(), rate)?;
            let ghost pair = (at@, duration@);
            let mut attrs = new_attrs();
            push_attr(&mut attrs, "offset", at);
            push_attr(&mut attrs, "duration", duration);
            assert(attrs_view(attrs@) =~= seq![("offset"@, pair.0), ("duration"@, pair.1)]);
            if host {
                push_start_with(events, "gap", &attrs);
                let ghost mid = events_view(events@);
                write_connected(events, assets, formats_len, rate, connected, Seconds::zero())?;
                push_end(events, "gap");
                proof {
                    let inner = connected_events_upto(
                        assets@,
                        formats_len as int,
                        rate.numer() as int,
                        connected_view(connected@),
                        zero_seconds(),
                        connected@.len(),
                    )->Ok_0;
                    assert(events_view(events@) =~= start + (seq![open_tag("gap"@, attrs_view(attrs@))]
                        + inner + seq![XmlEventView::End("gap"@)]));
                }
            } else {
                push_empty_with(events, "gap", &attrs);
                assert(events_view(events@) =~= start + seq![empty_tag("gap"@, attrs_view(attrs@))]);
            }
            match position.checked_add(gap.duration()) {
                None => Err(NleError::InvalidTimeline(TimelineError::OccupiedOverflow)),
                Some(next) => Ok(next),
            }
        },
        TrackItem::Clip(clip) => {
            let attrs = asset_clip_attrs(assets, formats_len, rate, clip, position, None)?;
            proof {
                clip.range().lemma_end();
            }
            if host {
                push_start_with(events, "asset-clip", &attrs);
                write_connected(events, assets, formats_len, rate, connected, clip.range().start())?;
                push_end(events, "asset-clip");
                proof {
                    let inner = connected_events_upto(
                        assets@,
                        formats_len as int,
                        rate.numer() as int,
                        connected_view(connected@),
                        clip.range().start(),
                        connected@.len(),
                    )->Ok_0;
                    assert(events_view(events@) =~= start + (seq![
                        open_tag("asset-clip"@, attrs_view(attrs@)),
                    ] + inner + seq![XmlEventView::End("asset-clip"@)]));
                }
            } else {
                push_empty_with(events, "asset-clip", &attrs);
                assert(events_view(events@) =~= start + seq![
                    empty_tag("asset-clip"@, attrs_view(attrs@)),
                ]);
            }
            match position.checked_add(clip.duration()) {
                None => Err(NleError::InvalidTimeline(TimelineError::OccupiedOverflow)),
                Some(next) => Ok(next),
            }
        },
        TrackItem::Transition(_) => Err(NleError::UnsupportedTransition),
    }
}

#[verifier::rlimit(60)]
fn write_spine(
    events: &mut Vec<XmlEvent>,
    assets: &[MediaAsset],
    formats_len: usize,
    rate: FrameRate,
    tracks: &[Track],
) -> (r: Result<(), NleError>)
    requires
        rate.wf(),
        whole_fps(rate) is Some,
        tracks@.len() < 0x7fff_ffff,
        formats_len + assets@.len() < 0x1_0000_0000_0000_0000,
        forall|k: int| 0 <= k < tracks@.len() ==> (#[trigger] tracks@[k]).wf(),
    ensures
        match spine_events(assets@, formats_len as int, rate.numer() as int, tracks@) {
            Err(e) => r == Err::<(), NleError>(e),
            Ok(evs) => r is Ok && events_view(final(events)@) == events_view(old(events)@) + evs,
        },
{
    let ghost fps = rate.numer() as int;
    let ghost start = events_view(events@);
    push_start(events, "spine");
    let primary = match primary_track(tracks) {
        None => {
            push_end(events, "spine");
            assert(events_view(events@) =~= start + seq![
                open_tag("spine"@, Seq::empty()),
                XmlEventView::End("spine"@),
            ]);
            return Ok(());
        },
        Some(p) => p,
    };
    let connected = collect_connected(assets, rate, tracks, primary)?;
    let ghost view = connected_view(connected@);
    let ghost head = events_view(events@);
    let track = &tracks[primary];
    assert(tracks@[primary as int].wf());
    let items = track.items();
    let n = items.len();
    let has_connected = connected.len() > 0;
    let mut position = Seconds::zero();
    let mut i: usize = 0;
    while i < n
        invariant
            rate.wf(),
            whole_fps(rate) is Some,
            fps == rate.numer(),
            formats_len + assets@.len() < 0x1_0000_0000_0000_0000,
            forall|k: int| 0 <= k < connected@.len() ==> (#[trigger] connected@[k]).clip.wf()
                && connected@[k].offset.wf(),
            view == connected_view(connected@),
            has_connected == (view.len() > 0),
            track.wf(),
            items@ == track.item_seq(),
            n == items@.len(),
            i <= n,
            position.wf(),
            spine_upto(assets@, formats_len as int, fps, items@, view, i as nat) matches Ok(state)
                && state.0 == position && head + state.1 == events_view(events@),
            primary_index(tracks@) == Some(primary as int),
            connected_upto(assets@, fps, tracks@, primary as int, tracks@.len()) matches Ok(c)
                && c.2 == view,
            items@ == tracks@[primary as int].item_seq(),
            head == start.push(open_tag("spine"@, Seq::empty())),
        decreases n - i,
    {
        assert(items@[i as int].wf());
        let ghost before = events_view(events@);
        let ghost prev = spine_upto(assets@, formats_len as int, fps, items@, view, i as nat)->Ok_0;
        let mut scratch: Vec<XmlEvent> = Vec::new();
        assert(events_view(scratch@) =~= Seq::<XmlEventView>::empty());
        let step = write_spine_item(
            &mut scratch,
            assets,
            formats_len,
            rate,
            &connected,
            &items[i],
            position,
            i == 0 && has_connected,
        );
        proof {
            lemma_spine_step_prefix(
                assets@,
                formats_len as int,
                fps,
                view,
                position,
                prev.1,
                items@[i as int],
                i == 0 && has_connected,
            );
        }
        match step {
            Err(e) => {
                proof {
                    assert(spine_upto(assets@, formats_len as int, fps, items@, view, (i + 1) as nat) == spine_step(assets@, formats_len as int, fps, view, prev, items@[i as int], i == 0 && has_connected));
                    assert(spine_upto(assets@, formats_len as int, fps, items@, view, (i + 1) as nat) == Err::<(Seconds, Seq<XmlEventView>), NleError>(e));
                    lemma_spine_error_sticks(assets@, formats_len as int, fps, items@, view, (i + 1) as nat, n as nat);
                }
                return Err(e);
            },
            Ok(next) => {
                let ghost added = scratch@;
                events.append(&mut scratch);
                proof {
                    assert(events_view(events@) =~= before + events_view(added));
                    let st = spine_step(assets@, formats_len as int, fps, view, prev, items@[i as int], i == 0 && has_connected)->Ok_0;
                    assert(spine_upto(assets@, formats_len as int, fps, items@, view, (i + 1) as nat) == spine_step(assets@, formats_len as int, fps, view, prev, items@[i as int], i == 0 && has_connected));
                    assert(st.1 == prev.1 + events_view(added));
                    assert(head + st.1 =~= events_view(events@));
                }
                position = next;
            },
        }
        i = i + 1;
    }
    push_end(events, "spine");
    proof {
        let evs = spine_events(assets@, formats_len as int, fps, tracks@)->Ok_0;
        assert(events_view(events@) =~= start + evs);
    }
    Ok(())
}

/// A spine step does the same after any elements already written.
proof fn lemma_spine_step_prefix(
    assets: Seq<MediaAsset>,
    formats_len: int,
    fps: int,
    connected: Seq<ConnectedView>,
    position: Seconds,
    written: Seq<XmlEventView>,
    item: TrackItem,
    host: bool,
)
    ensures
        match spine_step(assets, formats_len, fps, connected, (position, Seq::empty()), item, host) {
            Ok(state) => spine_step(assets, formats_len, fps, connected, (position, written), item, host)
                == Ok::<(Seconds, Seq<XmlEventView>), NleError>((state.0, written + state.1)),
            Err(e) => spine_step(assets, formats_len, fps, connected, (position, written), item, host)
                == Err::<(Seconds, Seq<XmlEventView>), NleError>(e),
        },
{
    reveal(spine_step);
    let empty = Seq::<XmlEventView>::empty();
    match spine_step(assets, formats_len, fps, connected, (position, empty), item, host) {
        Ok(state) => {
            assert(state.1 =~= empty + (state.1));
            assert(empty + state.1 =~= state.1);
        },
        Err(_) => {},
    }
    assert forall|b: Seq<XmlEventView>| #[trigger] (empty + b) == b by {
        assert(empty + b =~= b);
    }
}

fn write_library(
    events: &mut Vec<XmlEvent>,
    formats_len: usize,
    timeline: &Timeline,
    rate: FrameRate,
) -> (r: Result<(), NleError>)
    requires
        timeline.wf(),
        rate.wf(),
        whole_fps(rate) is Some,
        timeline.track_seq().len() < 0x7fff_ffff,
        formats_len + timeline.asset_seq().len() < 0x1_0000_0000_0000_0000,
    ensures
        match library_events(timeline.asset_seq(), formats_len as int, rate.numer() as int, *timeline) {
            Err(e) => r == Err::<(), NleError>(e),
            Ok(evs) => r is Ok && events_view(final(events)@) == events_view(old(events)@) + evs,
        },
{
    let ghost start = events_view(events@);
    let name = timeline.name();
    push_start(events, "library");
    let mut event_attrs = new_attrs();
    push_attr(&mut event_attrs, "name", String::from_str(name));
    push_start_with(events, "event", &event_attrs);
    let mut project_attrs = new_attrs();
    push_attr(&mut project_attrs, "name", String::from_str(name));
    push_start_with(events, "project", &project_attrs);
    let total = total_duration(timeline)?;
    let duration = fcp_time_text(total, rate)?;
    let ghost duration_view = duration@;
    let mut sequence_attrs = new_attrs();
    push_attr(&mut sequence_attrs, "format", String::from_str("r1"));
    push_attr(&mut sequence_attrs, "duration", duration);
    push_attr(&mut sequence_attrs, "tcStart", String::from_str("0s"));
    push_attr(&mut sequence_attrs, "tcFormat", String::from_str("NDF"));
    push_start_with(events, "sequence", &sequence_attrs);
    let ghost head = events_view(events@);
    let tracks = timeline.tracks();
    assert forall|k: int| 0 <= k < tracks@.len() implies (#[trigger] tracks@[k]).wf() by {
        assert(timeline.track_seq()[k].wf());
    }
    write_spine(events, timeline.assets(), formats_len, rate, tracks)?;
    push_end(events, "sequence");
    push_end(events, "project");
    push_end(events, "event");
    push_end(events, "library");
    proof {
        assert(attrs_view(event_attrs@) =~= seq![("name"@, timeline.name_view())]);
        assert(attrs_view(project_attrs@) =~= seq![("name"@, timeline.name_view())]);
        assert(attrs_view(sequence_attrs@) =~= seq![
            ("format"@, "r1"@),
            ("duration"@, duration_view),
            ("tcStart"@, "0s"@),
            ("tcFormat"@, "NDF"@),
        ]);
        let evs = library_events(timeline.asset_seq(), formats_len as int, rate.numer() as int, *timeline)->Ok_0;
        assert(events_view(events@) =~= start + evs);
    }
    Ok(())
}

proof fn lemma_formats_len(assets: Seq<MediaAsset>, seq_fps: u32, i: nat)
    requires
        i <= assets.len(),
    ensures
        formats_upto(assets, seq_fps, i) matches Ok(formats) ==> formats.len() <= i + 1,
    decreases i,
{
    if i > 0 {
        lemma_formats_len(assets, seq_fps, (i - 1) as nat);
    }
}

/// Serialize `timeline` to an FCPXML document.
///
/// Errors with [`NleError::InvalidTimeline`] if the timeline fails its own
/// validation, [`NleError::UnsupportedFrameRate`] for fractional (NTSC)
/// rates, [`NleError::UnsupportedTransition`] if a track holds a transition,
/// and [`NleError::UnalignedDuration`] if a clip, gap, or source duration is
/// not a whole number of frames at the sequence rate; the first failure in
/// document order wins.
pub fn to_fcpxml(timeline: &Timeline) -> (r: Result<String, NleError>)
    requires
        timeline.wf(),
        timeline.asset_seq().len() < 0x7fff_ffff_ffff_ffff,
        timeline.track_seq().len() < 0x7fff_ffff,
    ensures
        result_view(r) == rendered_or_error(fcpxml_events(*timeline)),
        fcpxml_events(*timeline) is Ok ==> r is Ok,
        r matches Ok(text) ==> text@.len() > 0,
{
    if let Err(e) = timeline.validate() {
        return Err(NleError::InvalidTimeline(e));
    }
    let rate = timeline.frame_rate();
    let fps = match rate.as_whole() {
        Some(fps) => fps,
        None => {
            return Err(NleError::UnsupportedFrameRate);
        },
    };
    let resources = Resources::build(timeline, fps)?;
    proof {
        lemma_formats_len(timeline.asset_seq(), fps, timeline.asset_seq().len());
    }
    let mut events: Vec<XmlEvent> = Vec::new();
    push_decl(&mut events, "1.0", "UTF-8");
    push_doctype(&mut events, "fcpxml");
    let mut root = new_attrs();
    push_attr(&mut root, "version", String::from_str("1.10"));
    push_start_with(&mut events, "fcpxml", &root);
    let ghost head = events_view(events@);
    write_resources(&mut events, &resources.formats, timeline, rate)?;
    let ghost after_resources = events_view(events@);
    write_library(&mut events, resources.formats.len(), timeline, rate)?;
    push_end(&mut events, "fcpxml");
    proof {
        assert(events_view(Seq::<XmlEvent>::empty()) =~= Seq::<XmlEventView>::empty());
        assert(attrs_view(root@) =~= seq![("version"@, "1.10"@)]);
        let evs = fcpxml_events(*timeline)->Ok_0;
        assert(events_view(events@) =~= evs);
        lemma_leading_markup(evs);
    }
    match render_xml(&events) {
        Some(text) => Ok(text),
        None => Err(NleError::Xml),
    }
}

/// A non-empty track of `kind` makes the first such track exist.
proof fn lemma_first_nonempty_found(tracks: Seq<Track>, kind: TrackKind, k: int)
    requires
        0 <= k < tracks.len(),
        tracks[k].kind() == kind,
        tracks[k].item_seq().len() > 0,
    ensures
        first_nonempty_upto(tracks, kind, tracks.len()) is Some,
{
    assert(first_nonempty_upto(tracks, kind, (k + 1) as nat) is Some);
    lemma_first_nonempty_sticks(tracks, kind, (k + 1) as nat, tracks.len());
}

/// The FCPXML exporter never writes a timeline that holds a transition:
/// whichever failure it meets first, the export is refused.
pub proof fn lemma_fcpxml_refuses_transitions(timeline: Timeline, k: int, j: int)
    requires
        0 <= k < timeline.track_seq().len(),
        0 <= j < timeline.track_seq()[k].item_seq().len(),
        timeline.track_seq()[k].item_seq()[j] is Transition,
    ensures
        rendered_or_error(fcpxml_events(timeline)) is Err,
{
    let assets = timeline.asset_seq();
    let tracks = timeline.track_seq();
    let track = tracks[k];
    let items = track.item_seq();
    if timeline.spec_validate() is Ok && whole_fps(timeline.frame_rate()) is Some {
        let fps = whole_fps(timeline.frame_rate())->Some_0 as int;
        match track.kind() {
            TrackKind::Video => lemma_first_nonempty_found(tracks, TrackKind::Video, k),
            TrackKind::Audio => {
                if first_nonempty_upto(tracks, TrackKind::Video, tracks.len()) is None {
                    lemma_first_nonempty_found(tracks, TrackKind::Audio, k);
                }
            },
        }
        let p = primary_index(tracks)->Some_0;
        if connected_upto(assets, fps, tracks, p, tracks.len()) is Ok {
            if p == k {
                let formats_len = resource_formats(assets, whole_fps(timeline.frame_rate())->Some_0)
                    ->Ok_0.len() as int;
                let connected = connected_upto(assets, fps, tracks, p, tracks.len())->Ok_0.2;
                assert(spine_upto(assets, formats_len, fps, items, connected, (j + 1) as nat) is Err)
                    by {
                    reveal(spine_step);
                }
                lemma_spine_error_sticks(assets, formats_len, fps, items, connected, (j + 1) as nat, items.len());
                assert(spine_events(assets, formats_len, fps, tracks) is Err);
            } else {
                assert forall|lane: int| #[trigger]
                    connected_items_upto(assets, fps, items, lane, items.len()) is Err by {
                    assert(connected_items_upto(assets, fps, items, lane, (j + 1) as nat) is Err);
                    lemma_connected_items_error_sticks(assets, fps, items, lane, (j + 1) as nat, items.len());
                }
                assert(connected_upto(assets, fps, tracks, p, (k + 1) as nat) is Err);
                lemma_connected_error_sticks(assets, fps, tracks, p, (k + 1) as nat, tracks.len());
            }
        }
    }
}

} // verus!
