//! FCP7 `xmeml` (XMEML v5) exporter: the interchange format that imports
//! natively in both Premiere Pro and DaVinci Resolve.
//!
//! Multi-track timelines of hard cuts (clips and gaps). A clip's timeline
//! position is the running sum of the clips and gaps before it; xmeml times
//! are integer frames at the sequence timebase. Transitions and fractional
//! NTSC rates are rejected rather than emitted in a form an NLE would misread.
use vstd::prelude::*;

use crate::asset::{leaf_name, MediaAsset, MediaSource};
use crate::error::TimelineError;
use crate::nle::{frames_exact, whole_fps, whole_frames, NleError};
use crate::text::{decimal, decimal_digits, decimal_string, push_digits};
use crate::time::{FrameRate, Seconds};
use crate::timeline::Timeline;
use crate::track::{occupied_upto, zero_seconds, Clip, Track, TrackItem, TrackKind};
use crate::xml::{
    events_view, new_attrs, open_tag, push_attr, push_decl, push_end, push_start,
    push_start_with, push_text_element, render_xml, lemma_leading_markup, rendered_xml, text_element, XmlEvent,
    XmlEventView,
};

verus! {

broadcast use Seconds::lemma_from_raw;

/// The index of the first asset whose source is `source`, among the first
/// `i`.
pub open spec fn asset_position_upto(assets: Seq<MediaAsset>, source: Seq<char>, i: nat) -> Option<
    int,
>
    decreases i,
{
    if i == 0 || i > assets.len() {
        None
    } else {
        match asset_position_upto(assets, source, (i - 1) as nat) {
            Some(k) => Some(k),
            None => if assets[i - 1].source()@ == source {
                Some(i - 1)
            } else {
                None
            },
        }
    }
}

/// The index of the registered asset whose source is `source`.
pub open spec fn asset_position(assets: Seq<MediaAsset>, source: Seq<char>) -> Option<int> {
    asset_position_upto(assets, source, assets.len())
}

proof fn lemma_position_sticks(assets: Seq<MediaAsset>, source: Seq<char>, i: nat, j: nat)
    requires
        i <= j <= assets.len(),
        asset_position_upto(assets, source, i) is Some,
    ensures
        asset_position_upto(assets, source, j) == asset_position_upto(assets, source, i),
    decreases j - i,
{
    if i < j {
        lemma_position_sticks(assets, source, i, (j - 1) as nat);
    }
}

/// The index of the registered asset whose source is `source`.
pub fn position_of(assets: &[MediaAsset], source: &MediaSource) -> (r: Option<usize>)
    ensures
        match asset_position(assets@, source@) {
            Some(k) => r matches Some(x) && x as int == k && k < assets@.len(),
            None => r is None,
        },
{
    let n = assets.len();
    let mut i: usize = 0;
    while i < n
        invariant
            n == assets@.len(),
            i <= n,
            asset_position_upto(assets@, source@, i as nat) is None,
        decreases n - i,
    {
        if assets[i].source().same(source) {
            proof {
                lemma_position_sticks(assets@, source@, (i + 1) as nat, n as nat);
            }
            return Some(i);
        }
        i = i + 1;
    }
    None
}

/// The label a clip is shown under: its own name, else its source's file
/// name, else `clip`.
pub open spec fn clip_label(clip: Clip) -> Seq<char> {
    match clip.name_view() {
        Some(name) => name,
        None => match leaf_name(clip.asset()@) {
            Some(leaf) => leaf,
            None => "clip"@,
        },
    }
}

/// The label a clip is shown under: its own name, else its source's file
/// name, else `clip`.
pub fn label_of(clip: &Clip) -> (s: &str)
    ensures
        s@ == clip_label(*clip),
{
    match clip.name() {
        Some(name) => name,
        None => match clip.asset().file_name() {
            Some(leaf) => leaf,
            None => "clip",
        },
    }
}

/// The `<media>` child element name for a track kind.
pub open spec fn kind_element_name(kind: TrackKind) -> Seq<char> {
    match kind {
        TrackKind::Video => "video"@,
        TrackKind::Audio => "audio"@,
    }
}

/// The xmeml `<media>` child element name for a track kind.
pub fn kind_element(kind: TrackKind) -> (s: &'static str)
    ensures
        s@ == kind_element_name(kind),
{
    match kind {
        TrackKind::Video => "video",
        TrackKind::Audio => "audio",
    }
}

/// The intra-document id of the asset at `index`: `file-1`, `file-2`, ...
pub open spec fn file_id(index: int) -> Seq<char> {
    "file-"@ + decimal_digits((index + 1) as nat)
}

/// The `<rate>` element for a whole frame rate.
pub open spec fn xmeml_rate(fps: int) -> Seq<XmlEventView> {
    seq![open_tag("rate"@, Seq::empty())] + text_element("timebase"@, decimal(fps))
        + text_element("ntsc"@, "FALSE"@) + seq![XmlEventView::End("rate"@)]
}

/// The events of one `<clipitem>` placed at `[start_frame, end_frame)`.
pub open spec fn clipitem_events(
    assets: Seq<MediaAsset>,
    clip: Clip,
    fps: int,
    start_frame: int,
    end_frame: int,
) -> Result<Seq<XmlEventView>, NleError> {
    match asset_position(assets, clip.asset()@) {
        None => Err(NleError::InvalidTimeline(TimelineError::UnknownAsset(*clip.asset()))),
        Some(index) => match whole_frames(clip.range().start(), fps) {
            None => Err(NleError::UnalignedDuration),
            Some(in_frame) => match whole_frames(clip.range().end(), fps) {
                None => Err(NleError::UnalignedDuration),
                Some(out_frame) => Ok(
                    seq![open_tag("clipitem"@, Seq::empty())] + text_element(
                        "name"@,
                        clip_label(clip),
                    ) + xmeml_rate(fps) + text_element("start"@, decimal(start_frame))
                        + text_element("end"@, decimal(end_frame)) + text_element(
                        "in"@,
                        decimal(in_frame as int),
                    ) + text_element("out"@, decimal(out_frame as int)) + seq![
                        open_tag("file"@, seq![("id"@, file_id(index))]),
                    ] + text_element(
                        "name"@,
                        match leaf_name(clip.asset()@) {
                            Some(leaf) => leaf,
                            None => file_id(index),
                        },
                    ) + text_element("pathurl"@, clip.asset()@) + seq![
                        XmlEventView::End("file"@),
                        XmlEventView::End("clipitem"@),
                    ],
                ),
            },
        },
    }
}

/// One item's effect on a track being written: the running position and
/// the events so far.
pub open spec fn track_step(
    assets: Seq<MediaAsset>,
    fps: int,
    position: Seconds,
    events: Seq<XmlEventView>,
    item: TrackItem,
) -> Result<(Seconds, Seq<XmlEventView>), NleError> {
    match item {
        TrackItem::Gap(gap) => match whole_frames(gap.duration(), fps) {
            None => Err(NleError::UnalignedDuration),
            Some(_) => match position.spec_checked_add(gap.duration()) {
                None => Err(NleError::InvalidTimeline(TimelineError::OccupiedOverflow)),
                Some(next) => Ok((next, events)),
            },
        },
        TrackItem::Clip(clip) => match whole_frames(position, fps) {
            None => Err(NleError::UnalignedDuration),
            Some(start_frame) => match position.spec_checked_add(clip.range().duration()) {
                None => Err(NleError::InvalidTimeline(TimelineError::OccupiedOverflow)),
                Some(next) => match whole_frames(next, fps) {
                    None => Err(NleError::UnalignedDuration),
                    Some(end_frame) => match clipitem_events(
                        assets,
                        clip,
                        fps,
                        start_frame as int,
                        end_frame as int,
                    ) {
                        Err(e) => Err(e),
                        Ok(item_events) => Ok((next, events + item_events)),
                    },
                },
            },
        },
        TrackItem::Transition(_) => Err(NleError::UnsupportedTransition),
    }
}

/// The state after the first `i` items of a track.
pub open spec fn track_upto(assets: Seq<MediaAsset>, fps: int, items: Seq<TrackItem>, i: nat) -> Result<
    (Seconds, Seq<XmlEventView>),
    NleError,
>
    decreases i,
{
    if i == 0 || i > items.len() {
        Ok((zero_seconds(), Seq::empty()))
    } else {
        match track_upto(assets, fps, items, (i - 1) as nat) {
            Err(e) => Err(e),
            Ok(state) => track_step(assets, fps, state.0, state.1, items[i - 1]),
        }
    }
}

/// A track is written at its own running position: after the first `i`
/// items the position is their occupied total, gaps included, so each clip
/// starts where the items before it end.
pub proof fn lemma_track_position(assets: Seq<MediaAsset>, fps: int, items: Seq<TrackItem>, i: nat)
    requires
        i <= items.len(),
    ensures
        track_upto(assets, fps, items, i) matches Ok(state) ==> occupied_upto(items, i) == Some(
            state.0,
        ),
    decreases i,
{
    if i > 0 {
        lemma_track_position(assets, fps, items, (i - 1) as nat);
    }
}

/// The events of one `<track>`.
pub open spec fn track_events(assets: Seq<MediaAsset>, fps: int, track: Track) -> Result<
    Seq<XmlEventView>,
    NleError,
> {
    match track_upto(assets, fps, track.item_seq(), track.item_seq().len()) {
        Err(e) => Err(e),
        Ok(state) => Ok(seq![open_tag("track"@, Seq::empty())] + state.1 + seq![
            XmlEventView::End("track"@),
        ]),
    }
}

/// The tracks of `kind` among the first `i`: whether there was one, and
/// their events in order.
pub open spec fn kind_body_upto(
    assets: Seq<MediaAsset>,
    fps: int,
    tracks: Seq<Track>,
    kind: TrackKind,
    i: nat,
) -> Result<(bool, Seq<XmlEventView>), NleError>
    decreases i,
{
    if i == 0 || i > tracks.len() {
        Ok((false, Seq::empty()))
    } else {
        match kind_body_upto(assets, fps, tracks, kind, (i - 1) as nat) {
            Err(e) => Err(e),
            Ok(state) => if tracks[i - 1].kind() == kind {
                match track_events(assets, fps, tracks[i - 1]) {
                    Err(e) => Err(e),
                    Ok(t) => Ok((true, state.1 + t)),
                }
            } else {
                Ok(state)
            },
        }
    }
}

/// The first `i` tracks of `a + b` are the first `i` of `a`.
proof fn lemma_kind_body_prefix(
    assets: Seq<MediaAsset>,
    fps: int,
    a: Seq<Track>,
    b: Seq<Track>,
    kind: TrackKind,
    i: nat,
)
    requires
        i <= a.len(),
    ensures
        kind_body_upto(assets, fps, a + b, kind, i) == kind_body_upto(assets, fps, a, kind, i),
    decreases i,
{
    if i > 0 {
        lemma_kind_body_prefix(assets, fps, a, b, kind, (i - 1) as nat);
        assert((a + b)[i - 1] == a[i - 1]);
    }
}

/// Past the tracks of `a`, the tracks of `b` add their own section body.
proof fn lemma_kind_body_suffix(
    assets: Seq<MediaAsset>,
    fps: int,
    a: Seq<Track>,
    b: Seq<Track>,
    kind: TrackKind,
    k: nat,
)
    requires
        k <= b.len(),
        kind_body_upto(assets, fps, a, kind, a.len()) is Ok,
    ensures
        kind_body_upto(assets, fps, a + b, kind, a.len() + k) == match kind_body_upto(
            assets,
            fps,
            b,
            kind,
            k,
        ) {
            Ok(y) => Ok::<(bool, Seq<XmlEventView>), NleError>(
                (
                    kind_body_upto(assets, fps, a, kind, a.len())->Ok_0.0 || y.0,
                    kind_body_upto(assets, fps, a, kind, a.len())->Ok_0.1 + y.1,
                ),
            ),
            Err(e) => Err(e),
        },
    decreases k,
{
    let x = kind_body_upto(assets, fps, a, kind, a.len())->Ok_0;
    if k == 0 {
        lemma_kind_body_prefix(assets, fps, a, b, kind, a.len());
        assert(x.1 + Seq::<XmlEventView>::empty() =~= x.1);
    } else {
        lemma_kind_body_suffix(assets, fps, a, b, kind, (k - 1) as nat);
        assert((a + b)[a.len() + k - 1] == b[k - 1]);
        if kind_body_upto(assets, fps, b, kind, (k - 1) as nat) is Ok {
            let y = kind_body_upto(assets, fps, b, kind, (k - 1) as nat)->Ok_0;
            if b[k - 1].kind() == kind && track_events(assets, fps, b[k - 1]) is Ok {
                let t = track_events(assets, fps, b[k - 1])->Ok_0;
                assert(x.1 + y.1 + t =~= x.1 + (y.1 + t));
            }
        }
    }
}

/// Each track of a kind is written whole, in order: the section body of
/// `a + b` is that of `a` followed by that of `b` (the first error, if
/// any, stops it), and a single track adds its own `<track>` exactly when
/// it has the kind.
pub proof fn lemma_kind_body_concat(
    assets: Seq<MediaAsset>,
    fps: int,
    a: Seq<Track>,
    b: Seq<Track>,
    kind: TrackKind,
)
    ensures
        kind_body_upto(assets, fps, a, kind, a.len()) matches Err(e) ==> kind_body_upto(
            assets,
            fps,
            a + b,
            kind,
            (a + b).len(),
        ) == Err::<(bool, Seq<XmlEventView>), NleError>(e),
        kind_body_upto(assets, fps, a, kind, a.len()) matches Ok(x) ==> kind_body_upto(
            assets,
            fps,
            a + b,
            kind,
            (a + b).len(),
        ) == match kind_body_upto(assets, fps, b, kind, b.len()) {
            Ok(y) => Ok::<(bool, Seq<XmlEventView>), NleError>((x.0 || y.0, x.1 + y.1)),
            Err(e) => Err(e),
        },
        b.len() == 1 ==> kind_body_upto(assets, fps, b, kind, 1) == if b[0].kind() == kind {
            match track_events(assets, fps, b[0]) {
                Ok(t) => Ok::<(bool, Seq<XmlEventView>), NleError>((true, t)),
                Err(e) => Err(e),
            }
        } else {
            Ok((false, Seq::empty()))
        },
{
    if kind_body_upto(assets, fps, a, kind, a.len()) is Ok {
        lemma_kind_body_suffix(assets, fps, a, b, kind, b.len());
    } else {
        lemma_kind_body_prefix(assets, fps, a, b, kind, a.len());
        lemma_kind_error_sticks(assets, fps, a + b, kind, a.len(), (a + b).len());
    }
    if b.len() == 1 {
        assert(kind_body_upto(assets, fps, b, kind, 0) == Ok::<(bool, Seq<XmlEventView>), NleError>(
            (false, Seq::empty()),
        ));
        if b[0].kind() == kind && track_events(assets, fps, b[0]) is Ok {
            let t = track_events(assets, fps, b[0])->Ok_0;
            assert(Seq::<XmlEventView>::empty() + t =~= t);
        }
    }
}

/// The section for a kind is written exactly when some track has that kind.
pub proof fn lemma_kind_section_present(
    assets: Seq<MediaAsset>,
    fps: int,
    tracks: Seq<Track>,
    kind: TrackKind,
    i: nat,
)
    requires
        i <= tracks.len(),
    ensures
        kind_body_upto(assets, fps, tracks, kind, i) matches Ok(x) ==> (x.0 <==> exists|j: int|
            0 <= j < i && (#[trigger] tracks[j]).kind() == kind),
    decreases i,
{
    if i > 0 {
        lemma_kind_section_present(assets, fps, tracks, kind, (i - 1) as nat);
        if kind_body_upto(assets, fps, tracks, kind, i) is Ok && tracks[i - 1].kind() == kind {
            assert(tracks[(i - 1) as int].kind() == kind);
        }
    }
}

/// The `<video>` or `<audio>` section: absent when no track has the kind.
pub open spec fn media_kind_events(
    assets: Seq<MediaAsset>,
    fps: int,
    tracks: Seq<Track>,
    kind: TrackKind,
) -> Result<Seq<XmlEventView>, NleError> {
    match kind_body_upto(assets, fps, tracks, kind, tracks.len()) {
        Err(e) => Err(e),
        Ok(state) => if state.0 {
            Ok(seq![open_tag(kind_element_name(kind), Seq::empty())] + state.1 + seq![
                XmlEventView::End(kind_element_name(kind)),
            ])
        } else {
            Ok(Seq::empty())
        },
    }
}

/// The whole xmeml document as writer events, or the error exporting stops at.
pub open spec fn xmeml_events(timeline: Timeline) -> Result<Seq<XmlEventView>, NleError> {
    match timeline.spec_validate() {
        Err(e) => Err(NleError::InvalidTimeline(e)),
        Ok(_) => match whole_fps(timeline.frame_rate()) {
            None => Err(NleError::UnsupportedFrameRate),
            Some(fps) => match media_kind_events(
                timeline.asset_seq(),
                fps as int,
                timeline.track_seq(),
                TrackKind::Video,
            ) {
                Err(e) => Err(e),
                Ok(video) => match media_kind_events(
                    timeline.asset_seq(),
                    fps as int,
                    timeline.track_seq(),
                    TrackKind::Audio,
                ) {
                    Err(e) => Err(e),
                    Ok(audio) => Ok(
                        seq![
                            XmlEventView::Decl("1.0"@, "UTF-8"@),
                            open_tag("xmeml"@, seq![("version"@, "5"@)]),
                            open_tag("sequence"@, Seq::empty()),
                        ] + text_element("name"@, timeline.name_view()) + xmeml_rate(fps as int)
                            + seq![open_tag("media"@, Seq::empty())] + video + audio + seq![
                            XmlEventView::End("media"@),
                            XmlEventView::End("sequence"@),
                            XmlEventView::End("xmeml"@),
                        ],
                    ),
                },
            },
        },
    }
}

/// Render an event sequence, or report the writer's failure.
pub open spec fn rendered_or_error(events: Result<Seq<XmlEventView>, NleError>) -> Result<
    Seq<char>,
    NleError,
> {
    match events {
        Err(e) => Err(e),
        Ok(evs) => match rendered_xml(evs) {
            Some(text) => Ok(text),
            None => Err(NleError::Xml),
        },
    }
}

/// A result's text as plain values.
pub open spec fn result_view(r: Result<String, NleError>) -> Result<Seq<char>, NleError> {
    match r {
        Ok(s) => Ok(s@),
        Err(e) => Err(e),
    }
}

fn write_rate(events: &mut Vec<XmlEvent>, fps: u32)
    ensures
        events_view(final(events)@) == events_view(old(events)@) + xmeml_rate(fps as int),
{
    push_start(events, "rate");
    let timebase = decimal_string(fps as i64);
    push_text_element(events, "timebase", timebase.as_str());
    push_text_element(events, "ntsc", "FALSE");
    push_end(events, "rate");
    assert(events_view(final(events)@) =~= events_view(old(events)@) + xmeml_rate(fps as int));
}

#[verifier::rlimit(40)]
fn write_clipitem(
    events: &mut Vec<XmlEvent>,
    assets: &[MediaAsset],
    clip: &Clip,
    rate: FrameRate,
    start_frame: i64,
    end_frame: i64,
) -> (r: Result<(), NleError>)
    requires
        rate.wf(),
        whole_fps(rate) is Some,
        clip.wf(),
    ensures
        match clipitem_events(assets@, *clip, rate.numer() as int, start_frame as int, end_frame as int) {
            Err(e) => r == Err::<(), NleError>(e),
            Ok(evs) => r is Ok && events_view(final(events)@) == events_view(old(events)@) + evs,
        },
{
    let source = clip.asset();
    let index = match position_of(assets, source) {
        Some(index) => index,
        None => {
            return Err(NleError::InvalidTimeline(TimelineError::UnknownAsset(source.duplicate())));
        },
    };
    proof {
        clip.range().lemma_end();
    }
    let in_frame = frames_exact(clip.range().start(), rate)?;
    let out_frame = frames_exact(clip.range().end(), rate)?;
    let fps = rate.numer() as u32;
    let mut id = String::from_str("file-");
    assert(index < assets.len());
    push_digits(&mut id, (index as u64) + 1);
    let ghost e0 = events_view(events@);
    push_start(events, "clipitem");
    push_text_element(events, "name", label_of(clip));
    write_rate(events, fps);
    let ghost e1 = events_view(events@);
    assert(e1 =~= e0 + seq![open_tag("clipitem"@, Seq::empty())] + text_element(
        "name"@,
        clip_label(*clip),
    ) + xmeml_rate(fps as int));
    push_text_element(events, "start", decimal_string(start_frame).as_str());
    push_text_element(events, "end", decimal_string(end_frame).as_str());
    push_text_element(events, "in", decimal_string(in_frame).as_str());
    push_text_element(events, "out", decimal_string(out_frame).as_str());
    let ghost e2 = events_view(events@);
    assert(e2 =~= e1 + text_element("start"@, decimal(start_frame as int)) + text_element(
        "end"@,
        decimal(end_frame as int),
    ) + text_element("in"@, decimal(in_frame as int)) + text_element(
        "out"@,
        decimal(out_frame as int),
    ));
    let mut attrs = new_attrs();
    push_attr(&mut attrs, "id", id.clone());
    push_start_with(events, "file", &attrs);
    let file_label = match source.file_name() {
        Some(leaf) => leaf,
        None => id.as_str(),
    };
    push_text_element(events, "name", file_label);
    push_text_element(events, "pathurl", source.path());
    push_end(events, "file");
    push_end(events, "clipitem");
    proof {
        assert(id@ =~= file_id(index as int));
        let e3 = events_view(events@);
        assert(e3 =~= e2 + seq![open_tag("file"@, seq![("id"@, file_id(index as int))])]
            + text_element("name"@, file_label@) + text_element("pathurl"@, clip.asset()@) + seq![
            XmlEventView::End("file"@),
            XmlEventView::End("clipitem"@),
        ]);
        let evs = clipitem_events(assets@, *clip, fps as int, start_frame as int, end_frame as int)->Ok_0;
        assert(events_view(final(events)@) =~= events_view(old(events)@) + evs);
    }
    Ok(())
}

fn write_track(events: &mut Vec<XmlEvent>, assets: &[MediaAsset], rate: FrameRate, track: &Track) -> (r:
    Result<(), NleError>)
    requires
        rate.wf(),
        whole_fps(rate) is Some,
        track.wf(),
    ensures
        match track_events(assets@, rate.numer() as int, *track) {
            Err(e) => r == Err::<(), NleError>(e),
            Ok(evs) => r is Ok && events_view(final(events)@) == events_view(old(events)@) + evs,
        },
{
    let ghost fps = rate.numer() as int;
    let ghost start = events_view(events@);
    push_start(events, "track");
    let items = track.items();
    let n = items.len();
    let mut position = Seconds::zero();
    let mut i: usize = 0;
    while i < n
        invariant
            rate.wf(),
            whole_fps(rate) is Some,
            fps == rate.numer(),
            items@ == track.item_seq(),
            n == items@.len(),
            i <= n,
            track.wf(),
            position.wf(),
            track_upto(assets@, fps, items@, i as nat) matches Ok(state) && state.0 == position
                && events_view(events@) == start.push(open_tag("track"@, Seq::empty())) + state.1,
        decreases n - i,
    {
        let item = &items[i];
        assert(items@[i as int].wf());
        let outcome: Result<(), NleError> = match item {
            TrackItem::Gap(gap) => match frames_exact(gap.duration(), rate) {
                Err(e) => Err(e),
                Ok(_) => match position.checked_add(gap.duration()) {
                    Some(next) => {
                        position = next;
                        Ok(())
                    },
                    None => Err(NleError::InvalidTimeline(TimelineError::OccupiedOverflow)),
                },
            },
            TrackItem::Clip(clip) => {
                proof {
                    clip.range().lemma_end();
                }
                match frames_exact(position, rate) {
                    Err(e) => Err(e),
                    Ok(start_frame) => match position.checked_add(clip.duration()) {
                        None => Err(NleError::InvalidTimeline(TimelineError::OccupiedOverflow)),
                        Some(next) => {
                            position = next;
                            match frames_exact(position, rate) {
                                Err(e) => Err(e),
                                Ok(end_frame) => write_clipitem(
                                    events,
                                    assets,
                                    clip,
                                    rate,
                                    start_frame,
                                    end_frame,
                                ),
                            }
                        },
                    },
                }
            },
            TrackItem::Transition(_) => Err(NleError::UnsupportedTransition),
        };
        if let Err(e) = outcome {
            proof {
                lemma_track_error_sticks(assets@, fps, items@, (i + 1) as nat, n as nat);
            }
            return Err(e);
        }
        proof {
            assert(events_view(events@) =~= start.push(open_tag("track"@, Seq::empty()))
                + track_upto(assets@, fps, items@, (i + 1) as nat)->Ok_0.1);
        }
        i = i + 1;
    }
    push_end(events, "track");
    proof {
        assert(events_view(events@) =~= start + track_events(assets@, fps, *track)->Ok_0);
    }
    Ok(())
}

proof fn lemma_track_error_sticks(assets: Seq<MediaAsset>, fps: int, items: Seq<TrackItem>, i: nat, j: nat)
    requires
        i <= j <= items.len(),
        track_upto(assets, fps, items, i) is Err,
    ensures
        track_upto(assets, fps, items, j) == track_upto(assets, fps, items, i),
    decreases j - i,
{
    if i < j {
        lemma_track_error_sticks(assets, fps, items, i, (j - 1) as nat);
    }
}

proof fn lemma_kind_error_sticks(
    assets: Seq<MediaAsset>,
    fps: int,
    tracks: Seq<Track>,
    kind: TrackKind,
    i: nat,
    j: nat,
)
    requires
        i <= j <= tracks.len(),
        kind_body_upto(assets, fps, tracks, kind, i) is Err,
    ensures
        kind_body_upto(assets, fps, tracks, kind, j) == kind_body_upto(assets, fps, tracks, kind, i),
    decreases j - i,
{
    if i < j {
        lemma_kind_error_sticks(assets, fps, tracks, kind, i, (j - 1) as nat);
    }
}

fn write_media_kind(
    events: &mut Vec<XmlEvent>,
    timeline: &Timeline,
    rate: FrameRate,
    kind: TrackKind,
) -> (r: Result<(), NleError>)
    requires
        timeline.wf(),
        rate.wf(),
        whole_fps(rate) is Some,
    ensures
        match media_kind_events(timeline.asset_seq(), rate.numer() as int, timeline.track_seq(), kind) {
            Err(e) => r == Err::<(), NleError>(e),
            Ok(evs) => r is Ok && events_view(final(events)@) == events_view(old(events)@) + evs,
        },
{
    let ghost fps = rate.numer() as int;
    let assets = timeline.assets();
    let tracks = timeline.tracks();
    let n = tracks.len();
    let mut body: Vec<XmlEvent> = Vec::new();
    let mut any = false;
    let mut i: usize = 0;
    while i < n
        invariant
            rate.wf(),
            whole_fps(rate) is Some,
            fps == rate.numer(),
            timeline.wf(),
            assets@ == timeline.asset_seq(),
            tracks@ == timeline.track_seq(),
            n == tracks@.len(),
            i <= n,
            kind_body_upto(assets@, fps, tracks@, kind, i as nat) matches Ok(state) && state.0
                == any && state.1 == events_view(body@),
        decreases n - i,
    {
        let track = &tracks[i];
        assert(timeline.track_seq()[i as int].wf());
        let ghost body_before = body@;
        if track.kind() == kind {
            let written = write_track(&mut body, assets, rate, track);
            if let Err(e) = written {
                proof {
                    lemma_kind_error_sticks(assets@, fps, tracks@, kind, (i + 1) as nat, n as nat);
                }
                return Err(e);
            }
            any = true;
            proof {
                let t = track_events(assets@, fps, *track)->Ok_0;
                assert(events_view(body@) == events_view(body_before) + t);
            }
        }
        i = i + 1;
    }
    if any {
        let element = kind_element(kind);
        push_start(events, element);
        let ghost mid = events@;
        let ghost added = body@;
        events.append(&mut body);
        proof {
            assert(events_view(events@) =~= events_view(mid) + events_view(added));
        }
        push_end(events, element);
    }
    proof {
        let evs = media_kind_events(timeline.asset_seq(), fps, timeline.track_seq(), kind)->Ok_0;
        assert(events_view(final(events)@) =~= events_view(old(events)@) + evs);
    }
    Ok(())
}

/// Serialize `timeline` to an FCP7 `xmeml` document.
///
/// Errors with [`NleError::InvalidTimeline`] if the timeline fails its own
/// validation, [`NleError::UnsupportedFrameRate`] for fractional (NTSC)
/// rates, [`NleError::UnsupportedTransition`] if a track holds a transition,
/// and [`NleError::UnalignedDuration`] if a clip or gap is not a whole number
/// of frames at the sequence rate; the first failure in document order wins.
pub fn to_xmeml(timeline: &Timeline) -> (r: Result<String, NleError>)
    requires
        timeline.wf(),
    ensures
        result_view(r) == rendered_or_error(xmeml_events(*timeline)),
        xmeml_events(*timeline) is Ok ==> r is Ok,
        r matches Ok(text) ==> text@.len() > 0,
{
    if let Err(e) = timeline.validate() {
        return Err(NleError::InvalidTimeline(e));
    }
    let rate = timeline.frame_rate();
    let fps = match rate.as_whole() {
        Some(fps) => fps,
        None => {
            return Err(NleError::UnsupportedFrameRate);
        },
    };
    let mut events: Vec<XmlEvent> = Vec::new();
    push_decl(&mut events, "1.0", "UTF-8");
    let mut root = new_attrs();
    push_attr(&mut root, "version", String::from_str("5"));
    push_start_with(&mut events, "xmeml", &root);
    push_start(&mut events, "sequence");
    push_text_element(&mut events, "name", timeline.name());
    write_rate(&mut events, fps);
    push_start(&mut events, "media");
    let ghost head = events_view(events@);
    write_media_kind(&mut events, timeline, rate, TrackKind::Video)?;
    write_media_kind(&mut events, timeline, rate, TrackKind::Audio)?;
    let ghost body = events_view(events@);
    push_end(&mut events, "media");
    push_end(&mut events, "sequence");
    push_end(&mut events, "xmeml");
    proof {
        assert(events_view(Seq::<XmlEvent>::empty()) =~= Seq::<XmlEventView>::empty());
        let evs = xmeml_events(*timeline)->Ok_0;
        assert(events_view(events@) =~= evs);
        lemma_leading_markup(evs);
    }
    match render_xml(&events) {
        Some(text) => Ok(text),
        None => Err(NleError::Xml),
    }
}

/// The xmeml exporter never writes a timeline that holds a transition:
/// whichever failure it meets first, the export is refused.
pub proof fn lemma_xmeml_refuses_transitions(timeline: Timeline, k: int, j: int)
    requires
        0 <= k < timeline.track_seq().len(),
        0 <= j < timeline.track_seq()[k].item_seq().len(),
        timeline.track_seq()[k].item_seq()[j] is Transition,
    ensures
        rendered_or_error(xmeml_events(timeline)) is Err,
{
    if timeline.spec_validate() is Ok && whole_fps(timeline.frame_rate()) is Some {
        let assets = timeline.asset_seq();
        let fps = whole_fps(timeline.frame_rate())->Some_0 as int;
        let tracks = timeline.track_seq();
        let track = tracks[k];
        let items = track.item_seq();
        assert(track_upto(assets, fps, items, (j + 1) as nat) is Err);
        lemma_track_error_sticks(assets, fps, items, (j + 1) as nat, items.len());
        assert(track_events(assets, fps, track) is Err);
        assert(kind_body_upto(assets, fps, tracks, track.kind(), (k + 1) as nat) is Err);
        lemma_kind_error_sticks(assets, fps, tracks, track.kind(), (k + 1) as nat, tracks.len());
        assert(media_kind_events(assets, fps, tracks, track.kind()) is Err);
    }
}

} // verus!
