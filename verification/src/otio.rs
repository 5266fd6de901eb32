//! OpenTimelineIO (`.otio`) exporter: the timeline IR as native OTIO JSON
//! against a pinned schema version.
//!
//! The IR maps directly onto OTIO's object model: a `Timeline` whose `tracks`
//! is one `Stack` of `Track`s, each holding `Clip`/`Gap`/`Transition`
//! children, every object tagged with its `OTIO_SCHEMA`. Editorial times (clip
//! in/out, gaps, fades) are whole frames at the sequence rate and a sub-frame
//! one is rejected; a clip's `available_range` is the probed source length,
//! emitted exactly at the source's own rational rate (value = numerator,
//! rate = denominator). The document is written as compact JSON text here and
//! laid out by `serde_json`'s pretty printer.
use vstd::prelude::*;

use crate::asset::{leaf_name, MediaAsset};
use crate::error::TimelineError;
use crate::nle::{frames_exact, whole_fps, whole_frames, NleError};
use crate::text::{decimal, push_decimal};
use crate::time::{FrameRate, Seconds};
use crate::timeline::Timeline;
use crate::track::{zero_seconds, Clip, Gap, Track, TrackItem, TrackKind, Transition};
use crate::xmeml::{asset_position, position_of, result_view};

verus! {

broadcast use Seconds::lemma_from_raw;

/// The lowercase hexadecimal digit for `d` (`0 <= d < 16`).
pub open spec fn hex_digit(d: int) -> char {
    if d < 10 {
        (48 + d) as char
    } else {
        (87 + d) as char
    }
}

/// One character inside a JSON string literal: `"` and `\` escaped with a
/// backslash, control characters as `\u00XX`, everything else as itself.
pub open spec fn json_escaped_char(c: char) -> Seq<char> {
    if c == '"' {
        seq!['\\', '"']
    } else if c == '\\' {
        seq!['\\', '\\']
    } else if (c as u32) < 0x20 {
        seq!['\\', 'u', '0', '0', hex_digit(((c as u32) / 16) as int), hex_digit(((c as u32) % 16) as int)]
    } else {
        seq![c]
    }
}

/// The characters of `s` escaped for a JSON string literal.
pub open spec fn json_escaped(s: Seq<char>) -> Seq<char>
    decreases s.len(),
{
    if s.len() == 0 {
        Seq::empty()
    } else {
        json_escaped(s.drop_last()) + json_escaped_char(s.last())
    }
}

/// `s` as a JSON string literal.
pub open spec fn json_string(s: Seq<char>) -> Seq<char> {
    seq!['"'] + json_escaped(s) + seq!['"']
}

/// What `serde_json::to_string_pretty` prints for the value
/// `serde_json::from_str` parses from `text`, or `None` where either fails.
pub uninterp spec fn pretty_json(text: Seq<char>) -> Option<Seq<char>>;

/// Parses `text` into a `serde_json::Value` and prints it with
/// `serde_json::to_string_pretty`.
///
/// The contract names the result: the layout (two-space indentation, keys
/// in `serde_json::Map` order) is `serde_json`'s own. It states that printed
/// text is never empty: every JSON value prints as at least one character.
#[verifier::external_body]
fn render_json(text: &str) -> (r: Option<String>)
    ensures
        match pretty_json(text@) {
            Some(t) => r matches Some(s) && s@ == t,
            None => r is None,
        },
        r matches Some(s) ==> s@.len() > 0,
{
    let value: serde_json::Value = serde_json::from_str(text).ok()?;
    serde_json::to_string_pretty(&value).ok()
}

fn hex(d: u32) -> (c: char)
    requires
        d < 16,
    ensures
        c == hex_digit(d as int),
{
    if d < 10 {
        (48 + d as u8) as char
    } else {
        (87 + d as u8) as char
    }
}

/// Append `s` as a JSON string literal.
pub fn push_json_string(out: &mut String, s: &str)
    ensures
        final(out)@ == old(out)@ + json_string(s@),
{
    out.push('"');
    let n = s.unicode_len();
    let mut i: usize = 0;
    while i < n
        invariant
            n == s@.len(),
            i <= n,
            out@ == old(out)@ + seq!['"'] + json_escaped(s@.subrange(0, i as int)),
        decreases n - i,
    {
        let c = s.get_char(i);
        let ghost before = out@;
        if c == '"' {
            out.push('\\');
            out.push('"');
        } else if c == '\\' {
            out.push('\\');
            out.push('\\');
        } else if (c as u32) < 0x20 {
            let code = c as u32;
            out.push('\\');
            out.push('u');
            out.push('0');
            out.push('0');
            out.push(hex(code / 16));
            out.push(hex(code % 16));
        } else {
            out.push(c);
        }
        proof {
            assert(s@.subrange(0, i + 1).drop_last() =~= s@.subrange(0, i as int));
            assert(out@ =~= before + json_escaped_char(c));
        }
        i = i + 1;
    }
    out.push('"');
    proof {
        assert(s@.subrange(0, n as int) =~= s@);
        assert(final(out)@ =~= old(out)@ + json_string(s@));
    }
}

/// An OTIO `RationalTime` of `value` at `rate`.
pub open spec fn rational_time(value: int, rate: int) -> Seq<char> {
    "{\"OTIO_SCHEMA\":\"RationalTime.1\",\"rate\":"@ + decimal(rate) + ",\"value\":"@ + decimal(value)
        + "}"@
}

fn push_rational_time(out: &mut String, value: i64, rate: i64)
    ensures
        final(out)@ == old(out)@ + rational_time(value as int, rate as int),
{
    out.append("{\"OTIO_SCHEMA\":\"RationalTime.1\",\"rate\":");
    push_decimal(out, rate);
    out.append(",\"value\":");
    push_decimal(out, value);
    out.append("}");
    assert(final(out)@ =~= old(out)@ + rational_time(value as int, rate as int));
}

/// An OTIO `TimeRange` of `duration` from `start`, both whole frames at `fps`.
pub open spec fn time_range(start: Seconds, duration: Seconds, fps: int) -> Result<Seq<char>, NleError> {
    match whole_frames(start, fps) {
        None => Err(NleError::UnalignedDuration),
        Some(s) => match whole_frames(duration, fps) {
            None => Err(NleError::UnalignedDuration),
            Some(d) => Ok(
                "{\"OTIO_SCHEMA\":\"TimeRange.1\",\"start_time\":"@ + rational_time(s as int, fps)
                    + ",\"duration\":"@ + rational_time(d as int, fps) + "}"@,
            ),
        },
    }
}

fn push_time_range(out: &mut String, start: Seconds, duration: Seconds, rate: FrameRate) -> (r: Result<
    (),
    NleError,
>)
    requires
        start.wf(),
        duration.wf(),
        rate.wf(),
        whole_fps(rate) is Some,
    ensures
        match time_range(start, duration, rate.numer() as int) {
            Ok(t) => r is Ok && final(out)@ == old(out)@ + t,
            Err(e) => r == Err::<(), NleError>(e),
        },
{
    let first = frames_exact(start, rate)?;
    let length = frames_exact(duration, rate)?;
    out.append("{\"OTIO_SCHEMA\":\"TimeRange.1\",\"start_time\":");
    push_rational_time(out, first, rate.numer());
    out.append(",\"duration\":");
    push_rational_time(out, length, rate.numer());
    out.append("}");
    proof {
        let t = time_range(start, duration, rate.numer() as int)->Ok_0;
        assert(final(out)@ =~= old(out)@ + t);
    }
    Ok(())
}

/// The media's `available_range`: its full length from zero, exact at the
/// source's own rational rate.
pub open spec fn available_range(duration: Seconds) -> Seq<char> {
    "{\"OTIO_SCHEMA\":\"TimeRange.1\",\"start_time\":"@ + rational_time(0, 1) + ",\"duration\":"@
        + rational_time(duration.numer() as int, duration.denom() as int) + "}"@
}

fn push_available_range(out: &mut String, duration: Seconds)
    ensures
        final(out)@ == old(out)@ + available_range(duration),
{
    out.append("{\"OTIO_SCHEMA\":\"TimeRange.1\",\"start_time\":");
    push_rational_time(out, 0, 1);
    out.append(",\"duration\":");
    push_rational_time(out, duration.numer(), duration.denom());
    out.append("}");
    assert(final(out)@ =~= old(out)@ + available_range(duration));
}

/// The name a clip carries: its own, else its source's file name.
pub open spec fn clip_name(clip: Clip) -> Option<Seq<char>> {
    match clip.name_view() {
        Some(name) => Some(name),
        None => leaf_name(clip.asset()@),
    }
}

/// An OTIO `Clip`.
pub open spec fn clip_json(assets: Seq<MediaAsset>, fps: int, clip: Clip) -> Result<Seq<char>, NleError> {
    match asset_position(assets, clip.asset()@) {
        None => Err(NleError::InvalidTimeline(TimelineError::UnknownAsset(*clip.asset()))),
        Some(k) => match time_range(clip.range().start(), clip.range().duration(), fps) {
            Err(e) => Err(e),
            Ok(range) => Ok(
                "{\"OTIO_SCHEMA\":\"Clip.1\""@ + match clip_name(clip) {
                    Some(name) => ",\"name\":"@ + json_string(name),
                    None => Seq::empty(),
                } + ",\"source_range\":"@ + range
                    + ",\"media_reference\":{\"OTIO_SCHEMA\":\"ExternalReference.1\",\"target_url\":"@
                    + json_string(clip.asset()@) + ",\"available_range\":"@ + available_range(
                    assets[k].duration(),
                ) + "}}"@,
            ),
        },
    }
}

/// An OTIO `Gap`: an item whose source range spans its own length from zero.
pub open spec fn gap_json(gap: Gap, fps: int) -> Result<Seq<char>, NleError> {
    match time_range(zero_seconds(), gap.duration(), fps) {
        Err(e) => Err(e),
        Ok(range) => Ok("{\"OTIO_SCHEMA\":\"Gap.1\",\"source_range\":"@ + range + "}"@),
    }
}

/// An exported gap's source range starts at frame zero and lasts the gap's
/// own length in whole frames; a gap off the frame grid is refused.
pub proof fn lemma_gap_source_range(assets: Seq<MediaAsset>, fps: int, gap: Gap)
    requires
        fps > 0,
        gap.duration().denom() > 0,
    ensures
        item_json(assets, fps, TrackItem::Gap(gap)) is Ok <==> whole_frames(gap.duration(), fps) is Some,
        item_json(assets, fps, TrackItem::Gap(gap)) matches Ok(j) ==> {
            let frames = whole_frames(gap.duration(), fps)->Some_0;
            &&& frames * gap.duration().denom() == gap.duration().numer() * fps
            &&& j == "{\"OTIO_SCHEMA\":\"Gap.1\",\"source_range\":"@
                + "{\"OTIO_SCHEMA\":\"TimeRange.1\",\"start_time\":"@ + rational_time(0, fps)
                + ",\"duration\":"@ + rational_time(frames as int, fps) + "}"@ + "}"@
        },
{
    reveal(item_json);
    let z = zero_seconds();
    assert(z.numer() == 0 && z.denom() == 1);
    assert(z.numer() * fps == 0);
    assert(whole_frames(z, fps) == Some(0i64));
    let p = gap.duration().numer() * fps;
    let d = gap.duration().denom() as int;
    vstd::arithmetic::div_mod::lemma_fundamental_div_mod(p, d);
    if whole_frames(gap.duration(), fps) is Some {
        assert((p / d) * d == p) by (nonlinear_arith)
            requires
                p == d * (p / d) + p % d,
                p % d == 0,
        ;
    }
}

/// An OTIO `Transition`: `span / 2` frames into the preceding clip and the
/// rest into the following one.
pub open spec fn transition_json(transition: Transition, fps: int) -> Result<Seq<char>, NleError> {
    match whole_frames(transition.duration(), fps) {
        None => Err(NleError::UnalignedDuration),
        Some(span) => {
            let lead = span as int / 2;
            Ok(
                "{\"OTIO_SCHEMA\":\"Transition.1\",\"transition_type\":\"SMPTE_Dissolve\",\"in_offset\":"@
                    + rational_time(lead, fps) + ",\"out_offset\":"@ + rational_time(
                    span - lead,
                    fps,
                ) + "}"@,
            )
        },
    }
}

/// One track item as OTIO JSON.
#[verifier::opaque]
pub open spec fn item_json(assets: Seq<MediaAsset>, fps: int, item: TrackItem) -> Result<
    Seq<char>,
    NleError,
> {
    match item {
        TrackItem::Clip(clip) => clip_json(assets, fps, clip),
        TrackItem::Gap(gap) => gap_json(gap, fps),
        TrackItem::Transition(t) => transition_json(t, fps),
    }
}

/// The comma-separated JSON of the first `i` items.
pub open spec fn items_json_upto(assets: Seq<MediaAsset>, fps: int, items: Seq<TrackItem>, i: nat) -> Result<
    Seq<char>,
    NleError,
>
    decreases i,
{
    if i == 0 || i > items.len() {
        Ok(Seq::empty())
    } else {
        match items_json_upto(assets, fps, items, (i - 1) as nat) {
            Err(e) => Err(e),
            Ok(done) => match item_json(assets, fps, items[i - 1]) {
                Err(e) => Err(e),
                Ok(more) => Ok(
                    if i == 1 {
                        more
                    } else {
                        done + ","@ + more
                    },
                ),
            },
        }
    }
}

/// The OTIO `TrackKind` constant for a track's kind.
pub open spec fn kind_name(kind: TrackKind) -> Seq<char> {
    match kind {
        TrackKind::Video => "Video"@,
        TrackKind::Audio => "Audio"@,
    }
}

/// The OTIO `TrackKind` constant for a track's kind.
pub fn track_kind(kind: TrackKind) -> (s: &'static str)
    ensures
        s@ == kind_name(kind),
{
    match kind {
        TrackKind::Video => "Video",
        TrackKind::Audio => "Audio",
    }
}

/// An OTIO `Track`.
#[verifier::opaque]
pub open spec fn track_json(assets: Seq<MediaAsset>, fps: int, track: Track) -> Result<Seq<char>, NleError> {
    match items_json_upto(assets, fps, track.item_seq(), track.item_seq().len()) {
        Err(e) => Err(e),
        Ok(children) => Ok(
            "{\"OTIO_SCHEMA\":\"Track.1\",\"kind\":"@ + json_string(kind_name(track.kind()))
                + ",\"source_range\":null,\"children\":["@ + children + "]}"@,
        ),
    }
}

/// The comma-separated JSON of the first `i` tracks.
pub open spec fn tracks_json_upto(assets: Seq<MediaAsset>, fps: int, tracks: Seq<Track>, i: nat) -> Result<
    Seq<char>,
    NleError,
>
    decreases i,
{
    if i == 0 || i > tracks.len() {
        Ok(Seq::empty())
    } else {
        match tracks_json_upto(assets, fps, tracks, (i - 1) as nat) {
            Err(e) => Err(e),
            Ok(done) => match track_json(assets, fps, tracks[i - 1]) {
                Err(e) => Err(e),
                Ok(more) => Ok(
                    if i == 1 {
                        more
                    } else {
                        done + ","@ + more
                    },
                ),
            },
        }
    }
}

/// The whole OTIO document as compact JSON text, or the error exporting
/// stops at.
pub open spec fn otio_json(timeline: Timeline) -> Result<Seq<char>, NleError> {
    match timeline.spec_validate() {
        Err(e) => Err(NleError::InvalidTimeline(e)),
        Ok(_) => match whole_fps(timeline.frame_rate()) {
            None => Err(NleError::UnsupportedFrameRate),
            Some(fps) => match tracks_json_upto(
                timeline.asset_seq(),
                fps as int,
                timeline.track_seq(),
                timeline.track_seq().len(),
            ) {
                Err(e) => Err(e),
                Ok(tracks) => Ok(
                    "{\"OTIO_SCHEMA\":\"Timeline.1\",\"name\":"@ + json_string(timeline.name_view())
                        + ",\"tracks\":{\"OTIO_SCHEMA\":\"Stack.1\",\"name\":\"tracks\",\"source_range\":null,\"children\":["@
                        + tracks + "]}}"@,
                ),
            },
        },
    }
}

/// The pretty-printed document, or the error exporting stops at.
pub open spec fn otio_document(timeline: Timeline) -> Result<Seq<char>, NleError> {
    match otio_json(timeline) {
        Err(e) => Err(e),
        Ok(text) => match pretty_json(text) {
            Some(pretty) => Ok(pretty),
            None => Err(NleError::Xml),
        },
    }
}

fn push_clip(out: &mut String, assets: &[MediaAsset], rate: FrameRate, clip: &Clip) -> (r: Result<
    (),
    NleError,
>)
    requires
        rate.wf(),
        whole_fps(rate) is Some,
        clip.wf(),
    ensures
        match clip_json(assets@, rate.numer() as int, *clip) {
            Ok(t) => r is Ok && final(out)@ == old(out)@ + t,
            Err(e) => r == Err::<(), NleError>(e),
        },
{
    let index = match position_of(assets, clip.asset()) {
        Some(k) => k,
        None => {
            return Err(NleError::InvalidTimeline(TimelineError::UnknownAsset(clip.asset().duplicate())));
        },
    };
    let mut range = String::new();
    push_time_range(&mut range, clip.range().start(), clip.duration(), rate)?;
    out.append("{\"OTIO_SCHEMA\":\"Clip.1\"");
    let ghost head = out@;
    let name = match clip.name() {
        Some(n) => Some(n),
        None => clip.asset().file_name(),
    };
    if let Some(n) = name {
        out.append(",\"name\":");
        push_json_string(out, n);
    }
    let ghost named = out@;
    out.append(",\"source_range\":");
    out.append(range.as_str());
    out.append(",\"media_reference\":{\"OTIO_SCHEMA\":\"ExternalReference.1\",\"target_url\":");
    push_json_string(out, clip.asset().path());
    out.append(",\"available_range\":");
    push_available_range(out, assets[index].duration());
    out.append("}}");
    proof {
        assert(named =~= head + match clip_name(*clip) {
            Some(n) => ",\"name\":"@ + json_string(n),
            None => Seq::empty(),
        });
        let t = clip_json(assets@, rate.numer() as int, *clip)->Ok_0;
        assert(final(out)@ =~= old(out)@ + t);
    }
    Ok(())
}

fn push_item(out: &mut String, assets: &[MediaAsset], rate: FrameRate, item: &TrackItem) -> (r: Result<
    (),
    NleError,
>)
    requires
        rate.wf(),
        whole_fps(rate) is Some,
        item.wf(),
    ensures
        match item_json(assets@, rate.numer() as int, *item) {
            Ok(t) => r is Ok && final(out)@ == old(out)@ + t,
            Err(e) => r == Err::<(), NleError>(e),
        },
{
    reveal(item_json);
    match item {
        TrackItem::Clip(clip) => push_clip(out, assets, rate, clip),
        TrackItem::Gap(gap) => {
            let mut range = String::new();
            push_time_range(&mut range, Seconds::zero(), gap.duration(), rate)?;
            out.append("{\"OTIO_SCHEMA\":\"Gap.1\",\"source_range\":");
            out.append(range.as_str());
            out.append("}");
            proof {
                let t = gap_json(*gap, rate.numer() as int)->Ok_0;
                assert(final(out)@ =~= old(out)@ + t);
            }
            Ok(())
        },
        TrackItem::Transition(transition) => {
            let span = frames_exact(transition.duration(), rate)?;
            let lead = span / 2;
            out.append(
                "{\"OTIO_SCHEMA\":\"Transition.1\",\"transition_type\":\"SMPTE_Dissolve\",\"in_offset\":",
            );
            push_rational_time(out, lead, rate.numer());
            out.append(",\"out_offset\":");
            push_rational_time(out, span - lead, rate.numer());
            out.append("}");
            proof {
                let t = transition_json(*transition, rate.numer() as int)->Ok_0;
                assert(final(out)@ =~= old(out)@ + t);
            }
            Ok(())
        },
    }
}

proof fn lemma_items_error_sticks(assets: Seq<MediaAsset>, fps: int, items: Seq<TrackItem>, i: nat, j: nat)
    requires
        i <= j <= items.len(),
        items_json_upto(assets, fps, items, i) is Err,
    ensures
        items_json_upto(assets, fps, items, j) == items_json_upto(assets, fps, items, i),
    decreases j - i,
{
    if i < j {
        lemma_items_error_sticks(assets, fps, items, i, (j - 1) as nat);
    }
}

proof fn lemma_tracks_error_sticks(assets: Seq<MediaAsset>, fps: int, tracks: Seq<Track>, i: nat, j: nat)
    requires
        i <= j <= tracks.len(),
        tracks_json_upto(assets, fps, tracks, i) is Err,
    ensures
        tracks_json_upto(assets, fps, tracks, j) == tracks_json_upto(assets, fps, tracks, i),
    decreases j - i,
{
    if i < j {
        lemma_tracks_error_sticks(assets, fps, tracks, i, (j - 1) as nat);
    }
}

#[verifier::rlimit(40)]
fn push_track(out: &mut String, assets: &[MediaAsset], rate: FrameRate, track: &Track) -> (r: Result<
    (),
    NleError,
>)
    requires
        rate.wf(),
        whole_fps(rate) is Some,
        track.wf(),
    ensures
        match track_json(assets@, rate.numer() as int, *track) {
            Ok(t) => r is Ok && final(out)@ == old(out)@ + t,
            Err(e) => r == Err::<(), NleError>(e),
        },
{
    let ghost fps = rate.numer() as int;
    let items = track.items();
    let n = items.len();
    let mut children = String::new();
    let mut i: usize = 0;
    while i < n
        invariant
            rate.wf(),
            whole_fps(rate) is Some,
            fps == rate.numer(),
            track.wf(),
            items@ == track.item_seq(),
            n == items@.len(),
            i <= n,
            items_json_upto(assets@, fps, items@, i as nat) == Ok::<Seq<char>, NleError>(children@),
        decreases n - i,
    {
        assert(items@[i as int].wf());
        let ghost before = children@;
        if i > 0 {
            children.append(",");
        }
        let written = push_item(&mut children, assets, rate, &items[i]);
        if let Err(e) = written {
            proof {
                lemma_items_error_sticks(assets@, fps, items@, (i + 1) as nat, n as nat);
                reveal(track_json);
            }
            return Err(e);
        }
        proof {
            let more = item_json(assets@, fps, items@[i as int])->Ok_0;
            if i == 0 {
                assert(before =~= Seq::<char>::empty());
                assert(children@ =~= more);
            } else {
                assert(children@ =~= before + ","@ + more);
            }
        }
        i = i + 1;
    }
    out.append("{\"OTIO_SCHEMA\":\"Track.1\",\"kind\":");
    push_json_string(out, track_kind(track.kind()));
    out.append(",\"source_range\":null,\"children\":[");
    out.append(children.as_str());
    out.append("]}");
    proof {
        reveal(track_json);
        let t = track_json(assets@, fps, *track)->Ok_0;
        assert(final(out)@ =~= old(out)@ + t);
    }
    Ok(())
}

/// Serialize `timeline` to an OpenTimelineIO (`.otio`) JSON document.
///
/// Errors with [`NleError::InvalidTimeline`] if the timeline fails its own
/// validation, [`NleError::UnsupportedFrameRate`] for fractional (NTSC)
/// rates, and [`NleError::UnalignedDuration`] if a clip, gap, or cross-fade is
/// not a whole number of frames at the sequence rate; the first failure in
/// document order wins.
#[verifier::rlimit(40)]
pub fn to_otio(timeline: &Timeline) -> (r: Result<String, NleError>)
    requires
        timeline.wf(),
    ensures
        result_view(r) == otio_document(*timeline),
        r matches Ok(text) ==> text@.len() > 0,
{
    if let Err(e) = timeline.validate() {
        return Err(NleError::InvalidTimeline(e));
    }
    let rate = timeline.frame_rate();
    if rate.as_whole().is_none() {
        return Err(NleError::UnsupportedFrameRate);
    }
    let ghost fps = rate.numer() as int;
    let assets = timeline.assets();
    let tracks = timeline.tracks();
    assert forall|k: int| 0 <= k < tracks@.len() implies (#[trigger] tracks@[k]).wf() by {
        assert(timeline.track_seq()[k].wf());
    }
    let n = tracks.len();
    let mut children = String::new();
    let mut i: usize = 0;
    while i < n
        invariant
            rate.wf(),
            whole_fps(rate) is Some,
            fps == rate.numer(),
            forall|k: int| 0 <= k < tracks@.len() ==> (#[trigger] tracks@[k]).wf(),
            n == tracks@.len(),
            i <= n,
            tracks_json_upto(assets@, fps, tracks@, i as nat) matches Ok(done) && done == children@,
            tracks@ == timeline.track_seq(),
            assets@ == timeline.asset_seq(),
            timeline.spec_validate() is Ok,
            rate == timeline.frame_rate(),
        decreases n - i,
    {
        assert(tracks@[i as int].wf());
        let mut piece = String::new();
        let written = push_track(&mut piece, assets, rate, &tracks[i]);
        if let Err(e) = written {
            proof {
                lemma_tracks_error_sticks(assets@, fps, tracks@, (i + 1) as nat, n as nat);
            }
            return Err(e);
        }
        let ghost before = children@;
        if i > 0 {
            children.append(",");
        }
        children.append(piece.as_str());
        proof {
            let more = track_json(assets@, fps, tracks@[i as int])->Ok_0;
            assert(piece@ =~= more);
            if i == 0 {
                assert(before =~= Seq::<char>::empty());
                assert(children@ =~= more);
            } else {
                assert(children@ =~= before + ","@ + more);
            }
        }
        i = i + 1;
    }
    assert(tracks@ == timeline.track_seq());
    assert(assets@ == timeline.asset_seq());
    let mut document = String::from_str("{\"OTIO_SCHEMA\":\"Timeline.1\",\"name\":");
    push_json_string(&mut document, timeline.name());
    document.append(
        ",\"tracks\":{\"OTIO_SCHEMA\":\"Stack.1\",\"name\":\"tracks\",\"source_range\":null,\"children\":[",
    );
    document.append(children.as_str());
    document.append("]}}");
    proof {
        let t = otio_json(*timeline)->Ok_0;
        assert(document@ =~= t);
    }
    match render_json(document.as_str()) {
        Some(pretty) => Ok(pretty),
        None => Err(NleError::Xml),
    }
}

} // verus!
