//! The timeline: a registry of media assets and the tracks that reference them.
use vstd::prelude::*;

use crate::asset::{MediaAsset, MediaSource};
use crate::error::TimelineError;
use crate::time::FrameRate;
use crate::track::{first_transition_error, totals_fit_upto, Clip, Track, TrackItem, TrackKind};

verus! {

/// The position of a track within a [`Timeline`], returned by
/// [`Timeline::add_track`].
#[derive(Clone, Copy, Debug, PartialEq, Eq, PartialOrd, Ord, Hash, Structural)]
pub struct TrackIndex(usize);

impl TrackIndex {
    /// The zero-based position.
    pub closed spec fn spec_get(self) -> usize {
        self.0
    }

    /// The zero-based position.
    #[verifier::when_used_as_spec(spec_get)]
    pub fn get(self) -> (i: usize)
        ensures
            i == self.spec_get(),
    {
        self.0
    }
}

/// The first of the first `i` assets whose source is `source`.
pub open spec fn first_asset_upto(assets: Seq<MediaAsset>, source: Seq<char>, i: nat) -> Option<
    MediaAsset,
>
    decreases i,
{
    if i == 0 || i > assets.len() {
        None
    } else {
        match first_asset_upto(assets, source, (i - 1) as nat) {
            Some(a) => Some(a),
            None => if assets[i - 1].source()@ == source {
                Some(assets[i - 1])
            } else {
                None
            },
        }
    }
}

/// The registered asset whose source is `source`, if any.
pub open spec fn find_asset(assets: Seq<MediaAsset>, source: Seq<char>) -> Option<MediaAsset> {
    first_asset_upto(assets, source, assets.len())
}

/// No two assets share a source.
pub open spec fn unique_sources(assets: Seq<MediaAsset>) -> bool {
    forall|i: int, j: int|
        0 <= i < j < assets.len() ==> (#[trigger] assets[i]).source()@ != (
        #[trigger] assets[j]).source()@
}

/// Why a clip on a track of `kind` is invalid against the registered assets,
/// if it is.
pub open spec fn clip_error(assets: Seq<MediaAsset>, kind: TrackKind, clip: Clip) -> Option<
    TimelineError,
> {
    match find_asset(assets, clip.asset()@) {
        None => Some(TimelineError::UnknownAsset(*clip.asset())),
        Some(asset) => {
            let range = clip.range();
            if range.duration().numer() == 0 {
                Some(TimelineError::EmptyClip)
            } else if range.start().numer() < 0 || asset.duration().spec_before(range.end()) {
                Some(TimelineError::ClipOutOfAssetBounds)
            } else if !(match kind {
                TrackKind::Video => asset.video() is Some,
                TrackKind::Audio => asset.audio() is Some,
            }) {
                Some(TimelineError::TrackAssetStreamMismatch)
            } else {
                None
            }
        },
    }
}

/// The first clip error among the first `i` items of a track of `kind`.
pub open spec fn first_clip_error(
    assets: Seq<MediaAsset>,
    kind: TrackKind,
    items: Seq<TrackItem>,
    i: nat,
) -> Option<TimelineError>
    decreases i,
{
    if i == 0 || i > items.len() {
        None
    } else {
        match first_clip_error(assets, kind, items, (i - 1) as nat) {
            Some(e) => Some(e),
            None => match items[i - 1] {
                TrackItem::Clip(clip) => clip_error(assets, kind, clip),
                _ => None,
            },
        }
    }
}

/// Why a track is invalid in a timeline with `assets`, if it is: its own
/// structure first, then its clips in order.
pub open spec fn track_error(assets: Seq<MediaAsset>, track: Track) -> Option<TimelineError> {
    match track.spec_validate() {
        Err(e) => Some(e),
        Ok(_) => first_clip_error(assets, track.kind(), track.item_seq(), track.item_seq().len()),
    }
}

/// The first error among the first `i` tracks.
pub open spec fn first_track_error(assets: Seq<MediaAsset>, tracks: Seq<Track>, i: nat) -> Option<
    TimelineError,
>
    decreases i,
{
    if i == 0 || i > tracks.len() {
        None
    } else {
        match first_track_error(assets, tracks, (i - 1) as nat) {
            Some(e) => Some(e),
            None => track_error(assets, tracks[i - 1]),
        }
    }
}

proof fn lemma_first_asset_prefix(assets: Seq<MediaAsset>, asset: MediaAsset, source: Seq<char>, i: nat)
    requires
        i <= assets.len(),
    ensures
        first_asset_upto(assets.push(asset), source, i) == first_asset_upto(assets, source, i),
    decreases i,
{
    if i > 0 {
        lemma_first_asset_prefix(assets, asset, source, (i - 1) as nat);
        assert(assets.push(asset)[i - 1] == assets[i - 1]);
    }
}

/// `first_asset_upto` finds an asset exactly when one of the first `i`
/// carries the source, and what it finds carries it.
proof fn lemma_first_asset_found(assets: Seq<MediaAsset>, source: Seq<char>, i: nat)
    requires
        i <= assets.len(),
    ensures
        (first_asset_upto(assets, source, i) is Some) == (exists|k: int|
            0 <= k < i && (#[trigger] assets[k]).source()@ == source),
        first_asset_upto(assets, source, i) matches Some(a) ==> a.source()@ == source && exists|
            k: int,
        | 0 <= k < i && assets[k] == a,
    decreases i,
{
    if i > 0 {
        lemma_first_asset_found(assets, source, (i - 1) as nat);
        if first_asset_upto(assets, source, (i - 1) as nat) is None {
            if assets[i - 1].source()@ == source {
                assert(assets[i - 1].source()@ == source);
            }
        }
    }
}

proof fn lemma_error_sticks_clips(
    assets: Seq<MediaAsset>,
    kind: TrackKind,
    items: Seq<TrackItem>,
    i: nat,
    j: nat,
)
    requires
        i <= j <= items.len(),
        first_clip_error(assets, kind, items, i) is Some,
    ensures
        first_clip_error(assets, kind, items, j) == first_clip_error(assets, kind, items, i),
    decreases j - i,
{
    if i < j {
        lemma_error_sticks_clips(assets, kind, items, i, (j - 1) as nat);
    }
}

proof fn lemma_error_sticks_tracks(assets: Seq<MediaAsset>, tracks: Seq<Track>, i: nat, j: nat)
    requires
        i <= j <= tracks.len(),
        first_track_error(assets, tracks, i) is Some,
    ensures
        first_track_error(assets, tracks, j) == first_track_error(assets, tracks, i),
    decreases j - i,
{
    if i < j {
        lemma_error_sticks_tracks(assets, tracks, i, (j - 1) as nat);
    }
}

/// A timeline with a track holding a cross-fade longer than a clip it joins
/// does not validate.
pub proof fn lemma_timeline_long_fade_fails(timeline: Timeline, k: int, i: int)
    requires
        0 <= k < timeline.track_seq().len(),
        1 <= i && i + 1 < timeline.track_seq()[k].item_seq().len(),
        timeline.track_seq()[k].item_seq()[i] matches TrackItem::Transition(fade)
            && timeline.track_seq()[k].item_seq()[i - 1] matches TrackItem::Clip(before)
            && timeline.track_seq()[k].item_seq()[i + 1] matches TrackItem::Clip(after) && (
        before.range().duration().spec_before(fade.duration()) || after.range().duration().spec_before(
            fade.duration(),
        )),
    ensures
        timeline.spec_validate() is Err,
{
    let assets = timeline.asset_seq();
    let tracks = timeline.track_seq();
    crate::track::lemma_long_fade_fails(tracks[k], i);
    if first_track_error(assets, tracks, k as nat) is None {
        assert(first_track_error(assets, tracks, (k + 1) as nat) is Some);
        lemma_error_sticks_tracks(assets, tracks, (k + 1) as nat, tracks.len());
    } else {
        lemma_error_sticks_tracks(assets, tracks, k as nat, tracks.len());
    }
}

/// A multi-track timeline: media assets plus the tracks that place clips of
/// them.
///
/// The timeline owns cross-reference validation: every clip must point at a
/// registered asset and stay within its bounds.
#[derive(Clone, Debug, PartialEq, Eq)]
pub struct Timeline {
    name: String,
    frame_rate: FrameRate,
    assets: Vec<MediaAsset>,
    tracks: Vec<Track>,
}

impl Timeline {
    /// The timeline's name.
    pub closed spec fn name_view(&self) -> Seq<char> {
        self.name@
    }

    /// The timeline's global frame rate.
    pub closed spec fn spec_frame_rate(&self) -> FrameRate {
        self.frame_rate
    }

    /// The registered assets.
    pub closed spec fn asset_seq(&self) -> Seq<MediaAsset> {
        self.assets@
    }

    /// The tracks, in order.
    pub closed spec fn track_seq(&self) -> Seq<Track> {
        self.tracks@
    }

    /// A positive frame rate, well-formed assets and tracks, and no two
    /// assets under one source.
    pub open spec fn wf(&self) -> bool {
        &&& self.frame_rate().wf()
        &&& forall|i: int| 0 <= i < self.asset_seq().len() ==> (#[trigger] self.asset_seq()[i]).wf()
        &&& forall|i: int| 0 <= i < self.track_seq().len() ==> (#[trigger] self.track_seq()[i]).wf()
        &&& unique_sources(self.asset_seq())
    }

    /// The track at `index`, if it exists.
    pub open spec fn spec_track(&self, index: TrackIndex) -> Option<Track> {
        if index.get() < self.track_seq().len() {
            Some(self.track_seq()[index.get() as int])
        } else {
            None
        }
    }

    /// Every track's running total fits in `i64` at each step before
    /// reduction, and no transition or clip is invalid: the timeline passes
    /// [`validate`](Self::validate).
    pub open spec fn steps_sound(&self) -> bool {
        forall|i: int|
            0 <= i < self.track_seq().len() ==> {
                let t = #[trigger] self.track_seq()[i];
                &&& totals_fit_upto(t.item_seq(), t.item_seq().len())
                &&& first_transition_error(t.item_seq(), t.item_seq().len()) is None
                &&& first_clip_error(self.asset_seq(), t.kind(), t.item_seq(), t.item_seq().len())
                    is None
            }
    }

    /// What [`validate`](Self::validate) returns.
    pub open spec fn spec_validate(&self) -> Result<(), TimelineError> {
        match first_track_error(self.asset_seq(), self.track_seq(), self.track_seq().len()) {
            Some(e) => Err(e),
            None => Ok(()),
        }
    }

    /// An empty timeline at the given global frame rate.
    pub fn new(name: &str, frame_rate: FrameRate) -> (t: Timeline)
        requires
            frame_rate.wf(),
        ensures
            t.wf(),
            t.name_view() == name@,
            t.frame_rate() == frame_rate,
            t.asset_seq() == Seq::<MediaAsset>::empty(),
            t.track_seq() == Seq::<Track>::empty(),
    {
        Timeline {
            name: String::from_str(name),
            frame_rate,
            assets: Vec::new(),
            tracks: Vec::new(),
        }
    }

    /// The timeline's name.
    pub fn name(&self) -> (n: &str)
        ensures
            n@ == self.name_view(),
    {
        self.name.as_str()
    }

    /// The timeline's global frame rate.
    #[verifier::when_used_as_spec(spec_frame_rate)]
    pub fn frame_rate(&self) -> (f: FrameRate)
        ensures
            f == self.spec_frame_rate(),
    {
        self.frame_rate
    }

    /// The registered assets.
    pub fn assets(&self) -> (a: &[MediaAsset])
        ensures
            a@ == self.asset_seq(),
    {
        self.assets.as_slice()
    }

    /// The tracks, in order.
    pub fn tracks(&self) -> (t: &[Track])
        ensures
            t@ == self.track_seq(),
    {
        self.tracks.as_slice()
    }

    /// Look up a registered asset by its source.
    pub fn asset(&self, source: &MediaSource) -> (r: Option<&MediaAsset>)
        ensures
            match find_asset(self.asset_seq(), source@) {
                Some(a) => r matches Some(found) && *found == a,
                None => r is None,
            },
    {
        let n = self.assets.len();
        let mut i: usize = 0;
        while i < n
            invariant
                n == self.asset_seq().len(),
                i <= n,
                first_asset_upto(self.asset_seq(), source@, i as nat) is None,
            decreases n - i,
        {
            if self.assets[i].source().same(source) {
                proof {
                    lemma_first_asset_some_sticks(self.asset_seq(), source@, (i + 1) as nat, n as nat);
                }
                return Some(&self.assets[i]);
            }
            i = i + 1;
        }
        None
    }

    /// Register a media asset. Errors on a source that is already registered.
    pub fn add_asset(&mut self, asset: MediaAsset) -> (r: Result<(), TimelineError>)
        requires
            old(self).wf(),
            asset.wf(),
        ensures
            final(self).wf(),
            final(self).name_view() == old(self).name_view(),
            final(self).frame_rate() == old(self).frame_rate(),
            final(self).track_seq() == old(self).track_seq(),
            find_asset(old(self).asset_seq(), asset.source()@) is Some ==> (r == Err::<
                (),
                TimelineError,
            >(TimelineError::DuplicateAsset(*asset.source()))
                && final(self).asset_seq() == old(self).asset_seq()),
            find_asset(old(self).asset_seq(), asset.source()@) is None ==> (r == Ok::<
                (),
                TimelineError,
            >(()) && final(self).asset_seq() == old(self).asset_seq().push(asset)),
    {
        if self.asset(asset.source()).is_some() {
            return Err(TimelineError::DuplicateAsset(asset.source().duplicate()));
        }
        proof {
            lemma_first_asset_found(self.asset_seq(), asset.source()@, self.asset_seq().len());
        }
        let ghost before = self.asset_seq();
        self.assets.push(asset);
        proof {
            let after = self.asset_seq();
            assert(after == before.push(asset));
            assert forall|i: int| 0 <= i < after.len() implies (#[trigger] after[i]).wf() by {
                if i < before.len() {
                    assert(after[i] == before[i]);
                }
            }
            assert forall|i: int, j: int| 0 <= i < j < after.len() implies (
            #[trigger] after[i]).source()@ != (#[trigger] after[j]).source()@ by {
                assert(after[i] == before[i]);
                if j < before.len() {
                    assert(after[j] == before[j]);
                } else {
                    assert(after[j] == asset);
                    assert(before[i].source()@ != asset.source()@);
                }
            }
            assert(unique_sources(after));
            assert(self.frame_rate().wf());
            assert(self.track_seq() == old(self).track_seq());
            assert forall|i: int| 0 <= i < self.track_seq().len() implies (
            #[trigger] self.track_seq()[i]).wf() by {
                assert(old(self).track_seq()[i].wf());
            }
        }
        Ok(())
    }

    /// Append a track and return its index.
    pub fn add_track(&mut self, track: Track) -> (index: TrackIndex)
        requires
            old(self).wf(),
            track.wf(),
        ensures
            final(self).wf(),
            final(self).name_view() == old(self).name_view(),
            final(self).frame_rate() == old(self).frame_rate(),
            final(self).asset_seq() == old(self).asset_seq(),
            final(self).track_seq() == old(self).track_seq().push(track),
            index.get() == old(self).track_seq().len(),
    {
        let index = TrackIndex(self.tracks.len());
        let ghost before = self.track_seq();
        self.tracks.push(track);
        proof {
            let after = self.track_seq();
            assert forall|i: int| 0 <= i < after.len() implies (#[trigger] after[i]).wf() by {
                if i < before.len() {
                    assert(after[i] == before[i]);
                }
            }
        }
        index
    }

    /// The track at `index`, if it exists.
    pub fn track(&self, index: TrackIndex) -> (r: Option<&Track>)
        ensures
            match self.spec_track(index) {
                Some(t) => r matches Some(found) && *found == t,
                None => r is None,
            },
    {
        if index.0 < self.tracks.len() {
            Some(&self.tracks[index.0])
        } else {
            None
        }
    }

    /// Check the clips of one track against the registered assets.
    fn validate_clips(&self, track: &Track) -> (r: Result<(), TimelineError>)
        requires
            self.wf(),
            track.wf(),
        ensures
            match first_clip_error(
                self.asset_seq(),
                track.kind(),
                track.item_seq(),
                track.item_seq().len(),
            ) {
                Some(e) => r == Err::<(), TimelineError>(e),
                None => r == Ok::<(), TimelineError>(()),
            },
    {
        let items = track.items();
        let n = items.len();
        let mut i: usize = 0;
        while i < n
            invariant
                items@ == track.item_seq(),
                n == items@.len(),
                i <= n,
                self.wf(),
                track.wf(),
                first_clip_error(self.asset_seq(), track.kind(), items@, i as nat) is None,
            decreases n - i,
        {
            if let TrackItem::Clip(clip) = &items[i] {
                assert(items@[i as int].wf());
                let checked = self.validate_clip(track.kind(), clip);
                if let Err(e) = checked {
                    proof {
                        lemma_error_sticks_clips(
                            self.asset_seq(),
                            track.kind(),
                            items@,
                            (i + 1) as nat,
                            n as nat,
                        );
                    }
                    return Err(e);
                }
            }
            i = i + 1;
        }
        Ok(())
    }

    /// Check one clip on a track of `kind` against the registered assets.
    fn validate_clip(&self, kind: TrackKind, clip: &Clip) -> (r: Result<(), TimelineError>)
        requires
            self.wf(),
            clip.wf(),
        ensures
            match clip_error(self.asset_seq(), kind, *clip) {
                Some(e) => r == Err::<(), TimelineError>(e),
                None => r == Ok::<(), TimelineError>(()),
            },
    {
        let asset = match self.asset(clip.asset()) {
            Some(a) => a,
            None => {
                return Err(TimelineError::UnknownAsset(clip.asset().duplicate()));
            },
        };
        let range = clip.range();
        if range.duration().is_zero() {
            return Err(TimelineError::EmptyClip);
        }
        if range.start().is_negative() || asset.duration().before(range.end()) {
            return Err(TimelineError::ClipOutOfAssetBounds);
        }
        let has_required_stream = match kind {
            TrackKind::Video => asset.video().is_some(),
            TrackKind::Audio => asset.audio().is_some(),
        };
        if !has_required_stream {
            return Err(TimelineError::TrackAssetStreamMismatch);
        }
        Ok(())
    }

    /// Validate the whole timeline: each track is structurally sound, every
    /// clip references a registered asset, no clip's source range leaves its
    /// asset, and each clip's track kind matches a stream its asset carries.
    /// The first failure, in track and item order, is returned.
    pub fn validate(&self) -> (r: Result<(), TimelineError>)
        requires
            self.wf(),
        ensures
            r == self.spec_validate(),
            self.steps_sound() ==> r is Ok,
    {
        let n = self.tracks.len();
        let mut i: usize = 0;
        while i < n
            invariant
                n == self.track_seq().len(),
                i <= n,
                self.wf(),
                first_track_error(self.asset_seq(), self.track_seq(), i as nat) is None,
            decreases n - i,
        {
            let track = &self.tracks[i];
            assert(self.track_seq()[i as int].wf());
            let structure = track.validate();
            let outcome = match structure {
                Err(e) => Err(e),
                Ok(()) => self.validate_clips(track),
            };
            if let Err(e) = outcome {
                proof {
                    if self.steps_sound() {
                        assert(self.track_seq()[i as int] == *track);
                    }
                    lemma_error_sticks_tracks(
                        self.asset_seq(),
                        self.track_seq(),
                        (i + 1) as nat,
                        n as nat,
                    );
                }
                return Err(e);
            }
            i = i + 1;
        }
        Ok(())
    }
}

proof fn lemma_first_asset_some_sticks(assets: Seq<MediaAsset>, source: Seq<char>, i: nat, j: nat)
    requires
        i <= j <= assets.len(),
        first_asset_upto(assets, source, i) is Some,
    ensures
        first_asset_upto(assets, source, j) == first_asset_upto(assets, source, i),
    decreases j - i,
{
    if i < j {
        lemma_first_asset_some_sticks(assets, source, i, (j - 1) as nat);
    }
}

/// Registering an asset under a fresh source makes it the one a lookup of
/// that source finds; lookups of other sources are unchanged.
pub proof fn lemma_lookup_after_add(assets: Seq<MediaAsset>, asset: MediaAsset, source: Seq<char>)
    requires
        find_asset(assets, asset.source()@) is None,
    ensures
        find_asset(assets.push(asset), asset.source()@) == Some(asset),
        source != asset.source()@ ==> find_asset(assets.push(asset), source) == find_asset(
            assets,
            source,
        ),
{
    lemma_first_asset_prefix(assets, asset, asset.source()@, assets.len());
    lemma_first_asset_prefix(assets, asset, source, assets.len());
}

/// The index [`Timeline::add_track`] returns resolves, through
/// [`Timeline::track`], to the track just added.
pub proof fn lemma_track_after_add(before: Timeline, after: Timeline, track: Track, index: TrackIndex)
    requires
        after.track_seq() == before.track_seq().push(track),
        index.get() == before.track_seq().len(),
    ensures
        after.spec_track(index) == Some(track),
{
}

/// Validation never accepts a timeline in which some clip's source range
/// starts before, or runs past the end of, the registered asset it
/// references: whatever else holds of the timeline, it reports an error.
pub proof fn lemma_clip_outside_its_asset_never_validates(t: Timeline, k: int, j: int)
    requires
        0 <= k < t.track_seq().len(),
        0 <= j < t.track_seq()[k].item_seq().len(),
        t.track_seq()[k].item_seq()[j] matches TrackItem::Clip(clip) && find_asset(
            t.asset_seq(),
            clip.asset()@,
        ) matches Some(a) && (clip.range().start().numer() < 0 || a.duration().spec_before(
            clip.range().end(),
        )),
    ensures
        t.spec_validate() is Err,
{
    let assets = t.asset_seq();
    let tracks = t.track_seq();
    let track = tracks[k];
    let items = track.item_seq();
    assert(first_clip_error(assets, track.kind(), items, (j + 1) as nat) is Some);
    lemma_error_sticks_clips(assets, track.kind(), items, (j + 1) as nat, items.len());
    assert(track_error(assets, track) is Some);
    assert(first_track_error(assets, tracks, (k + 1) as nat) is Some);
    lemma_error_sticks_tracks(assets, tracks, (k + 1) as nat, tracks.len());
}

} // verus!
