//! Media assets: the source files a timeline's clips reference.
use vstd::prelude::*;

use crate::error::TimelineError;
use crate::time::{FrameRate, SampleRate, Seconds};

verus! {

/// A path segment that survives normalization: non-empty and not `.`.
pub open spec fn kept_segment(segment: Seq<char>) -> bool {
    segment.len() > 0 && segment != seq!['.']
}

/// Reading the first `i` characters of `path`: the kept segments finished so
/// far, and the segment still being read.
pub open spec fn scan_segments(path: Seq<char>, i: nat) -> (Seq<Seq<char>>, Seq<char>)
    decreases i,
{
    if i == 0 || i > path.len() {
        (Seq::empty(), Seq::empty())
    } else {
        let (done, current) = scan_segments(path, (i - 1) as nat);
        let c = path[i - 1];
        if c == '/' {
            (if kept_segment(current) {
                done.push(current)
            } else {
                done
            }, Seq::empty())
        } else {
            (done, current.push(c))
        }
    }
}

/// The `/`-separated components of `path`, with empty and `.` components
/// dropped (`..` is kept).
pub open spec fn components(path: Seq<char>) -> Seq<Seq<char>> {
    let (done, current) = scan_segments(path, path.len());
    if kept_segment(current) {
        done.push(current)
    } else {
        done
    }
}

/// The segments joined with `/`.
pub open spec fn join_segments(segments: Seq<Seq<char>>) -> Seq<char>
    decreases segments.len(),
{
    if segments.len() == 0 {
        Seq::empty()
    } else if segments.len() == 1 {
        segments[0]
    } else {
        join_segments(segments.drop_last()) + seq!['/'] + segments.last()
    }
}

/// `path` with redundant `.` and separator components dropped: a leading `/`
/// kept, the remaining components joined with `/`, and `.` for a path left
/// empty.
pub open spec fn normalized_path(path: Seq<char>) -> Seq<char> {
    let root = if path.len() > 0 && path[0] == '/' {
        seq!['/']
    } else {
        Seq::empty()
    };
    let body = root + join_segments(components(path));
    if body.len() == 0 {
        seq!['.']
    } else {
        body
    }
}

/// The leaf of `path`: its last component, unless there is none or it is `..`.
pub open spec fn leaf_name(path: Seq<char>) -> Option<Seq<char>> {
    let parts = components(path);
    if parts.len() > 0 && parts.last() != seq!['.', '.'] {
        Some(parts.last())
    } else {
        None
    }
}

/// Whether `segment` is kept by normalization.
fn is_kept_segment(segment: &str) -> (b: bool)
    ensures
        b == kept_segment(segment@),
{
    let n = segment.unicode_len();
    if n == 0 {
        return false;
    }
    if n == 1 && segment.get_char(0) == '.' {
        assert(segment@ =~= seq!['.']);
        return false;
    }
    assert(segment@ != seq!['.']) by {
        if n == 1 {
            assert(segment@[0] != '.');
        }
    }
    true
}

/// Appending a segment to joined segments joins one more segment.
proof fn lemma_join_push(done: Seq<Seq<char>>, segment: Seq<char>)
    ensures
        join_segments(done.push(segment)) == (if done.len() == 0 {
            segment
        } else {
            join_segments(done) + seq!['/'] + segment
        }),
{
    assert(done.push(segment).drop_last() =~= done);
}

/// One step of reading a path: `c` ends the current segment at a `/` (kept
/// if it survives normalization) or extends it.
spec fn scan_step(state: (Seq<Seq<char>>, Seq<char>), c: char) -> (Seq<Seq<char>>, Seq<char>) {
    if c == '/' {
        (if kept_segment(state.1) {
            state.0.push(state.1)
        } else {
            state.0
        }, Seq::empty())
    } else {
        (state.0, state.1.push(c))
    }
}

/// Reading all of `s` from `state`.
spec fn scan_from(state: (Seq<Seq<char>>, Seq<char>), s: Seq<char>) -> (Seq<Seq<char>>, Seq<char>)
    decreases s.len(),
{
    if s.len() == 0 {
        state
    } else {
        scan_step(scan_from(state, s.drop_last()), s.last())
    }
}

proof fn lemma_scan_prefix(path: Seq<char>, i: nat)
    requires
        i <= path.len(),
    ensures
        scan_segments(path, i) == scan_from((Seq::empty(), Seq::empty()), path.take(i as int)),
    decreases i,
{
    if i > 0 {
        lemma_scan_prefix(path, (i - 1) as nat);
        assert(path.take(i as int).drop_last() =~= path.take(i - 1));
    }
}

proof fn lemma_scan_append(state: (Seq<Seq<char>>, Seq<char>), x: Seq<char>, y: Seq<char>)
    ensures
        scan_from(state, x + y) == scan_from(scan_from(state, x), y),
    decreases y.len(),
{
    if y.len() == 0 {
        assert(x + y =~= x);
    } else {
        lemma_scan_append(state, x, y.drop_last());
        assert((x + y).drop_last() =~= x + y.drop_last());
        assert((x + y).last() == y.last());
    }
}

/// A segment with no `/` only extends the current segment.
proof fn lemma_scan_segment(state: (Seq<Seq<char>>, Seq<char>), segment: Seq<char>)
    requires
        !segment.contains('/'),
    ensures
        scan_from(state, segment) == (state.0, state.1 + segment),
    decreases segment.len(),
{
    if segment.len() == 0 {
        assert(state.1 + segment =~= state.1);
    } else {
        assert(!segment.drop_last().contains('/')) by {
            if segment.drop_last().contains('/') {
                let k = choose|k: int| 0 <= k < segment.drop_last().len() && segment.drop_last()[k] == '/';
                assert(segment[k] == '/');
            }
        }
        lemma_scan_segment(state, segment.drop_last());
        assert(segment.last() != '/') by {
            assert(segment[segment.len() - 1] == segment.last());
        }
        assert(state.1 + segment.drop_last() + seq![segment.last()] =~= state.1 + segment);
        assert((state.1 + segment.drop_last()).push(segment.last()) =~= state.1 + segment);
    }
}

/// A normalized component: kept, and free of `/`.
spec fn clean_segment(segment: Seq<char>) -> bool {
    kept_segment(segment) && !segment.contains('/')
}

/// Reading the joined clean `segments` ends with all but the last finished
/// and the last still being read.
proof fn lemma_scan_join(segments: Seq<Seq<char>>)
    requires
        segments.len() > 0,
        forall|k: int| 0 <= k < segments.len() ==> clean_segment(#[trigger] segments[k]),
    ensures
        scan_from((Seq::empty(), Seq::empty()), join_segments(segments)) == (
            segments.drop_last(),
            segments.last(),
        ),
    decreases segments.len(),
{
    let start = (Seq::<Seq<char>>::empty(), Seq::<char>::empty());
    if segments.len() == 1 {
        assert(join_segments(segments) == segments[0]);
        assert(segments.last() == segments[0]);
        lemma_scan_segment(start, segments[0]);
        assert(Seq::<char>::empty() + segments[0] =~= segments[0]);
        assert(segments.drop_last() =~= Seq::<Seq<char>>::empty());
    } else {
        let init = segments.drop_last();
        assert forall|k: int| 0 <= k < init.len() implies clean_segment(#[trigger] init[k]) by {
            assert(init[k] == segments[k]);
        }
        lemma_scan_join(init);
        let joined = join_segments(init);
        lemma_scan_append(start, joined + seq!['/'], segments.last());
        lemma_scan_append(start, joined, seq!['/']);
        assert(seq!['/'].drop_last() =~= Seq::<char>::empty());
        let mid = scan_from(start, joined);
        assert(scan_from(mid, seq!['/']) == scan_step(scan_from(mid, Seq::<char>::empty()), '/'));
        assert(scan_from(mid, Seq::<char>::empty()) == mid);
        assert(join_segments(segments) == joined + seq!['/'] + segments.last());
        assert(clean_segment(init.last())) by {
            assert(init.last() == init[init.len() - 1]);
        }
        assert(init.drop_last().push(init.last()) =~= init);
        assert(clean_segment(segments.last())) by {
            assert(segments.last() == segments[segments.len() - 1]);
        }
        lemma_scan_segment((init, Seq::empty()), segments.last());
        assert(Seq::<char>::empty() + segments.last() =~= segments.last());
    }
}

/// The components of joined clean segments are those segments.
proof fn lemma_components_of_join(segments: Seq<Seq<char>>)
    requires
        forall|k: int| 0 <= k < segments.len() ==> clean_segment(#[trigger] segments[k]),
    ensures
        components(join_segments(segments)) == segments,
{
    let joined = join_segments(segments);
    lemma_scan_prefix(joined, joined.len());
    assert(joined.take(joined.len() as int) =~= joined);
    if segments.len() == 0 {
        assert(joined =~= Seq::<char>::empty());
    } else {
        lemma_scan_join(segments);
        assert(clean_segment(segments.last())) by {
            assert(segments.last() == segments[segments.len() - 1]);
        }
        assert(segments.drop_last().push(segments.last()) =~= segments);
    }
}

/// What reading a path gives is clean: every finished segment, and the
/// segment still being read holds no `/`.
proof fn lemma_scan_is_clean(path: Seq<char>, i: nat)
    requires
        i <= path.len(),
    ensures
        forall|k: int|
            0 <= k < scan_segments(path, i).0.len() ==> clean_segment(
                #[trigger] scan_segments(path, i).0[k],
            ),
        !scan_segments(path, i).1.contains('/'),
    decreases i,
{
    if i > 0 {
        lemma_scan_is_clean(path, (i - 1) as nat);
        let (done, current) = scan_segments(path, (i - 1) as nat);
        let c = path[i - 1];
        if c != '/' {
            assert(!current.push(c).contains('/')) by {
                if current.push(c).contains('/') {
                    let k = choose|k: int| 0 <= k < current.push(c).len() && current.push(c)[k] == '/';
                    if k < current.len() {
                        assert(current[k] == '/');
                    }
                }
            }
        } else {
            assert(!Seq::<char>::empty().contains('/'));
            if kept_segment(current) {
                assert forall|k: int| 0 <= k < done.push(current).len() implies clean_segment(
                    #[trigger] done.push(current)[k],
                ) by {
                    if k < done.len() {
                        assert(done.push(current)[k] == done[k]);
                    }
                }
            }
        }
    }
}

/// The components of a path are clean.
proof fn lemma_components_are_clean(path: Seq<char>)
    ensures
        forall|k: int|
            0 <= k < components(path).len() ==> clean_segment(#[trigger] components(path)[k]),
{
    lemma_scan_is_clean(path, path.len());
    let (done, current) = scan_segments(path, path.len());
    if kept_segment(current) {
        assert forall|k: int| 0 <= k < done.push(current).len() implies clean_segment(
            #[trigger] done.push(current)[k],
        ) by {
            if k < done.len() {
                assert(done.push(current)[k] == done[k]);
            }
        }
    }
}

/// Joined clean segments start with the first segment's first character.
proof fn lemma_join_first(segments: Seq<Seq<char>>)
    requires
        segments.len() > 0,
        forall|k: int| 0 <= k < segments.len() ==> clean_segment(#[trigger] segments[k]),
    ensures
        join_segments(segments).len() > 0,
        join_segments(segments)[0] == segments[0][0],
    decreases segments.len(),
{
    assert(clean_segment(segments[0]));
    if segments.len() > 1 {
        let init = segments.drop_last();
        assert forall|k: int| 0 <= k < init.len() implies clean_segment(#[trigger] init[k]) by {
            assert(init[k] == segments[k]);
        }
        lemma_join_first(init);
    }
}

/// Normalization keeps a path's components and is idempotent: normalizing
/// a normalized path changes nothing, so a source read back from its path
/// is the same source.
pub proof fn lemma_normalization_is_idempotent(path: Seq<char>)
    ensures
        components(normalized_path(path)) == components(path),
        normalized_path(normalized_path(path)) == normalized_path(path),
{
    let segments = components(path);
    lemma_components_are_clean(path);
    lemma_components_of_join(segments);
    let joined = join_segments(segments);
    let rooted = path.len() > 0 && path[0] == '/';
    let normal = normalized_path(path);
    let start = (Seq::<Seq<char>>::empty(), Seq::<char>::empty());
    if rooted {
        let body = seq!['/'] + joined;
        assert(normal == body);
        lemma_scan_prefix(body, body.len());
        lemma_scan_prefix(joined, joined.len());
        assert(body.take(body.len() as int) =~= body);
        assert(joined.take(joined.len() as int) =~= joined);
        lemma_scan_append(start, seq!['/'], joined);
        assert(seq!['/'].drop_last() =~= Seq::<char>::empty());
        assert(scan_from(start, seq!['/']) == scan_step(scan_from(start, Seq::<char>::empty()), '/'));
        assert(scan_from(start, Seq::<char>::empty()) == start);
        assert(scan_from(start, seq!['/']) == start);
        assert(components(body) == components(joined));
        assert(body[0] == '/');
    } else if segments.len() > 0 {
        lemma_join_first(segments);
        assert(Seq::<char>::empty() + joined =~= joined);
        assert(normal == joined);
        assert(segments[0].len() > 0 && !segments[0].contains('/'));
        assert(segments[0][0] != '/') by {
            if segments[0][0] == '/' {
                assert(segments[0].contains('/'));
            }
        }
    } else {
        assert(joined =~= Seq::<char>::empty());
        assert(Seq::<char>::empty() + joined =~= Seq::<char>::empty());
        assert(normal == seq!['.']);
        reveal_with_fuel(scan_segments, 2);
        assert(components(seq!['.']) =~= Seq::<Seq<char>>::empty());
        assert(seq!['.'][0] != '/');
    }
}

/// Drop redundant `.` and separator components from a path without touching
/// the filesystem, so distinct spellings of one location (`a.mov`,
/// `./a.mov`, `a//b`) compare equal. `..` is kept as written.
pub fn lexically_normalize(path: &str) -> (r: String)
    ensures
        r@ == normalized_path(path@),
{
    let n = path.unicode_len();
    let mut joined = String::new();
    let mut any = false;
    let mut start: usize = 0;
    let mut i: usize = 0;
    proof {
        reveal_strlit("/");
    }
    while i < n
        invariant
            n == path@.len(),
            start <= i <= n,
            scan_segments(path@, i as nat).1 == path@.subrange(start as int, i as int),
            joined@ == join_segments(scan_segments(path@, i as nat).0),
            any == (scan_segments(path@, i as nat).0.len() > 0),
            "/"@ == seq!['/'],
        decreases n - i,
    {
        let c = path.get_char(i);
        proof {
            assert(path@.subrange(start as int, i + 1) =~= path@.subrange(start as int, i as int).push(
                c,
            ));
        }
        if c == '/' {
            let segment = path.substring_char(start, i);
            if is_kept_segment(segment) {
                proof {
                    lemma_join_push(scan_segments(path@, i as nat).0, segment@);
                }
                if any {
                    joined.append("/");
                }
                joined.append(segment);
                any = true;
            }
            start = i + 1;
            assert(path@.subrange(start as int, i + 1) =~= Seq::<char>::empty());
        }
        i = i + 1;
    }
    let last = path.substring_char(start, n);
    if is_kept_segment(last) {
        proof {
            lemma_join_push(scan_segments(path@, n as nat).0, last@);
        }
        if any {
            joined.append("/");
        }
        joined.append(last);
    }
    assert(joined@ == join_segments(components(path@)));
    let rooted = n > 0 && path.get_char(0) == '/';
    let mut body = if rooted {
        String::from_str("/")
    } else {
        String::new()
    };
    body.append(joined.as_str());
    assert(body@ =~= (if path@.len() > 0 && path@[0] == '/' {
        seq!['/']
    } else {
        Seq::empty()
    }) + join_segments(components(path@)));
    if body.unicode_len() == 0 {
        proof {
            reveal_strlit(".");
        }
        String::from_str(".")
    } else {
        body
    }
}

/// Where a media asset's bytes come from, and so its identity within a
/// timeline.
///
/// File paths are lexically normalized at construction, so `a.mov` and
/// `./a.mov` denote the same asset.
#[derive(Clone, Debug, PartialEq, Eq, Hash, PartialOrd, Ord)]
pub enum MediaSource {
    /// A local file on disk, by its path.
    File(String),
}

impl View for MediaSource {
    type V = Seq<char>;

    open spec fn view(&self) -> Seq<char> {
        match self {
            MediaSource::File(path) => path@,
        }
    }
}

impl MediaSource {
    /// A source backed by a local file. The path is lexically normalized so
    /// distinct spellings of the same location share one identity.
    pub fn file(path: &str) -> (s: MediaSource)
        ensures
            s@ == normalized_path(path@),
    {
        MediaSource::File(lexically_normalize(path))
    }

    /// The path, as it is written on the wire.
    pub fn path(&self) -> (p: &str)
        ensures
            p@ == self@,
    {
        match self {
            MediaSource::File(path) => path.as_str(),
        }
    }

    /// A copy of this source.
    pub fn duplicate(&self) -> (s: MediaSource)
        ensures
            s == *self,
    {
        match self {
            MediaSource::File(path) => MediaSource::File(path.clone()),
        }
    }

    /// Whether `other` is the same source.
    pub fn same(&self, other: &MediaSource) -> (b: bool)
        ensures
            b == (self@ == other@),
    {
        match (self, other) {
            (MediaSource::File(a), MediaSource::File(b)) => *a == *b,
        }
    }

    /// The leaf file name, if the path has one: its last component, unless
    /// the path has no component or ends in `..`.
    pub fn file_name(&self) -> (r: Option<&str>)
        ensures
            match leaf_name(self@) {
                Some(leaf) => r matches Some(name) && name@ == leaf,
                None => r is None,
            },
    {
        let path = self.path();
        let n = path.unicode_len();
        let mut any = false;
        let mut leaf_start: usize = 0;
        let mut leaf_end: usize = 0;
        let mut start: usize = 0;
        let mut i: usize = 0;
        while i < n
            invariant
                n == path@.len(),
                start <= i <= n,
                leaf_start <= leaf_end <= n,
                scan_segments(path@, i as nat).1 == path@.subrange(start as int, i as int),
                any == (scan_segments(path@, i as nat).0.len() > 0),
                any ==> scan_segments(path@, i as nat).0.last() == path@.subrange(
                    leaf_start as int,
                    leaf_end as int,
                ),
            decreases n - i,
        {
            let c = path.get_char(i);
            proof {
                assert(path@.subrange(start as int, i + 1) =~= path@.subrange(
                    start as int,
                    i as int,
                ).push(c));
            }
            if c == '/' {
                let segment = path.substring_char(start, i);
                if is_kept_segment(segment) {
                    any = true;
                    leaf_start = start;
                    leaf_end = i;
                }
                start = i + 1;
                assert(path@.subrange(start as int, i + 1) =~= Seq::<char>::empty());
            }
            i = i + 1;
        }
        let last = path.substring_char(start, n);
        if is_kept_segment(last) {
            any = true;
            leaf_start = start;
            leaf_end = n;
        }
        if !any {
            return None;
        }
        let leaf = path.substring_char(leaf_start, leaf_end);
        if leaf.unicode_len() == 2 && leaf.get_char(0) == '.' && leaf.get_char(1) == '.' {
            assert(leaf@ =~= seq!['.', '.']);
            None
        } else {
            assert(leaf@ != seq!['.', '.']) by {
                if leaf@.len() == 2 {
                    assert(leaf@[0] != '.' || leaf@[1] != '.');
                }
            }
            Some(leaf)
        }
    }
}

/// How many audio channels a source carries.
#[derive(Clone, Copy, Debug, PartialEq, Eq, Structural)]
pub enum ChannelLayout {
    /// One channel.
    Mono,
    /// Two channels.
    Stereo,
    /// An explicit, non-zero channel count for layouts beyond mono/stereo.
    Channels(u16),
}

/// The layout [`ChannelLayout::channels`] gives for a non-zero count.
pub open spec fn layout_for(count: u16) -> ChannelLayout {
    if count == 1 {
        ChannelLayout::Mono
    } else if count == 2 {
        ChannelLayout::Stereo
    } else {
        ChannelLayout::Channels(count)
    }
}

impl ChannelLayout {
    /// An explicit count is never zero.
    pub open spec fn wf(self) -> bool {
        match self {
            ChannelLayout::Channels(n) => n > 0,
            _ => true,
        }
    }

    /// The number of channels the layout carries.
    pub open spec fn spec_count(self) -> u16 {
        match self {
            ChannelLayout::Mono => 1,
            ChannelLayout::Stereo => 2,
            ChannelLayout::Channels(n) => n,
        }
    }

    /// A layout from a channel count. Errors on zero; one and two become
    /// [`Mono`](Self::Mono) and [`Stereo`](Self::Stereo), so each layout has a
    /// single representation.
    pub fn channels(count: u16) -> (r: Result<ChannelLayout, TimelineError>)
        ensures
            count == 0 ==> r == Err::<ChannelLayout, TimelineError>(
                TimelineError::ZeroChannelCount,
            ),
            count > 0 ==> r == Ok::<ChannelLayout, TimelineError>(layout_for(count)),
            r matches Ok(layout) ==> layout.wf(),
    {
        if count == 0 {
            Err(TimelineError::ZeroChannelCount)
        } else if count == 1 {
            Ok(ChannelLayout::Mono)
        } else if count == 2 {
            Ok(ChannelLayout::Stereo)
        } else {
            Ok(ChannelLayout::Channels(count))
        }
    }

    /// The number of channels this layout carries; never zero.
    pub fn count(self) -> (n: u16)
        requires
            self.wf(),
        ensures
            n == self.spec_count(),
            n > 0,
    {
        match self {
            ChannelLayout::Mono => 1,
            ChannelLayout::Stereo => 2,
            ChannelLayout::Channels(n) => n,
        }
    }
}

/// A channel count survives the trip through a layout: the layout built from
/// a non-zero count carries exactly that many channels, and one and two
/// channels always read back as mono and stereo.
pub proof fn lemma_channel_count_round_trip(count: u16)
    requires
        count > 0,
    ensures
        layout_for(count).wf(),
        layout_for(count).spec_count() == count,
        count == 1 <==> layout_for(count) == ChannelLayout::Mono,
        count == 2 <==> layout_for(count) == ChannelLayout::Stereo,
{
}

/// Video properties of a media asset.
#[derive(Clone, Copy, Debug, PartialEq, Eq, Structural)]
pub struct VideoProperties {
    /// Frames per second.
    pub frame_rate: FrameRate,
    /// Frame width in pixels.
    pub width: u32,
    /// Frame height in pixels.
    pub height: u32,
}

/// Audio properties of a media asset.
#[derive(Clone, Copy, Debug, PartialEq, Eq, Structural)]
pub struct AudioProperties {
    /// Samples per second.
    pub sample_rate: SampleRate,
    /// Channel layout.
    pub channels: ChannelLayout,
}

impl VideoProperties {
    /// The frame rate is a positive rational.
    pub open spec fn wf(self) -> bool {
        self.frame_rate.wf()
    }
}

impl AudioProperties {
    /// The sample rate and channel count are non-zero.
    pub open spec fn wf(self) -> bool {
        self.sample_rate.wf() && self.channels.wf()
    }
}

/// A source media file a timeline can place clips from, identified by its
/// [`MediaSource`].
#[derive(Clone, Debug, PartialEq, Eq)]
pub struct MediaAsset {
    source: MediaSource,
    duration: Seconds,
    video: Option<VideoProperties>,
    audio: Option<AudioProperties>,
}

impl MediaAsset {
    /// This asset's source: its identity.
    pub closed spec fn spec_source(&self) -> &MediaSource {
        &self.source
    }

    /// This asset's total duration.
    pub closed spec fn spec_duration(&self) -> Seconds {
        self.duration
    }

    /// Video properties, if the asset has a video stream.
    pub closed spec fn spec_video(&self) -> Option<VideoProperties> {
        self.video
    }

    /// Audio properties, if the asset has an audio stream.
    pub closed spec fn spec_audio(&self) -> Option<AudioProperties> {
        self.audio
    }

    /// A positive exact duration and at least one stream, each well formed.
    pub open spec fn wf(&self) -> bool {
        &&& self.duration().wf()
        &&& self.duration().numer() > 0
        &&& (self.video() is Some || self.audio() is Some)
        &&& (self.video() matches Some(v) ==> v.wf())
        &&& (self.audio() matches Some(a) ==> a.wf())
    }

    /// A media asset with the given probed properties. Errors on a zero or
    /// negative duration, and on an asset that carries neither a video nor an
    /// audio stream.
    pub fn new(
        source: MediaSource,
        duration: Seconds,
        video: Option<VideoProperties>,
        audio: Option<AudioProperties>,
    ) -> (r: Result<MediaAsset, TimelineError>)
        requires
            duration.wf(),
            video matches Some(v) ==> v.wf(),
            audio matches Some(a) ==> a.wf(),
        ensures
            duration.numer() <= 0 ==> r == Err::<MediaAsset, TimelineError>(
                TimelineError::NonPositiveDuration,
            ),
            duration.numer() > 0 && video is None && audio is None ==> r == Err::<
                MediaAsset,
                TimelineError,
            >(TimelineError::AssetWithoutStreams),
            duration.numer() > 0 && (video is Some || audio is Some) ==> (r matches Ok(a) && a.wf()
                && a.source() == source && a.duration() == duration && a.video() == video
                && a.audio() == audio),
    {
        if duration.is_negative() || duration.is_zero() {
            return Err(TimelineError::NonPositiveDuration);
        }
        if video.is_none() && audio.is_none() {
            return Err(TimelineError::AssetWithoutStreams);
        }
        Ok(MediaAsset { source, duration, video, audio })
    }

    /// This asset's source: its identity.
    #[verifier::when_used_as_spec(spec_source)]
    pub fn source(&self) -> (s: &MediaSource)
        ensures
            *s == self.spec_source(),
    {
        &self.source
    }

    /// This asset's total duration.
    #[verifier::when_used_as_spec(spec_duration)]
    pub fn duration(&self) -> (d: Seconds)
        ensures
            d == self.spec_duration(),
    {
        self.duration
    }

    /// Video properties, if the asset has a video stream.
    #[verifier::when_used_as_spec(spec_video)]
    pub fn video(&self) -> (v: Option<VideoProperties>)
        ensures
            v == self.spec_video(),
    {
        self.video
    }

    /// Audio properties, if the asset has an audio stream.
    #[verifier::when_used_as_spec(spec_audio)]
    pub fn audio(&self) -> (a: Option<AudioProperties>)
        ensures
            a == self.spec_audio(),
    {
        self.audio
    }
}

} // verus!
