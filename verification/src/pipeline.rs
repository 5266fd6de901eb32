//! Pipeline orchestration: the stage vocabulary, how a run's progress moves
//! from stage to stage, and the in-memory flow detect -> sync -> assemble ->
//! export over one decoded source.
use vstd::prelude::*;

use crate::assemble::{assemble, assembled_items, first_region_error, kind_for, AssembleError};
use crate::asset::{MediaAsset, MediaSource, normalized_path};
use crate::error::TimelineError;
use crate::probe::{MediaError, ProbedMedia};
use crate::detect::{
    first_span_error, keep_regions, keep_spans, regions_apart, to_seconds, window_count,
    window_sample_count, DetectError, SilenceGate,
};
use crate::fcpxml::{fcpxml_events, to_fcpxml};
use crate::nle::{whole_fps, NleError};
use crate::otio::{otio_document, to_otio};
use crate::rational::reduced_ratio;
use crate::time::{FrameRate, SampleRate, Seconds, TimeRange};
use crate::timeline::Timeline;
use crate::track::occupied_upto;
use crate::xmeml::{rendered_or_error, result_view, to_xmeml, xmeml_events};

verus! {

broadcast use Seconds::lemma_from_raw;

/// A stage of the pipeline, from raw footage to exported timeline.
#[derive(Clone, Copy, Debug, PartialEq, Eq, Hash, Structural)]
pub enum PipelineStage {
    /// Read each source's stream properties and decode its audio.
    Probe,
    /// Detect speech vs dead air to find the keep regions.
    Detect,
    /// Align audio captured by multiple sources.
    Sync,
    /// Assemble the trimmed, aligned timeline IR.
    Assemble,
    /// Serialize the timeline to the NLE export formats.
    Export,
}

/// The stages in execution order.
pub open spec fn stage_order() -> Seq<PipelineStage> {
    seq![
        PipelineStage::Probe,
        PipelineStage::Detect,
        PipelineStage::Sync,
        PipelineStage::Assemble,
        PipelineStage::Export,
    ]
}

impl PipelineStage {
    /// Every stage, in execution order: probe, detect, sync, assemble, export.
    pub fn order() -> (stages: [PipelineStage; 5])
        ensures
            stages@ == stage_order(),
    {
        let stages = [
            PipelineStage::Probe,
            PipelineStage::Detect,
            PipelineStage::Sync,
            PipelineStage::Assemble,
            PipelineStage::Export,
        ];
        assert(stages@ =~= stage_order());
        stages
    }
}

/// The execution order lists every stage exactly once, from probe to export.
pub proof fn lemma_order_is_complete()
    ensures
        stage_order().len() == 5,
        stage_order()[0] == PipelineStage::Probe,
        stage_order()[4] == PipelineStage::Export,
        forall|i: int, j: int|
            0 <= i < j < 5 ==> (#[trigger] stage_order()[i]) != (#[trigger] stage_order()[j]),
        forall|s: PipelineStage| #[trigger] stage_order().contains(s),
{
    assert forall|s: PipelineStage| #[trigger] stage_order().contains(s) by {
        match s {
            PipelineStage::Probe => assert(stage_order()[0] == s),
            PipelineStage::Detect => assert(stage_order()[1] == s),
            PipelineStage::Sync => assert(stage_order()[2] == s),
            PipelineStage::Assemble => assert(stage_order()[3] == s),
            PipelineStage::Export => assert(stage_order()[4] == s),
        }
    }
}

/// How far a pipeline run has progressed.
#[derive(Clone, Copy, Debug, PartialEq, Eq, Structural)]
pub enum RunProgress {
    /// Not yet started.
    Queued,
    /// Currently executing the stage.
    Running(PipelineStage),
    /// Every stage completed.
    Completed,
    /// The stage failed and the run stopped there.
    Failed(PipelineStage),
}

/// The position of `stage` in the execution order.
pub open spec fn stage_index(stage: PipelineStage) -> int {
    match stage {
        PipelineStage::Probe => 0,
        PipelineStage::Detect => 1,
        PipelineStage::Sync => 2,
        PipelineStage::Assemble => 3,
        PipelineStage::Export => 4,
    }
}

/// The progress a run starts executing with: the first stage.
pub fn first_progress() -> (p: RunProgress)
    ensures
        p == RunProgress::Running(stage_order()[0]),
{
    RunProgress::Running(PipelineStage::Probe)
}

/// The progress after `stage` finishes: the failed stage if it failed, else
/// the next stage in order, or completion after the last.
pub fn after_stage(stage: PipelineStage, succeeded: bool) -> (p: RunProgress)
    ensures
        !succeeded ==> p == RunProgress::Failed(stage),
        succeeded && stage_index(stage) < 4 ==> p == RunProgress::Running(
            stage_order()[stage_index(stage) + 1],
        ),
        succeeded && stage_index(stage) == 4 ==> p == RunProgress::Completed,
{
    if !succeeded {
        return RunProgress::Failed(stage);
    }
    match stage {
        PipelineStage::Probe => RunProgress::Running(PipelineStage::Detect),
        PipelineStage::Detect => RunProgress::Running(PipelineStage::Sync),
        PipelineStage::Sync => RunProgress::Running(PipelineStage::Assemble),
        PipelineStage::Assemble => RunProgress::Running(PipelineStage::Export),
        PipelineStage::Export => RunProgress::Completed,
    }
}

/// Every stage's position matches its place in the order.
pub proof fn lemma_stage_index(stage: PipelineStage)
    ensures
        0 <= stage_index(stage) < 5,
        stage_order()[stage_index(stage)] == stage,
{
}

/// The stages a flow run has entered up to and including `stage`, each as
/// the progress reported on entering it; the flow begins at detection, after
/// the probe that produced its decoded input.
pub open spec fn entered_through(stage: PipelineStage) -> Seq<RunProgress> {
    Seq::new(stage_index(stage) as nat, |k: int| RunProgress::Running(stage_order()[k + 1]))
}

// ----- the in-memory flow -----

/// An NLE export format the flow can emit.
#[derive(Clone, Copy, Debug, PartialEq, Eq, Structural)]
pub enum ExportTarget {
    /// FCP7 xmeml (opens in Premiere and Resolve).
    Xmeml,
    /// FCPXML (Final Cut / Resolve).
    Fcpxml,
    /// OpenTimelineIO JSON.
    Otio,
}

/// An error checking a decoded source.
#[derive(Clone, Copy, Debug, PartialEq, Eq, Structural)]
pub enum FlowError {
    /// The decoded sample count does not fit in `i64`.
    SampleCount,
    /// The asset's duration disagrees with the decoded sample span.
    DurationMismatch {
        /// The probed asset's duration.
        asset: Seconds,
        /// The span the decoded samples actually cover.
        span: Seconds,
    },
}

/// Check that a probed `asset` covers exactly the span of `sample_count`
/// decoded samples at `sample_rate`, as a decoded source must.
pub fn check_decoded_span(asset: &MediaAsset, sample_count: usize, sample_rate: SampleRate) -> (r:
    Result<(), FlowError>)
    requires
        sample_rate.wf(),
    ensures
        sample_count > i64::MAX ==> r == Err::<(), FlowError>(FlowError::SampleCount),
        sample_count <= i64::MAX ==> {
            let span = Seconds::from_raw(
                reduced_ratio(sample_count as i64, sample_rate.hertz() as i64),
            );
            if asset.duration() == span {
                r == Ok::<(), FlowError>(())
            } else {
                r == Err::<(), FlowError>(
                    FlowError::DurationMismatch { asset: asset.duration(), span },
                )
            }
        },
{
    if (sample_count as u64) > 0x7fff_ffff_ffff_ffff {
        return Err(FlowError::SampleCount);
    }
    let span = Seconds::from_samples(sample_count as i64, sample_rate);
    let duration = asset.duration();
    if duration == span {
        Ok(())
    } else {
        Err(FlowError::DurationMismatch { asset: duration, span })
    }
}

/// How a run is configured: the sequence name, the exact-time part of the
/// silence gate, the output frame rate, and the formats to emit.
#[derive(Clone, Debug)]
pub struct FlowConfig {
    /// The assembled sequence's name.
    pub name: String,
    /// The silence detector's window and padding.
    pub gate: SilenceGate,
    /// The assembled sequence's frame rate.
    pub frame_rate: FrameRate,
    /// The NLE formats to serialize the assembled timeline to.
    pub targets: Vec<ExportTarget>,
}

/// A run's output: each requested target's document, in the order the
/// targets were configured.
#[derive(Clone, Debug)]
pub struct Exported {
    documents: Vec<(ExportTarget, String)>,
}

impl Exported {
    /// The documents, as plain values.
    pub closed spec fn document_seq(&self) -> Seq<(ExportTarget, Seq<char>)> {
        self.documents@.map_values(|d: (ExportTarget, String)| (d.0, d.1@))
    }

    /// The serialized documents, one per requested target.
    pub fn documents(&self) -> (d: &[(ExportTarget, String)])
        ensures
            d@.map_values(|e: (ExportTarget, String)| (e.0, e.1@)) == self.document_seq(),
    {
        self.documents.as_slice()
    }
}

/// Why a stage's work failed.
#[derive(Clone, Debug, PartialEq, Eq)]
pub enum StageFailure {
    /// Silence detection failed.
    Detect(DetectError),
    /// Assembling the timeline failed.
    Assemble(AssembleError),
    /// Serializing the timeline failed.
    Export(NleError),
    /// Probing or decoding the source failed.
    Source(SourceError),
}

/// A pipeline run failure.
#[derive(Clone, Debug, PartialEq, Eq)]
pub enum PipelineError {
    /// The run was configured with no export targets.
    NoExportTargets,
    /// A stage's work failed; the run stopped at this stage.
    Stage {
        /// The stage whose work returned an error.
        stage: PipelineStage,
        /// The failure the stage's work produced.
        source: StageFailure,
    },
}

/// What exporting `timeline` to `target` gives.
pub open spec fn target_document(target: ExportTarget, timeline: Timeline) -> Result<Seq<char>, NleError> {
    match target {
        ExportTarget::Xmeml => rendered_or_error(xmeml_events(timeline)),
        ExportTarget::Fcpxml => rendered_or_error(fcpxml_events(timeline)),
        ExportTarget::Otio => otio_document(timeline),
    }
}

/// Every export format refuses a timeline that fails its own validation,
/// with that validation error; and one that validates but runs at a
/// fractional (NTSC) frame rate, as unsupported.
pub proof fn lemma_exports_refuse_what_cannot_be_written(target: ExportTarget, timeline: Timeline)
    ensures
        timeline.spec_validate() matches Err(e) ==> target_document(target, timeline) == Err::<
            Seq<char>,
            NleError,
        >(NleError::InvalidTimeline(e)),
        timeline.spec_validate() is Ok && whole_fps(timeline.frame_rate()) is None
            ==> target_document(target, timeline) == Err::<Seq<char>, NleError>(
            NleError::UnsupportedFrameRate,
        ),
{
}

/// The documents of the first `i` targets, or the first export failure.
pub open spec fn documents_upto(targets: Seq<ExportTarget>, timeline: Timeline, i: nat) -> Result<
    Seq<(ExportTarget, Seq<char>)>,
    NleError,
>
    decreases i,
{
    if i == 0 || i > targets.len() {
        Ok(Seq::empty())
    } else {
        match documents_upto(targets, timeline, (i - 1) as nat) {
            Err(e) => Err(e),
            Ok(done) => match target_document(targets[i - 1], timeline) {
                Err(e) => Err(e),
                Ok(text) => Ok(done.push((targets[i - 1], text))),
            },
        }
    }
}

proof fn lemma_documents_error_sticks(targets: Seq<ExportTarget>, timeline: Timeline, i: nat, j: nat)
    requires
        i <= j <= targets.len(),
        documents_upto(targets, timeline, i) is Err,
    ensures
        documents_upto(targets, timeline, j) == documents_upto(targets, timeline, i),
    decreases j - i,
{
    if i < j {
        lemma_documents_error_sticks(targets, timeline, i, (j - 1) as nat);
    }
}

/// Serialize `timeline` to each target, in order.
pub fn export(timeline: &Timeline, targets: &Vec<ExportTarget>) -> (r: Result<Exported, NleError>)
    requires
        timeline.wf(),
        timeline.asset_seq().len() < 0x7fff_ffff_ffff_ffff,
        timeline.track_seq().len() < 0x7fff_ffff,
    ensures
        match documents_upto(targets@, *timeline, targets@.len()) {
            Err(e) => r == Err::<Exported, NleError>(e),
            Ok(docs) => r matches Ok(exported) && exported.document_seq() == docs,
        },
        r matches Ok(exported) ==> forall|k: int|
            0 <= k < exported.document_seq().len() ==> (#[trigger] exported.document_seq()[k]).1.len()
                > 0,
{
    let n = targets.len();
    let mut documents: Vec<(ExportTarget, String)> = Vec::new();
    let mut i: usize = 0;
    assert(documents@.map_values(|d: (ExportTarget, String)| (d.0, d.1@)) =~= Seq::<
        (ExportTarget, Seq<char>),
    >::empty());
    while i < n
        invariant
            timeline.wf(),
            timeline.asset_seq().len() < 0x7fff_ffff_ffff_ffff,
            timeline.track_seq().len() < 0x7fff_ffff,
            n == targets@.len(),
            i <= n,
            documents_upto(targets@, *timeline, i as nat) == Ok::<
                Seq<(ExportTarget, Seq<char>)>,
                NleError,
            >(documents@.map_values(|d: (ExportTarget, String)| (d.0, d.1@))),
            forall|k: int| 0 <= k < documents@.len() ==> (#[trigger] documents@[k]).1@.len() > 0,
        decreases n - i,
    {
        let target = targets[i];
        let rendered = match target {
            ExportTarget::Xmeml => to_xmeml(timeline),
            ExportTarget::Fcpxml => to_fcpxml(timeline),
            ExportTarget::Otio => to_otio(timeline),
        };
        match rendered {
            Err(e) => {
                proof {
                    assert(result_view(rendered) == target_document(target, *timeline));
                    lemma_documents_error_sticks(targets@, *timeline, (i + 1) as nat, n as nat);
                }
                return Err(e);
            },
            Ok(text) => {
                let ghost before = documents@;
                documents.push((target, text));
                proof {
                    assert(documents@.map_values(|d: (ExportTarget, String)| (d.0, d.1@)) =~= before.map_values(
                        |d: (ExportTarget, String)| (d.0, d.1@),
                    ).push((target, text@)));
                }
            },
        }
        i = i + 1;
    }
    Ok(Exported { documents })
}

/// `regions` are the keep regions `spans` describe: each starts at its span's
/// start and lasts until its span's end.
pub open spec fn regions_of(regions: Seq<TimeRange>, spans: Seq<(Seconds, Seconds)>) -> bool {
    &&& regions.len() == spans.len()
    &&& forall|k: int|
        0 <= k < spans.len() ==> (#[trigger] regions[k]).start() == spans[k].0
            && regions[k].duration() == spans[k].1.spec_checked_sub(spans[k].0)->Some_0
}

/// `t` is the timeline assembled from `asset` and its keep `regions`: named
/// `name`, at `rate`, holding the asset and one track of the regions' clips,
/// and valid.
pub open spec fn assembled(
    t: Timeline,
    name: Seq<char>,
    rate: FrameRate,
    asset: MediaAsset,
    regions: Seq<TimeRange>,
) -> bool {
    &&& t.wf()
    &&& t.spec_validate() == Ok::<(), TimelineError>(())
    &&& t.name_view() == name
    &&& t.frame_rate() == rate
    &&& t.asset_seq() == seq![asset]
    &&& t.track_seq().len() == 1
    &&& t.track_seq()[0].kind() == kind_for(asset)
    &&& t.track_seq()[0].item_seq() == assembled_items(*asset.source(), regions)
}

/// What a run whose detection gave `regions` ends with: the assembly error,
/// or the export of the assembled timeline to each target.
pub open spec fn outcome_after_detect(
    r: Result<Exported, PipelineError>,
    asset: MediaAsset,
    regions: Seq<TimeRange>,
    config: FlowConfig,
) -> bool {
    match first_region_error(regions, asset.duration(), regions.len()) {
        Some(e) => r == Err::<Exported, PipelineError>(
            PipelineError::Stage { stage: PipelineStage::Assemble, source: StageFailure::Assemble(e) },
        ),
        None => if occupied_upto(assembled_items(*asset.source(), regions), regions.len()) is None {
            r == Err::<Exported, PipelineError>(
                PipelineError::Stage {
                    stage: PipelineStage::Assemble,
                    source: StageFailure::Assemble(
                        AssembleError::InvalidTimeline(TimelineError::OccupiedOverflow),
                    ),
                },
            )
        } else {
            exists|t: Timeline|
                #[trigger] assembled(t, config.name@, config.frame_rate, asset, regions) && match documents_upto(
                    config.targets@,
                    t,
                    config.targets@.len(),
                ) {
                    Err(e) => r == Err::<Exported, PipelineError>(
                        PipelineError::Stage {
                            stage: PipelineStage::Export,
                            source: StageFailure::Export(e),
                        },
                    ),
                    Ok(docs) => r matches Ok(exported) && exported.document_seq() == docs,
                }
        },
    }
}

/// The activity a decode handed over, as plain values.
pub open spec fn activity_view(activity: Result<Vec<bool>, DetectError>) -> Result<Seq<bool>, DetectError> {
    match activity {
        Ok(a) => Ok(a@),
        Err(e) => Err(e),
    }
}

/// What a run over `asset` (decoded to `sample_count` samples at `rate`,
/// whose analysis windows were found active as `activity` says) ends with:
/// the detection error, or what assembling and exporting the detected
/// regions gives.
pub open spec fn flow_outcome(
    r: Result<Exported, PipelineError>,
    asset: MediaAsset,
    sample_count: int,
    rate: SampleRate,
    activity: Result<Seq<bool>, DetectError>,
    config: FlowConfig,
) -> bool {
    let detect_failed = |e: DetectError|
        r == Err::<Exported, PipelineError>(
            PipelineError::Stage { stage: PipelineStage::Detect, source: StageFailure::Detect(e) },
        );
    match activity {
        Err(e) => detect_failed(e),
        Ok(a) => match keep_spans(a, sample_count, rate, config.gate) {
            Err(e) => detect_failed(e),
            Ok(spans) => match first_span_error(spans, spans.len()) {
                Some(e) => detect_failed(e),
                None => exists|regions: Seq<TimeRange>|
                    #[trigger] regions_of(regions, spans) && outcome_after_detect(
                        r,
                        asset,
                        regions,
                        config,
                    ),
            },
        },
    }
}

/// Run the in-memory flow over one decoded source: detect its keep regions
/// (from the activity of its analysis windows, or the error deciding it),
/// sync (a single-source pass-through), assemble the trimmed timeline, and
/// export it to each configured target.
///
/// Returns the outcome with the progress the run reports, in order: each
/// stage as it begins, then completion, or the failure of the first stage
/// that failed (later stages do not run). A run with no export targets is
/// rejected before it starts.
#[verifier::rlimit(60)]
pub fn run_flow(
    asset: MediaAsset,
    sample_count: usize,
    sample_rate: SampleRate,
    activity: Result<Vec<bool>, DetectError>,
    config: &FlowConfig,
) -> (r: (Result<Exported, PipelineError>, Vec<RunProgress>))
    requires
        asset.wf(),
        sample_rate.wf(),
        config.gate.wf(),
        config.frame_rate.wf(),
        activity matches Ok(a) ==> (window_sample_count(config.gate, sample_rate) matches Some(w)
            ==> a@.len() == window_count(sample_count as nat, w as nat)),
    ensures
        config.targets@.len() == 0 ==> r.0 == Err::<Exported, PipelineError>(
            PipelineError::NoExportTargets,
        ) && r.1@ == Seq::<RunProgress>::empty(),
        config.targets@.len() > 0 ==> match r.0 {
            Ok(_) => r.1@ == entered_through(PipelineStage::Export).push(RunProgress::Completed),
            Err(PipelineError::Stage { stage, source: _ }) => r.1@ == entered_through(stage).push(
                RunProgress::Failed(stage),
            ),
            Err(PipelineError::NoExportTargets) => false,
        },
        config.targets@.len() > 0 ==> flow_outcome(
            r.0,
            asset,
            sample_count as int,
            sample_rate,
            activity_view(activity),
            *config,
        ),
        r.0 matches Err(PipelineError::Stage { stage, source }) ==> match source {
            StageFailure::Detect(_) => stage == PipelineStage::Detect,
            StageFailure::Assemble(_) => stage == PipelineStage::Assemble,
            StageFailure::Export(_) => stage == PipelineStage::Export,
            StageFailure::Source(_) => false,
        },
        r.0 matches Ok(exported) ==> exported.document_seq().len() == config.targets@.len()
            && forall|k: int|
            0 <= k < config.targets@.len() ==> (#[trigger] exported.document_seq()[k]).0
                == config.targets@[k] && exported.document_seq()[k].1.len() > 0,
{
    let mut progress: Vec<RunProgress> = Vec::new();
    if config.targets.len() == 0 {
        return (Err(PipelineError::NoExportTargets), progress);
    }
    progress.push(RunProgress::Running(PipelineStage::Detect));
    let ghost activity_v = match &activity {
        Ok(a) => a@,
        Err(_) => Seq::<bool>::empty(),
    };
    let detected = match activity {
        Err(e) => Err(e),
        Ok(a) => keep_regions(a.as_slice(), sample_count, sample_rate, &config.gate),
    };
    let regions = match detected {
        Err(e) => {
            progress.push(RunProgress::Failed(PipelineStage::Detect));
            proof {
                assert(progress@ =~= entered_through(PipelineStage::Detect).push(RunProgress::Failed(PipelineStage::Detect)));
            }
            return (
                Err(
                    PipelineError::Stage {
                        stage: PipelineStage::Detect,
                        source: StageFailure::Detect(e),
                    },
                ),
                progress,
            );
        },
        Ok(regions) => regions,
    };
    progress.push(RunProgress::Running(PipelineStage::Sync));
    progress.push(RunProgress::Running(PipelineStage::Assemble));
    let ghost total = to_seconds(sample_count as int, sample_rate)->Some_0;
    let ghost asset_v = asset;
    let ghost rs = regions@;
    proof {
        let spans = keep_spans(activity_v, sample_count as int, sample_rate, config.gate)->Ok_0;
        assert(regions_of(rs, spans));
    }
    assert(regions_apart(regions@, total));
    assert forall|k: int| 0 <= k < regions@.len() implies (#[trigger] regions@[k]).wf() by {}
    let timeline = match assemble(config.name.as_str(), config.frame_rate, asset, regions.as_slice()) {
        Err(e) => {
            progress.push(RunProgress::Failed(PipelineStage::Assemble));
            proof {
                assert(outcome_after_detect(
                    Err(
                        PipelineError::Stage {
                            stage: PipelineStage::Assemble,
                            source: StageFailure::Assemble(e),
                        },
                    ),
                    asset_v,
                    rs,
                    *config,
                ));
                assert(progress@ =~= entered_through(PipelineStage::Assemble).push(
                    RunProgress::Failed(PipelineStage::Assemble),
                ));
            }
            return (
                Err(
                    PipelineError::Stage {
                        stage: PipelineStage::Assemble,
                        source: StageFailure::Assemble(e),
                    },
                ),
                progress,
            );
        },
        Ok(t) => t,
    };
    progress.push(RunProgress::Running(PipelineStage::Export));
    assert(assembled(timeline, config.name@, config.frame_rate, asset_v, rs));
    let exported = match export(&timeline, &config.targets) {
        Err(e) => {
            progress.push(RunProgress::Failed(PipelineStage::Export));
            proof {
                assert(progress@ =~= entered_through(PipelineStage::Export).push(
                    RunProgress::Failed(PipelineStage::Export),
                ));
            }
            return (
                Err(
                    PipelineError::Stage {
                        stage: PipelineStage::Export,
                        source: StageFailure::Export(e),
                    },
                ),
                progress,
            );
        },
        Ok(exported) => exported,
    };
    progress.push(RunProgress::Completed);
    proof {
        assert(progress@ =~= entered_through(PipelineStage::Export).push(RunProgress::Completed));
        lemma_documents_targets(config.targets@, timeline, config.targets@.len());
    }
    (Ok(exported), progress)
}

/// The documents carry their targets, in order.
proof fn lemma_documents_targets(targets: Seq<ExportTarget>, timeline: Timeline, i: nat)
    requires
        i <= targets.len(),
    ensures
        documents_upto(targets, timeline, i) matches Ok(docs) ==> docs.len() == i && forall|k: int|
            0 <= k < i ==> (#[trigger] docs[k]).0 == targets[k],
    decreases i,
{
    if i > 0 {
        lemma_documents_targets(targets, timeline, (i - 1) as nat);
    }
}

// ----- the probe/decode front -----

/// An error producing a decoded source.
#[derive(Clone, Debug, PartialEq, Eq)]
pub enum SourceError {
    /// Probing or decoding the source failed.
    Media(MediaError),
    /// The decoded sample count does not fit in `i64`.
    SampleCount,
    /// The probed properties did not make a valid media asset.
    Asset(TimelineError),
    /// The decoded source is internally inconsistent.
    Decoded(FlowError),
}

/// The asset a decoded source at `path` stands for: probed as `probed`,
/// decoded to `decoded` (its sample count and rate). Its duration is the
/// decoded span, not the probed container duration, so it matches the
/// samples by construction.
pub open spec fn source_result(
    path: Seq<char>,
    probed: Result<ProbedMedia, MediaError>,
    decoded: Result<(usize, SampleRate), MediaError>,
) -> Result<(Seq<char>, Seconds, ProbedMedia), SourceError> {
    match probed {
        Err(e) => Err(SourceError::Media(e)),
        Ok(media) => match decoded {
            Err(e) => Err(SourceError::Media(e)),
            Ok((count, rate)) => if count > i64::MAX {
                Err(SourceError::SampleCount)
            } else if count == 0 {
                Err(SourceError::Asset(TimelineError::NonPositiveDuration))
            } else if media.video is None && media.audio is None {
                Err(SourceError::Asset(TimelineError::AssetWithoutStreams))
            } else {
                Ok((
                    normalized_path(path),
                    Seconds::from_raw(reduced_ratio(count as i64, rate.hertz() as i64)),
                    media,
                ))
            },
        },
    }
}

/// Build the asset of the source at `path` from its probe and its decode,
/// as [`source_result`] describes.
pub fn decode_source(
    path: &str,
    probed: Result<ProbedMedia, MediaError>,
    decoded: Result<(usize, SampleRate), MediaError>,
) -> (r: Result<MediaAsset, SourceError>)
    requires
        probed matches Ok(m) ==> m.wf(),
        decoded matches Ok(d) ==> d.1.wf(),
    ensures
        match source_result(path@, probed, decoded) {
            Err(e) => r == Err::<MediaAsset, SourceError>(e),
            Ok((source, duration, media)) => r matches Ok(a) && a.wf() && a.source()@ == source
                && a.duration() == duration && a.video() == media.video && a.audio()
                == media.audio,
        },
{
    let media = match probed {
        Ok(m) => m,
        Err(e) => return Err(SourceError::Media(e)),
    };
    let (count, rate) = match decoded {
        Ok(d) => d,
        Err(e) => return Err(SourceError::Media(e)),
    };
    if (count as u64) > 0x7fff_ffff_ffff_ffff {
        return Err(SourceError::SampleCount);
    }
    let span = Seconds::from_samples(count as i64, rate);
    proof {
        assert(span.numer() > 0 <==> count > 0) by (nonlinear_arith)
            requires
                span.numer() * (rate.hertz() as int) == (count as int) * span.denom(),
                span.denom() > 0,
                rate.hertz() > 0,
                count >= 0,
        ;
    }
    let asset = match MediaAsset::new(MediaSource::file(path), span, media.video, media.audio) {
        Ok(a) => a,
        Err(e) => return Err(SourceError::Asset(e)),
    };
    match check_decoded_span(&asset, count, rate) {
        Ok(()) => Ok(asset),
        Err(e) => Err(SourceError::Decoded(e)),
    }
}

/// Run the whole pipeline over the source at `path`: its probe and decode
/// (the probe stage), then the in-memory flow over the decoded source.
///
/// Returns the outcome with the progress the run reports: the probe stage
/// as it begins and, if it failed, its failure; then what the flow reports.
pub fn run(
    path: &str,
    probed: Result<ProbedMedia, MediaError>,
    decoded: Result<(usize, SampleRate), MediaError>,
    activity: Result<Vec<bool>, DetectError>,
    config: &FlowConfig,
) -> (r: (Result<Exported, PipelineError>, Vec<RunProgress>))
    requires
        probed matches Ok(m) ==> m.wf(),
        decoded matches Ok(d) ==> d.1.wf(),
        config.gate.wf(),
        config.frame_rate.wf(),
        decoded matches Ok(d) ==> (activity matches Ok(a) ==> (window_sample_count(
            config.gate,
            d.1,
        ) matches Some(w) ==> a@.len() == window_count(d.0 as nat, w as nat))),
    ensures
        r.1@.len() > 0 && r.1@[0] == RunProgress::Running(PipelineStage::Probe),
        source_result(path@, probed, decoded) matches Err(e) ==> r.0 == Err::<
            Exported,
            PipelineError,
        >(PipelineError::Stage { stage: PipelineStage::Probe, source: StageFailure::Source(e) })
            && r.1@ == seq![
            RunProgress::Running(PipelineStage::Probe),
            RunProgress::Failed(PipelineStage::Probe),
        ],
        source_result(path@, probed, decoded) is Ok && config.targets@.len() == 0 ==> r.0
            == Err::<Exported, PipelineError>(PipelineError::NoExportTargets) && r.1@ == seq![
            RunProgress::Running(PipelineStage::Probe),
        ],
        config.targets@.len() > 0 ==> (source_result(path@, probed, decoded) matches Ok(
            (source, duration, media),
        ) ==> exists|asset: MediaAsset|
            #![trigger asset.wf()]
            asset.wf() && asset.source()@ == source && asset.duration() == duration
                && asset.video() == media.video && asset.audio() == media.audio && flow_outcome(
                r.0,
                asset,
                decoded->Ok_0.0 as int,
                decoded->Ok_0.1,
                activity_view(activity),
                *config,
            )),
        source_result(path@, probed, decoded) is Ok && config.targets@.len() > 0 ==> match r.0 {
            Ok(_) => r.1@ == seq![RunProgress::Running(PipelineStage::Probe)]
                + entered_through(PipelineStage::Export).push(RunProgress::Completed),
            Err(PipelineError::Stage { stage, source: _ }) => r.1@ == seq![
                RunProgress::Running(PipelineStage::Probe),
            ] + entered_through(stage).push(RunProgress::Failed(stage)),
            Err(PipelineError::NoExportTargets) => false,
        },
        r.0 matches Ok(exported) ==> exported.document_seq().len() == config.targets@.len()
            && forall|k: int|
            0 <= k < config.targets@.len() ==> (#[trigger] exported.document_seq()[k]).0
                == config.targets@[k] && exported.document_seq()[k].1.len() > 0,
{
    let mut progress: Vec<RunProgress> = Vec::new();
    progress.push(RunProgress::Running(PipelineStage::Probe));
    let info = match &decoded {
        Ok(d) => Some(*d),
        Err(_) => None,
    };
    let asset = match decode_source(path, probed, decoded) {
        Ok(a) => a,
        Err(e) => {
            progress.push(RunProgress::Failed(PipelineStage::Probe));
            assert(progress@ =~= seq![
                RunProgress::Running(PipelineStage::Probe),
                RunProgress::Failed(PipelineStage::Probe),
            ]);
            return (
                Err(
                    PipelineError::Stage {
                        stage: PipelineStage::Probe,
                        source: StageFailure::Source(e),
                    },
                ),
                progress,
            );
        },
    };
    let (count, rate) = match info {
        Some(d) => d,
        None => vstd::pervasive::unreached(),
    };
    let (outcome, mut flow_progress) = run_flow(asset, count, rate, activity, config);
    let ghost first = progress@;
    let ghost rest = flow_progress@;
    progress.append(&mut flow_progress);
    assert(progress@ =~= first + rest);
    (outcome, progress)
}

} // verus!
