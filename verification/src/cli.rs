//! The `process` command's decisions: the run configuration built from its
//! arguments, and the file each exported document is written to.
use vstd::prelude::*;
use vstd::string::StringExecFns;

use crate::detect::{DetectError, SilenceGate};
use crate::error::TimelineError;
use crate::pipeline::{ExportTarget, FlowConfig, PipelineError};
use crate::time::{FrameRate, Seconds};

verus! {

broadcast use Seconds::lemma_from_raw;

/// Failure of the `process` command.
#[derive(Clone, Debug, PartialEq, Eq)]
pub enum CliError {
    /// The input path has no usable file name.
    BadInputPath,
    /// A configured duration or frame rate was invalid.
    Config(TimelineError),
    /// The silence gate was invalid.
    Gate(DetectError),
    /// The pipeline failed.
    Pipeline(PipelineError),
    /// Writing the export failed.
    Io,
}

/// The file extension each export format is written with.
pub open spec fn extension_of(target: ExportTarget) -> Seq<char> {
    match target {
        ExportTarget::Xmeml => "xml"@,
        ExportTarget::Fcpxml => "fcpxml"@,
        ExportTarget::Otio => "otio"@,
    }
}

/// The file extension for `target`'s document.
pub fn extension(target: ExportTarget) -> (s: &'static str)
    ensures
        s@ == extension_of(target),
{
    match target {
        ExportTarget::Xmeml => "xml",
        ExportTarget::Fcpxml => "fcpxml",
        ExportTarget::Otio => "otio",
    }
}

/// The file a run named `name` writes `target`'s document to: the name, a
/// dot, and the format's extension.
pub fn export_file_name(name: &str, target: ExportTarget) -> (s: String)
    ensures
        s@ == name@ + "."@ + extension_of(target),
{
    let mut s = String::from_str(name);
    s.append(".");
    s.append(extension(target));
    s
}

/// The run configuration for a `process` invocation: the sequence is named
/// after the input's file stem (absent when the input has no usable file
/// name), the silence gate analyzes in `window_ms` steps and pads by
/// `padding_ms` (`threshold_usable` tells whether the silence threshold
/// converts to a finite, positive amplitude), the output runs at `fps` whole
/// frames per second, and `targets` are the formats to emit.
///
/// Errors, in this order: [`CliError::BadInputPath`] without a stem,
/// [`CliError::Gate`] for an invalid gate, [`CliError::Config`] for a zero
/// frame rate.
pub fn config(
    stem: Option<&str>,
    fps: u32,
    threshold_usable: bool,
    window_ms: u32,
    padding_ms: u32,
    targets: Vec<ExportTarget>,
) -> (r: Result<FlowConfig, CliError>)
    ensures
        stem is None ==> r == Err::<FlowConfig, CliError>(CliError::BadInputPath),
        stem is Some && window_ms == 0 ==> r == Err::<FlowConfig, CliError>(
            CliError::Gate(DetectError::NonPositiveWindow),
        ),
        stem is Some && window_ms > 0 && !threshold_usable ==> r == Err::<FlowConfig, CliError>(
            CliError::Gate(DetectError::InvalidThreshold),
        ),
        stem is Some && window_ms > 0 && threshold_usable && fps == 0 ==> r == Err::<
            FlowConfig,
            CliError,
        >(CliError::Config(TimelineError::NonPositiveFrameRate)),
        stem is Some && window_ms > 0 && threshold_usable && fps > 0 ==> (r matches Ok(c) && c.name@
            == stem->Some_0@ && c.gate.wf() && c.gate.window().denotes(window_ms as int, 1000)
            && c.gate.padding().denotes(padding_ms as int, 1000) && c.frame_rate.wf()
            && c.frame_rate.numer() == fps && c.frame_rate.denom() == 1 && c.targets@ == targets@),
{
    let name = match stem {
        Some(s) => String::from_str(s),
        None => return Err(CliError::BadInputPath),
    };
    let window = match Seconds::new(window_ms as i64, 1000) {
        Ok(w) => w,
        Err(e) => return Err(CliError::Config(e)),
    };
    let padding = match Seconds::new(padding_ms as i64, 1000) {
        Ok(p) => p,
        Err(e) => return Err(CliError::Config(e)),
    };
    proof {
        assert(window.numer() * 1000 == window_ms * window.denom());
        assert(padding.numer() * 1000 == padding_ms * padding.denom());
        assert(window.numer() > 0 <==> window_ms > 0) by (nonlinear_arith)
            requires
                window.numer() * 1000 == window_ms * window.denom(),
                window.denom() > 0,
                window_ms >= 0,
        ;
        assert(padding.numer() >= 0) by (nonlinear_arith)
            requires
                padding.numer() * 1000 == padding_ms * padding.denom(),
                padding.denom() > 0,
                padding_ms >= 0,
        ;
    }
    let gate = match SilenceGate::new(window, threshold_usable, padding) {
        Ok(g) => g,
        Err(e) => return Err(CliError::Gate(e)),
    };
    let frame_rate = match FrameRate::whole(fps) {
        Ok(f) => f,
        Err(e) => return Err(CliError::Config(e)),
    };
    Ok(FlowConfig { name, gate, frame_rate, targets })
}

} // verus!
