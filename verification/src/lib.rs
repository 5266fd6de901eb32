//! Hollywood's verified core: exact rational time, the multi-track timeline
//! intermediate representation, rough-cut assembly from keep regions, and the
//! NLE interchange exporters (FCP7 xmeml, FCPXML, OpenTimelineIO).
pub mod asset;
pub mod error;
pub mod rational;
pub mod time;
pub mod track;
pub mod timeline;
pub mod assemble;
pub mod text;
pub mod xml;
pub mod nle;
pub mod xmeml;
pub mod fcpxml;
pub mod otio;
pub mod detect;
pub mod sync;
pub mod pipeline;
pub mod probe;
pub mod gui;
pub mod cli;
pub mod order;
