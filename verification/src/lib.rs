//! Pipeline orchestration: stages that decompose, transform, filter and
//! assemble text, wired into pipelines that run them in order and report on
//! each step.
//!
//! Stages work on text as characters: their input bytes are read as UTF-8
//! (invalid sequences replaced), and their output is the UTF-8 encoding of
//! the text they produce.
pub mod assemble;
pub mod decompose;
pub mod laws;
pub mod outside;
pub mod params;
pub mod pipeline;
pub mod stage_common;
pub mod text;
pub mod text_laws;
pub mod text_ops;
pub mod transform;
pub mod types;

pub use assemble::{CsvAssembleStage, TextAssembleStage};
pub use decompose::{CsvDecomposeStage, JsonDecomposeStage, TextDecomposeStage};
pub use params::StringMap;
pub use pipeline::Pipeline;
pub use transform::{FilterStage, MapStage, SortStage};
pub use types::{
    PipelineConfig, PipelineError, PipelineReport, PipelineStage, Ratio, StageConfig,
    StageOutput, StageReport, StageType,
};
