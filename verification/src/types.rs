//! The pipeline's data: configuration, stage outputs, reports, errors, and
//! the trait that every stage implements.
use vstd::prelude::*;
use crate::params::StringMap;

verus! {

/// What kind of work a stage does.
#[derive(PartialEq, Eq, Structural, Clone, Copy, Debug)]
pub enum StageType {
    Decompose,
    Transform,
    Assemble,
    Branch,
    Merge,
    Filter,
}

/// A ratio of two counts, `num / den` (a compression ratio: bytes out over
/// bytes in).  `den` is never zero in what the library produces.
#[derive(PartialEq, Eq, Structural, Clone, Copy, Debug)]
pub struct Ratio {
    pub num: usize,
    pub den: usize,
}

/// The compression ratio of a step that turned `input_len` bytes into
/// `output_len` bytes: the input length counts as at least one.
pub open spec fn byte_ratio(output_len: nat, input_len: nat) -> Ratio {
    Ratio { num: output_len as usize, den: if input_len == 0 { 1 } else { input_len as usize } }
}

impl Ratio {
    /// `byte_ratio` of two lengths.
    pub fn of_bytes(output_len: usize, input_len: usize) -> (r: Ratio)
        ensures
            r == byte_ratio(output_len as nat, input_len as nat),
    {
        Ratio { num: output_len, den: if input_len == 0 { 1 } else { input_len } }
    }
}

/// Why a pipeline operation failed.
#[derive(Debug)]
pub enum PipelineError {
    StageNotFound(String),
    StageExecution(String),
    Validation(String),
    EmptyPipeline,
}

impl PipelineError {
    /// The human-readable message of the error.
    pub fn message(&self) -> (r: String)
        ensures
            r@ == match self {
                PipelineError::StageNotFound(s) => "stage not found: "@ + s@,
                PipelineError::StageExecution(s) => "stage execution failed: "@ + s@,
                PipelineError::Validation(s) => "validation error: "@ + s@,
                PipelineError::EmptyPipeline => "no stages in pipeline"@,
            },
    {
        match self {
            PipelineError::StageNotFound(s) => {
                let mut m = String::from_str("stage not found: ");
                m.append(s.as_str());
                m
            },
            PipelineError::StageExecution(s) => {
                let mut m = String::from_str("stage execution failed: ");
                m.append(s.as_str());
                m
            },
            PipelineError::Validation(s) => {
                let mut m = String::from_str("validation error: ");
                m.append(s.as_str());
                m
            },
            PipelineError::EmptyPipeline => String::from_str("no stages in pipeline"),
        }
    }
}

/// What one execution of a stage produced.
#[derive(Debug, Clone)]
pub struct StageOutput {
    pub data: Vec<u8>,
    pub tiles_count: usize,
    /// Output bytes over input bytes (the input counting as at least one).
    pub cr: Ratio,
    pub duration_ms: u64,
}

/// The configuration of one stage: its name, kind, and parameters.
#[derive(Debug, Clone)]
pub struct StageConfig {
    pub name: String,
    pub stage_type: StageType,
    pub params: StringMap,
}

/// The configuration of a pipeline.
#[derive(Debug, Clone)]
pub struct PipelineConfig {
    pub id: uuid::Uuid,
    pub name: String,
    pub stages: Vec<StageConfig>,
    pub metadata: StringMap,
}

/// The report on one stage of a run (or of an estimate).
#[derive(Debug, Clone)]
pub struct StageReport {
    pub name: String,
    pub stage_type: StageType,
    pub duration_ms: u64,
    pub input_bytes: usize,
    pub output_bytes: usize,
    pub tiles_count: usize,
    pub cr: Ratio,
}

/// The report on a whole run (or estimate).
#[derive(Debug, Clone)]
pub struct PipelineReport {
    pub pipeline_id: uuid::Uuid,
    pub stages: Vec<StageReport>,
    pub total_duration_ms: u64,
    pub overall_cr: Ratio,
    pub input_bytes: usize,
    pub output_bytes: usize,
}

/// A step of a pipeline: it turns input bytes, under the parameters that its
/// configuration gives, into output bytes and a count of tiles.
///
/// The spec functions describe an implementation: which names and kinds it
/// reports, when it may fail and with which errors, which outputs it may
/// give, and how long it may report taking.  Each defaults
/// to claiming nothing (any name, any kind, any failure, any output), so an
/// implementation that does not describe itself is taken as unknown.
pub trait PipelineStage: Send + Sync {
    /// Whether the stage may report `name` as its name.
    open spec fn names(&self, name: Seq<char>) -> bool {
        true
    }

    /// Whether the stage may report `t` as its kind.
    open spec fn kinds(&self, t: StageType) -> bool {
        true
    }

    /// Whether the stage may fail on `input` under `params`.
    open spec fn refuses(&self, input: Seq<u8>, params: Map<Seq<char>, Seq<char>>) -> bool {
        true
    }

    /// Whether `e` is an error the stage may fail with on `input` under
    /// `params`.
    open spec fn fails_with(&self, input: Seq<u8>, params: Map<Seq<char>, Seq<char>>, e: PipelineError) -> bool {
        true
    }

    /// Whether the stage may report taking `ms` milliseconds on `input` under
    /// `params`.
    open spec fn takes(&self, input: Seq<u8>, params: Map<Seq<char>, Seq<char>>, ms: u64) -> bool {
        true
    }

    /// Whether `data` with `tiles` tiles is an output the stage may give for
    /// `input` under `params`.
    open spec fn yields(
        &self,
        input: Seq<u8>,
        params: Map<Seq<char>, Seq<char>>,
        data: Seq<u8>,
        tiles: nat,
    ) -> bool {
        true
    }

    /// The stage's name.
    fn name(&self) -> (r: &str)
        ensures
            self.names(r@),
    ;

    /// The stage's kind.
    fn stage_type(&self) -> (r: StageType)
        ensures
            self.kinds(r),
    ;

    /// Runs the stage on `input`.
    fn execute(&self, input: &[u8], params: &StringMap) -> (r: Result<StageOutput, PipelineError>)
        ensures
            r is Err ==> self.refuses(input@, params@),
            r matches Err(e) ==> self.fails_with(input@, params@, e),
            r matches Ok(out) ==> {
                &&& self.yields(input@, params@, out.data@, out.tiles_count as nat)
                &&& self.takes(input@, params@, out.duration_ms)
                &&& out.cr == byte_ratio(out.data@.len(), input@.len())
            },
    ;
}

} // verus!
