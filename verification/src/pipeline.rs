//! The pipeline: stages run in order, each on the output of the one before,
//! with the parameters its configuration gives; with reports, single-stage
//! runs, validation and size estimates.
use vstd::prelude::*;
use crate::outside::{clock_now, elapsed_since, whole_millis};
use crate::params::StringMap;
use crate::text_ops::{chars_of, text_eq};
use crate::types::{
    byte_ratio, PipelineConfig, PipelineError, PipelineReport, PipelineStage, Ratio, StageConfig,
    StageOutput, StageReport, StageType,
};

verus! {

broadcast use vstd::seq::group_seq_axioms;

/// The parameters that `configs` gives a stage named `name`: those of the
/// first configuration with that name, none when there is no such
/// configuration.
pub open spec fn config_params(configs: Seq<StageConfig>, name: Seq<char>) -> Map<
    Seq<char>,
    Seq<char>,
>
    decreases configs.len(),
{
    if configs.len() == 0 {
        Map::empty()
    } else if configs[0].name@ == name {
        configs[0].params@
    } else {
        config_params(configs.drop_first(), name)
    }
}

/// Whether some configuration in `configs` has the name `name`.
pub open spec fn has_config(configs: Seq<StageConfig>, name: Seq<char>) -> bool {
    exists|i: int| 0 <= i < configs.len() && #[trigger] configs[i].name@ == name
}

/// Whether `names` are names that the first `names.len()` stages may give,
/// one each.
pub open spec fn named(stages: Seq<Box<dyn PipelineStage>>, names: Seq<Seq<char>>) -> bool {
    &&& names.len() <= stages.len()
    &&& forall|i: int| 0 <= i < names.len() ==> stages[i].names(#[trigger] names[i])
}

/// Whether `trace` (the data before and after each step), `tiles` and
/// `names` record a run of the first `k` stages, each under the parameters
/// that the configuration gives the name it reported.
pub open spec fn is_trace(
    stages: Seq<Box<dyn PipelineStage>>,
    configs: Seq<StageConfig>,
    names: Seq<Seq<char>>,
    trace: Seq<Seq<u8>>,
    tiles: Seq<nat>,
    k: int,
) -> bool {
    &&& 0 <= k <= stages.len()
    &&& k <= names.len()
    &&& named(stages, names)
    &&& trace.len() == k + 1
    &&& tiles.len() == k
    &&& forall|i: int|
        0 <= i < k ==> stages[i].yields(
            trace[i],
            config_params(configs, names[i]),
            trace[i + 1],
            #[trigger] tiles[i],
        )
}

/// Whether stage `j` of `names` repeats an earlier name.
pub open spec fn repeats_earlier(names: Seq<Seq<char>>, j: int) -> bool {
    exists|i: int| 0 <= i < j && names[i] == names[j]
}

/// Whether `j` is the first position whose name repeats an earlier one.
pub open spec fn first_repeat(names: Seq<Seq<char>>, j: int) -> bool {
    &&& 0 <= j < names.len()
    &&& repeats_earlier(names, j)
    &&& forall|m: int| 0 <= m < j ==> !repeats_earlier(names, m)
}

/// Whether `k` is the first position whose name has no configuration.
pub open spec fn first_unconfigured(names: Seq<Seq<char>>, configs: Seq<StageConfig>, k: int) -> bool {
    &&& 0 <= k < names.len()
    &&& !has_config(configs, names[k])
    &&& forall|m: int| 0 <= m < k ==> has_config(configs, names[m])
}

/// What validation finds wrong with stages named `names` under `configs`:
/// no stages, else the first repeated name, else the first name without a
/// configuration; nothing when all is well.
pub open spec fn validation_problem(names: Seq<Seq<char>>, configs: Seq<StageConfig>) -> Option<
    Seq<char>,
> {
    if names.len() == 0 {
        Some("pipeline has no stages"@)
    } else if exists|j: int| first_repeat(names, j) {
        let j = choose|j: int| first_repeat(names, j);
        Some("duplicate stage name: "@ + names[j])
    } else if exists|k: int| first_unconfigured(names, configs, k) {
        let k = choose|k: int| first_unconfigured(names, configs, k);
        Some("stage '"@ + names[k] + "' has no matching config"@)
    } else {
        None
    }
}

/// The overall compression ratio of a run: output over input, or 1 when
/// the input is empty.
pub open spec fn overall_ratio(output_len: nat, input_len: nat) -> Ratio {
    if input_len > 0 {
        Ratio { num: output_len as usize, den: input_len as usize }
    } else {
        Ratio { num: 1, den: 1 }
    }
}

/// Whether `r` reports on stage `i`, named `name`, turning `data_in` into
/// `data_out` with `tiles` tiles.
pub open spec fn reports_step(
    r: StageReport,
    stages: Seq<Box<dyn PipelineStage>>,
    i: int,
    name: Seq<char>,
    data_in: Seq<u8>,
    data_out: Seq<u8>,
    tiles: nat,
) -> bool {
    &&& r.name@ == name
    &&& stages[i].kinds(r.stage_type)
    &&& r.input_bytes == data_in.len()
    &&& r.output_bytes == data_out.len()
    &&& r.tiles_count == tiles
    &&& r.cr == byte_ratio(data_out.len(), data_in.len())
}

/// Whether `report` reports the run recorded by `names`, `trace` and
/// `tiles`.
pub open spec fn reports_run(
    report: PipelineReport,
    id: uuid::Uuid,
    stages: Seq<Box<dyn PipelineStage>>,
    names: Seq<Seq<char>>,
    trace: Seq<Seq<u8>>,
    tiles: Seq<nat>,
) -> bool {
    &&& report.pipeline_id == id
    &&& report.stages@.len() == stages.len()
    &&& forall|i: int|
        0 <= i < stages.len() ==> reports_step(
            #[trigger] report.stages@[i],
            stages,
            i,
            names[i],
            trace[i],
            trace[i + 1],
            tiles[i],
        )
    &&& report.input_bytes == trace[0].len()
    &&& report.output_bytes == trace.last().len()
    &&& report.overall_cr == overall_ratio(trace.last().len(), trace[0].len())
}

/// Whether `r` reports on stage `i` of an estimated run on `input_len`
/// bytes, with kinds `kinds` and estimated output sizes `estimates`: the
/// stage takes the estimate before it (the first takes `input_len`), costs
/// no time, and has its kind's estimated ratio and tile count.
pub open spec fn estimates_step(
    r: StageReport,
    stages: Seq<Box<dyn PipelineStage>>,
    i: int,
    input_len: usize,
    kinds: Seq<StageType>,
    estimates: Seq<usize>,
) -> bool {
    &&& stages[i].names(r.name@)
    &&& r.stage_type == kinds[i]
    &&& r.duration_ms == 0
    &&& r.input_bytes == (if i == 0 {
        input_len
    } else {
        estimates[i - 1]
    })
    &&& r.output_bytes == estimates[i]
    &&& r.tiles_count == estimate_tiles_spec(kinds[i], input_len as nat)
    &&& r.cr == estimate_ratio_spec(kinds[i])
}

/// Whether `r` reports an estimated run of `stages` on `input_len` bytes
/// with kinds `kinds` and estimated output sizes `estimates`: one report per
/// stage, 10 ms per stage in all, and the last estimate as the output size.
pub open spec fn is_estimate_report(
    r: PipelineReport,
    id: uuid::Uuid,
    stages: Seq<Box<dyn PipelineStage>>,
    input_len: usize,
    kinds: Seq<StageType>,
    estimates: Seq<usize>,
) -> bool {
    &&& r.pipeline_id == id
    &&& r.stages@.len() == stages.len()
    &&& forall|i: int|
        0 <= i < stages.len() ==> estimates_step(
            #[trigger] r.stages@[i],
            stages,
            i,
            input_len,
            kinds,
            estimates,
        )
    &&& r.total_duration_ms == stages.len() * 10
    &&& r.input_bytes == input_len
    &&& r.output_bytes == (if estimates.len() == 0 {
        input_len
    } else {
        estimates.last()
    })
    &&& r.overall_cr == overall_ratio(r.output_bytes as nat, input_len as nat)
}

/// Whether `estimates` are what `scale` may give, stage by stage, from
/// `input_len` and the estimated ratios of `kinds`.
pub open spec fn scaled_chain<F: Fn(usize, Ratio) -> usize>(
    scale: F,
    input_len: usize,
    kinds: Seq<StageType>,
    estimates: Seq<usize>,
) -> bool {
    &&& estimates.len() == kinds.len()
    &&& forall|i: int|
        0 <= i < estimates.len() ==> call_ensures(
            scale,
            (
                if i == 0 {
                    input_len
                } else {
                    estimates[i - 1]
                },
                estimate_ratio_spec(kinds[i]),
            ),
            #[trigger] estimates[i],
        )
}

/// The estimated size ratio of a stage kind.
pub open spec fn estimate_ratio_spec(t: StageType) -> Ratio {
    match t {
        StageType::Decompose => Ratio { num: 11, den: 10 },
        StageType::Transform => Ratio { num: 1, den: 1 },
        StageType::Assemble => Ratio { num: 9, den: 10 },
        StageType::Filter => Ratio { num: 1, den: 2 },
        StageType::Branch => Ratio { num: 2, den: 1 },
        StageType::Merge => Ratio { num: 7, den: 10 },
    }
}

/// The estimated tile count of a stage kind on input of `input_len` bytes.
pub open spec fn estimate_tiles_spec(t: StageType, input_len: nat) -> nat {
    match t {
        StageType::Decompose => if input_len / 64 > 1 {
            input_len / 64
        } else {
            1
        },
        StageType::Assemble => 1,
        _ => if input_len / 128 > 1 {
            input_len / 128
        } else {
            1
        },
    }
}

/// The estimated size ratio of a stage kind: decomposition 1.1, transform
/// 1.0, assembly 0.9, filter 0.5, branch 2.0, merge 0.7.
pub fn estimate_ratio(t: StageType) -> (r: Ratio)
    ensures
        r == estimate_ratio_spec(t),
{
    match t {
        StageType::Decompose => Ratio { num: 11, den: 10 },
        StageType::Transform => Ratio { num: 1, den: 1 },
        StageType::Assemble => Ratio { num: 9, den: 10 },
        StageType::Filter => Ratio { num: 1, den: 2 },
        StageType::Branch => Ratio { num: 2, den: 1 },
        StageType::Merge => Ratio { num: 7, den: 10 },
    }
}

/// The estimated tile count of a stage kind on `input_len` bytes: one per
/// 64 bytes for decomposition, one for assembly, one per 128 bytes
/// otherwise, and at least one.
pub fn estimate_tiles(t: StageType, input_len: usize) -> (r: usize)
    ensures
        r == estimate_tiles_spec(t, input_len as nat),
{
    match t {
        StageType::Decompose => if input_len / 64 > 1 {
            input_len / 64
        } else {
            1
        },
        StageType::Assemble => 1,
        _ => if input_len / 128 > 1 {
            input_len / 128
        } else {
            1
        },
    }
}

/// Runs configured stages in order.
pub struct Pipeline {
    config: PipelineConfig,
    stages: Vec<Box<dyn PipelineStage>>,
}

/// Whether two texts are equal, one given as a `String`.
fn same_name(a: &String, b: &str) -> (r: bool)
    ensures
        r == (a@ == b@),
{
    let x = chars_of(a.as_str());
    let y = chars_of(b);
    text_eq(&x, &y)
}

/// The parameters that `configs` gives the stage named `name`, when some
/// configuration has that name.
fn params_for<'a>(configs: &'a Vec<StageConfig>, name: &str) -> (r: Option<&'a StringMap>)
    ensures
        r matches Some(p) ==> p@ == config_params(configs@, name@),
        r is None ==> config_params(configs@, name@) == Map::<Seq<char>, Seq<char>>::empty(),
        r is Some <==> has_config(configs@, name@),
{
    let mut i: usize = 0;
    assert(configs@.skip(0) =~= configs@);
    while i < configs.len()
        invariant
            i <= configs.len(),
            config_params(configs@, name@) == config_params(configs@.skip(i as int), name@),
            forall|j: int| 0 <= j < i ==> #[trigger] configs@[j].name@ != name@,
        decreases configs.len() - i,
    {
        assert(configs@.skip(i as int)[0] == configs@[i as int]);
        if same_name(&configs[i].name, name) {
            return Some(&configs[i].params);
        }
        assert(configs@.skip(i as int).drop_first() =~= configs@.skip(i + 1));
        i = i + 1;
    }
    assert(configs@.skip(i as int) =~= Seq::<StageConfig>::empty());
    None
}

impl Pipeline {
    /// The pipeline's configuration.
    pub closed spec fn spec_config(&self) -> PipelineConfig {
        self.config
    }

    /// The pipeline's stages, in the order they run.
    pub closed spec fn spec_stages(&self) -> Seq<Box<dyn PipelineStage>> {
        self.stages@
    }

    /// A pipeline with `config` and no stages.
    pub fn new(config: PipelineConfig) -> (r: Pipeline)
        ensures
            r.spec_config() == config,
            r.spec_stages() == Seq::<Box<dyn PipelineStage>>::empty(),
            r.spec_stages().len() == 0,
    {
        let stages: Vec<Box<dyn PipelineStage>> = Vec::new();
        assert(stages@.len() == 0);
        Pipeline { config, stages }
    }

    /// The pipeline with `stage` added after the others.
    pub fn add_stage(self, stage: Box<dyn PipelineStage>) -> (r: Pipeline)
        ensures
            r.spec_config() == self.spec_config(),
            r.spec_stages() == self.spec_stages().push(stage),
            r.spec_stages().len() == self.spec_stages().len() + 1,
            forall|i: int|
                0 <= i < self.spec_stages().len() ==> #[trigger] r.spec_stages()[i]
                    == self.spec_stages()[i],
    {
        let ghost before = self.stages@;
        let mut p = self;
        p.stages.push(stage);
        proof {
            vstd::seq::axiom_seq_push_len(before, stage);
            assert forall|i: int| 0 <= i < before.len() implies #[trigger] p.stages@[i] == before[i] by {
                vstd::seq::axiom_seq_push_index_different(before, stage, i);
            }
        }
        p
    }

    /// The pipeline's configuration.
    pub fn config(&self) -> (r: &PipelineConfig)
        ensures
            *r == self.spec_config(),
    {
        &self.config
    }

    /// The number of stages.
    pub fn stage_count(&self) -> (r: usize)
        ensures
            r == self.spec_stages().len(),
    {
        self.stages.len()
    }

    /// The kinds of the stages, in order.
    pub fn stage_types(&self) -> (r: Vec<StageType>)
        ensures
            r@.len() == self.spec_stages().len(),
            forall|i: int| 0 <= i < r@.len() ==> self.spec_stages()[i].kinds(#[trigger] r@[i]),
    {
        let mut r: Vec<StageType> = Vec::new();
        let mut i: usize = 0;
        while i < self.stages.len()
            invariant
                i <= self.stages@.len(),
                r@.len() == i,
                forall|k: int| 0 <= k < i ==> self.stages@[k].kinds(#[trigger] r@[k]),
            decreases self.stages.len() - i,
        {
            r.push(self.stages[i].stage_type());
            i = i + 1;
        }
        r
    }

    /// The names of the stages, in order.
    fn stage_names(&self) -> (r: Vec<String>)
        ensures
            r@.len() == self.spec_stages().len(),
            named(self.spec_stages(), r@.map_values(|s: String| s@)),
    {
        let mut r: Vec<String> = Vec::new();
        let mut i: usize = 0;
        while i < self.stages.len()
            invariant
                i <= self.stages@.len(),
                r@.len() == i,
                forall|k: int| 0 <= k < i ==> self.stages@[k].names((#[trigger] r@[k])@),
            decreases self.stages.len() - i,
        {
            r.push(self.stages[i].name().to_owned());
            i = i + 1;
        }
        let ghost ns = r@.map_values(|s: String| s@);
        assert forall|k: int| 0 <= k < ns.len() implies self.spec_stages()[k].names(#[trigger] ns[k]) by {
            assert(ns[k] == r@[k]@);
        }
        r
    }

    /// Runs every stage in order, each on the output of the one before
    /// (the first on `input`), with the parameters that the configuration
    /// gives the name the stage reports; returns the last output and a
    /// report.  Fails when there are no stages, or with the error of the
    /// first stage that fails (passed on as the stage gave it).
    pub fn run(&self, input: &[u8]) -> (r: Result<(Vec<u8>, PipelineReport), PipelineError>)
        ensures
            self.spec_stages().len() == 0 ==> r matches Err(PipelineError::EmptyPipeline),
            self.spec_stages().len() > 0 ==> match r {
                Ok((out, report)) => exists|names: Seq<Seq<char>>, trace: Seq<Seq<u8>>, tiles: Seq<nat>|
                    {
                        &&& #[trigger] is_trace(
                            self.spec_stages(),
                            self.spec_config().stages@,
                            names,
                            trace,
                            tiles,
                            self.spec_stages().len() as int,
                        )
                        &&& trace[0] == input@
                        &&& out@ == trace.last()
                        &&& reports_run(
                            report,
                            self.spec_config().id,
                            self.spec_stages(),
                            names,
                            trace,
                            tiles,
                        )
                        &&& forall|i: int|
                            0 <= i < self.spec_stages().len() ==> self.spec_stages()[i].takes(
                                trace[i],
                                config_params(self.spec_config().stages@, names[i]),
                                (#[trigger] report.stages@[i]).duration_ms,
                            )
                    },
                Err(e) => exists|names: Seq<Seq<char>>, trace: Seq<Seq<u8>>, tiles: Seq<nat>, k: int|
                    {
                        &&& 0 <= k < self.spec_stages().len()
                        &&& names.len() == k + 1
                        &&& #[trigger] is_trace(
                            self.spec_stages(),
                            self.spec_config().stages@,
                            names,
                            trace,
                            tiles,
                            k,
                        )
                        &&& trace[0] == input@
                        &&& self.spec_stages()[k].refuses(
                            trace[k],
                            config_params(self.spec_config().stages@, names[k]),
                        )
                        &&& self.spec_stages()[k].fails_with(
                            trace[k],
                            config_params(self.spec_config().stages@, names[k]),
                            e,
                        )
                    },
            },
    {
        if self.stages.len() == 0 {
            return Err(PipelineError::EmptyPipeline);
        }
        let start = clock_now();
        let mut current = copy_bytes(input);
        let ghost stages = self.stages@;
        let ghost configs = self.config.stages@;
        let ghost mut names: Seq<Seq<char>> = seq![];
        let ghost mut trace: Seq<Seq<u8>> = seq![input@];
        let ghost mut tiles: Seq<nat> = seq![];
        let mut reports: Vec<StageReport> = Vec::new();
        let empty = StringMap::new();
        let mut i: usize = 0;
        while i < self.stages.len()
            invariant
                i <= stages.len(),
                stages == self.stages@,
                configs == self.config.stages@,
                empty@ == Map::<Seq<char>, Seq<char>>::empty(),
                names.len() == i,
                is_trace(stages, configs, names, trace, tiles, i as int),
                trace[0] == input@,
                current@ == trace.last(),
                reports@.len() == i,
                forall|k: int|
                    0 <= k < i ==> reports_step(
                        #[trigger] reports@[k],
                        stages,
                        k,
                        names[k],
                        trace[k],
                        trace[k + 1],
                        tiles[k],
                    ),
                forall|k: int|
                    0 <= k < i ==> stages[k].takes(
                        trace[k],
                        config_params(configs, names[k]),
                        (#[trigger] reports@[k]).duration_ms,
                    ),
            decreases self.stages.len() - i,
        {
            let stage = &self.stages[i];
            let name = stage.name();
            let params = match params_for(&self.config.stages, name) {
                Some(p) => p,
                None => &empty,
            };
            assert(*stage == stages[i as int]);
            let ghost prev_names = names;
            proof {
                names = names.push(name@);
                assert forall|m: int| 0 <= m < names.len() implies stages[m].names(#[trigger] names[m]) by {
                    if m < i {
                        assert(names[m] == prev_names[m]);
                    }
                }
                assert forall|m: int| 0 <= m < i implies stages[m].yields(
                    trace[m],
                    config_params(configs, names[m]),
                    trace[m + 1],
                    #[trigger] tiles[m],
                ) by {
                    assert(names[m] == prev_names[m]);
                }
                assert forall|m: int| 0 <= m < i implies reports_step(
                    #[trigger] reports@[m],
                    stages,
                    m,
                    names[m],
                    trace[m],
                    trace[m + 1],
                    tiles[m],
                ) by {
                    assert(names[m] == prev_names[m]);
                }
                assert forall|m: int| 0 <= m < i implies stages[m].takes(
                    trace[m],
                    config_params(configs, names[m]),
                    (#[trigger] reports@[m]).duration_ms,
                ) by {
                    assert(names[m] == prev_names[m]);
                }
            }
            let output = match stage.execute(current.as_slice(), params) {
                Ok(o) => o,
                Err(e) => {
                    assert(is_trace(stages, configs, names, trace, tiles, i as int));
                    assert(stages == self.spec_stages());
                    assert(configs == self.spec_config().stages@);
                    assert(is_trace(self.spec_stages(), self.spec_config().stages@, names, trace, tiles, i as int));
                    assert(self.spec_stages()[i as int].refuses(
                        trace[i as int],
                        config_params(self.spec_config().stages@, names[i as int]),
                    ));
                    assert(self.spec_stages()[i as int].fails_with(
                        trace[i as int],
                        config_params(self.spec_config().stages@, names[i as int]),
                        e,
                    ));
                    return Err(e);
                },
            };
            let report = StageReport {
                name: name.to_owned(),
                stage_type: stage.stage_type(),
                duration_ms: output.duration_ms,
                input_bytes: current.len(),
                output_bytes: output.data.len(),
                tiles_count: output.tiles_count,
                cr: output.cr,
            };
            let ghost prev_trace = trace;
            let ghost prev_tiles = tiles;
            let ghost cur_before = current@;
            current = output.data;
            reports.push(report);
            proof {
                trace = trace.push(current@);
                tiles = tiles.push(output.tiles_count as nat);
                assert(trace[i as int] == cur_before);
                assert(trace[i + 1] == current@);
                assert(tiles[i as int] == output.tiles_count as nat);
                assert(reports@[i as int] == report);
                assert forall|k: int| 0 <= k < i + 1 implies stages[k].yields(
                    trace[k],
                    config_params(configs, names[k]),
                    trace[k + 1],
                    #[trigger] tiles[k],
                ) by {
                    if k < i {
                        assert(prev_tiles[k] == tiles[k]);
                        assert(trace[k] == prev_trace[k] && trace[k + 1] == prev_trace[k + 1]);
                    }
                }
                assert forall|k: int| 0 <= k < i + 1 implies reports_step(
                    #[trigger] reports@[k],
                    stages,
                    k,
                    names[k],
                    trace[k],
                    trace[k + 1],
                    tiles[k],
                ) by {
                    if k < i {
                        assert(prev_tiles[k] == tiles[k]);
                        assert(trace[k] == prev_trace[k] && trace[k + 1] == prev_trace[k + 1]);
                    }
                }
                assert forall|k: int| 0 <= k < i + 1 implies stages[k].takes(
                    trace[k],
                    config_params(configs, names[k]),
                    (#[trigger] reports@[k]).duration_ms,
                ) by {
                    if k < i {
                        assert(trace[k] == prev_trace[k]);
                    }
                }
            }
            i = i + 1;
        }
        let elapsed = elapsed_since(&start);
        let total_duration_ms = whole_millis(&elapsed);
        let output_bytes = current.len();
        let overall_cr = if input.len() > 0 {
            Ratio { num: output_bytes, den: input.len() }
        } else {
            Ratio { num: 1, den: 1 }
        };
        let report = PipelineReport {
            pipeline_id: self.config.id,
            stages: reports,
            total_duration_ms,
            overall_cr,
            input_bytes: input.len(),
            output_bytes,
        };
        assert(is_trace(self.spec_stages(), self.spec_config().stages@, names, trace, tiles, self.spec_stages().len() as int));
        assert(reports_run(report, self.spec_config().id, self.spec_stages(), names, trace, tiles));
        Ok((current, report))
    }

    /// Runs the first stage named `stage_name` on `input`, with the
    /// parameters the configuration gives that name.  Fails with
    /// `StageNotFound` when no stage has the name.
    pub fn run_stage(&self, stage_name: &str, input: &[u8]) -> (r: Result<StageOutput, PipelineError>)
        ensures
            exists|names: Seq<Seq<char>>|
                {
                    &&& #[trigger] named(self.spec_stages(), names)
                    &&& forall|j: int| 0 <= j < names.len() - 1 ==> names[j] != stage_name@
                    &&& if names.len() > 0 && names.last() == stage_name@ {
                        let k = names.len() - 1;
                        let params = config_params(self.spec_config().stages@, stage_name@);
                        &&& (r is Err ==> self.spec_stages()[k].refuses(input@, params))
                        &&& (r matches Err(e) ==> self.spec_stages()[k].fails_with(input@, params, e))
                        &&& (r matches Ok(out) ==> self.spec_stages()[k].takes(input@, params, out.duration_ms))
                        &&& (r matches Ok(out) ==> {
                            &&& self.spec_stages()[k].yields(input@, params, out.data@, out.tiles_count as nat)
                            &&& out.cr == byte_ratio(out.data@.len(), input@.len())
                        })
                    } else {
                        &&& names.len() == self.spec_stages().len()
                        &&& r matches Err(PipelineError::StageNotFound(n)) && n@ == stage_name@
                    }
                },
    {
        let wanted = chars_of(stage_name);
        let ghost mut names: Seq<Seq<char>> = seq![];
        let mut i: usize = 0;
        while i < self.stages.len()
            invariant
                i <= self.stages@.len(),
                wanted@ == stage_name@,
                names.len() == i,
                named(self.stages@, names),
                forall|j: int| 0 <= j < i ==> #[trigger] names[j] != stage_name@,
            decreases self.stages.len() - i,
        {
            let stage = &self.stages[i];
            let name = stage.name();
            let ghost prev = names;
            proof {
                names = names.push(name@);
                assert forall|m: int| 0 <= m < names.len() implies self.stages@[m].names(#[trigger] names[m]) by {
                    if m < i {
                        assert(names[m] == prev[m]);
                    }
                }
            }
            if text_eq(&chars_of(name), &wanted) {
                let empty = StringMap::new();
                let params = match params_for(&self.config.stages, stage_name) {
                    Some(p) => p,
                    None => &empty,
                };
                let r = stage.execute(input, params);
                assert(forall|j: int| 0 <= j < names.len() - 1 ==> names[j] != stage_name@) by {
                    assert forall|j: int| 0 <= j < names.len() - 1 implies names[j] != stage_name@ by {
                        assert(names[j] == prev[j]);
                    }
                }
                assert(named(self.spec_stages(), names));
                return r;
            }
            proof {
                assert forall|j: int| 0 <= j < i + 1 implies #[trigger] names[j] != stage_name@ by {
                    if j < i {
                        assert(names[j] == prev[j]);
                    }
                }
            }
            i = i + 1;
        }
        assert(named(self.spec_stages(), names));
        Err(PipelineError::StageNotFound(stage_name.to_owned()))
    }

    /// Checks that the pipeline has stages, that no two stages share a
    /// name, and that every stage's name has a configuration; the first
    /// problem found is reported (see `validation_problem`).
    pub fn validate(&self) -> (r: Result<(), PipelineError>)
        ensures
            exists|names: Seq<Seq<char>>|
                {
                    &&& #[trigger] named(self.spec_stages(), names)
                    &&& names.len() == self.spec_stages().len()
                    &&& match r {
                        Ok(()) => validation_problem(names, self.spec_config().stages@) is None,
                        Err(e) => e matches PipelineError::Validation(m) && validation_problem(
                            names,
                            self.spec_config().stages@,
                        ) == Some(m@),
                    }
                },
    {
        let owned = self.stage_names();
        let ghost names = owned@.map_values(|s: String| s@);
        if owned.len() == 0 {
            return Err(PipelineError::Validation(String::from_str("pipeline has no stages")));
        }
        let mut j: usize = 0;
        while j < owned.len()
            invariant
                j <= owned@.len(),
                names == owned@.map_values(|s: String| s@),
                names.len() == self.spec_stages().len(),
                named(self.spec_stages(), names),
                forall|m: int| 0 <= m < j ==> !#[trigger] repeats_earlier(names, m),
            decreases owned.len() - j,
        {
            let name_j = chars_of(owned[j].as_str());
            let mut i: usize = 0;
            while i < j
                invariant
                    i <= j < owned@.len(),
                    names == owned@.map_values(|s: String| s@),
                    names.len() == self.spec_stages().len(),
                    named(self.spec_stages(), names),
                    name_j@ == names[j as int],
                    forall|m: int| 0 <= m < j ==> !#[trigger] repeats_earlier(names, m),
                    forall|m: int| 0 <= m < i ==> #[trigger] names[m] != names[j as int],
                decreases j - i,
            {
                let name_i = chars_of(owned[i].as_str());
                if text_eq(&name_i, &name_j) {
                    let mut msg = String::from_str("duplicate stage name: ");
                    msg.append(owned[j].as_str());
                    proof {
                        assert(names[i as int] == names[j as int]);
                        assert(repeats_earlier(names, j as int));
                        assert(first_repeat(names, j as int));
                        assert forall|m: int| #[trigger] first_repeat(names, m) implies m == j by {
                            if m > j {
                                assert(repeats_earlier(names, j as int));
                            } else if m < j {
                                assert(!repeats_earlier(names, m));
                            }
                        }
                        let c = choose|c: int| first_repeat(names, c);
                        assert(c == j);
                        assert(names[j as int] == owned@[j as int]@);
                        assert(msg@ == "duplicate stage name: "@ + names[j as int]);
                        assert(validation_problem(names, self.config.stages@) == Some(msg@));
                        assert(named(self.spec_stages(), names));
                    }
                    return Err(PipelineError::Validation(msg));
                }
                i = i + 1;
            }
            assert(!repeats_earlier(names, j as int));
            j = j + 1;
        }
        assert forall|m: int| !#[trigger] first_repeat(names, m) by {
            if 0 <= m < names.len() {
                assert(!repeats_earlier(names, m));
            }
        }
        let mut k: usize = 0;
        while k < owned.len()
            invariant
                k <= owned@.len(),
                names == owned@.map_values(|s: String| s@),
                names.len() == self.spec_stages().len(),
                named(self.spec_stages(), names),
                forall|m: int| !#[trigger] first_repeat(names, m),
                forall|m: int| 0 <= m < k ==> has_config(self.config.stages@, #[trigger] names[m]),
            decreases owned.len() - k,
        {
            let name = owned[k].as_str();
            if params_for(&self.config.stages, name).is_none() {
                let mut msg = String::from_str("stage '");
                msg.append(name);
                msg.append("' has no matching config");
                proof {
                    assert(first_unconfigured(names, self.config.stages@, k as int));
                    assert forall|m: int| #[trigger] first_unconfigured(names, self.config.stages@, m) implies m == k by {
                        if m > k {
                            assert(!has_config(self.config.stages@, names[k as int]));
                        } else if m < k {
                            assert(has_config(self.config.stages@, names[m]));
                        }
                    }
                    let c = choose|c: int| first_unconfigured(names, self.config.stages@, c);
                    assert(c == k);
                    assert(names[k as int] == owned@[k as int]@);
                    assert(msg@ == "stage '"@ + names[k as int] + "' has no matching config"@);
                    assert(validation_problem(names, self.config.stages@) == Some(msg@));
                    assert(named(self.spec_stages(), names));
                }
                return Err(PipelineError::Validation(msg));
            }
            k = k + 1;
        }
        assert forall|m: int| !#[trigger] first_unconfigured(names, self.config.stages@, m) by {
            if 0 <= m < names.len() {
                assert(has_config(self.config.stages@, names[m]));
            }
        }
        Ok(())
    }

    /// The report of an estimated run on `input_len` bytes with stage kinds
    /// `kinds`, where `estimates[i]` is the estimated output size of stage
    /// `i` (see `is_estimate_report`).
    fn estimate_report(&self, input_len: usize, kinds: &Vec<StageType>, estimates: &Vec<usize>) -> (r:
        PipelineReport)
        requires
            kinds@.len() == self.spec_stages().len(),
            estimates@.len() == self.spec_stages().len(),
            self.spec_stages().len() * 10 <= u64::MAX,
        ensures
            is_estimate_report(r, self.spec_config().id, self.spec_stages(), input_len, kinds@, estimates@),
    {
        let mut reports: Vec<StageReport> = Vec::new();
        let mut estimated = input_len;
        let mut i: usize = 0;
        while i < self.stages.len()
            invariant
                i <= self.stages@.len(),
                kinds@.len() == self.stages@.len(),
                estimates@.len() == self.stages@.len(),
                estimated == (if i == 0 { input_len } else { estimates@[i - 1] }),
                reports@.len() == i,
                forall|m: int|
                    0 <= m < i ==> estimates_step(
                        #[trigger] reports@[m],
                        self.stages@,
                        m,
                        input_len,
                        kinds@,
                        estimates@,
                    ),
            decreases self.stages.len() - i,
        {
            let t = kinds[i];
            let out_bytes = estimates[i];
            reports.push(
                StageReport {
                    name: self.stages[i].name().to_owned(),
                    stage_type: t,
                    duration_ms: 0,
                    input_bytes: estimated,
                    output_bytes: out_bytes,
                    tiles_count: estimate_tiles(t, input_len),
                    cr: estimate_ratio(t),
                },
            );
            estimated = out_bytes;
            i = i + 1;
        }
        let n = self.stages.len() as u64;
        let overall_cr = if input_len > 0 {
            Ratio { num: estimated, den: input_len }
        } else {
            Ratio { num: 1, den: 1 }
        };
        PipelineReport {
            pipeline_id: self.config.id,
            stages: reports,
            total_duration_ms: n * 10,
            overall_cr,
            input_bytes: input_len,
            output_bytes: estimated,
        }
    }

    /// Estimates a run on `input` without running any stage: each stage's
    /// output size is `scale` applied to the size before it (the input's
    /// size for the first) and to its kind's estimated ratio.
    pub fn dry_run<F: Fn(usize, Ratio) -> usize>(&self, input: &[u8], scale: F) -> (r: PipelineReport)
        requires
            forall|n: usize, ratio: Ratio| call_requires(scale, (n, ratio)),
            self.spec_stages().len() * 10 <= u64::MAX,
        ensures
            exists|kinds: Seq<StageType>, estimates: Seq<usize>|
                {
                    &&& #[trigger] is_estimate_report(
                        r,
                        self.spec_config().id,
                        self.spec_stages(),
                        input@.len() as usize,
                        kinds,
                        estimates,
                    )
                    &&& kinds.len() == self.spec_stages().len()
                    &&& forall|i: int| 0 <= i < kinds.len() ==> self.spec_stages()[i].kinds(#[trigger] kinds[i])
                    &&& scaled_chain(scale, input@.len() as usize, kinds, estimates)
                },
    {
        let kinds = self.stage_types();
        let mut estimates: Vec<usize> = Vec::new();
        let mut estimated = input.len();
        let mut i: usize = 0;
        while i < kinds.len()
            invariant
                i <= kinds@.len(),
                estimates@.len() == i,
                estimated == (if i == 0 { input@.len() as usize } else { estimates@[i - 1] }),
                forall|n: usize, ratio: Ratio| call_requires(scale, (n, ratio)),
                forall|m: int|
                    0 <= m < i ==> call_ensures(
                        scale,
                        (
                            if m == 0 {
                                input@.len() as usize
                            } else {
                                estimates@[m - 1]
                            },
                            estimate_ratio_spec(kinds@[m]),
                        ),
                        #[trigger] estimates@[m],
                    ),
            decreases kinds.len() - i,
        {
            let ratio = estimate_ratio(kinds[i]);
            let out_bytes = scale(estimated, ratio);
            estimates.push(out_bytes);
            estimated = out_bytes;
            i = i + 1;
        }
        let r = self.estimate_report(input.len(), &kinds, &estimates);
        assert(scaled_chain(scale, input@.len() as usize, kinds@, estimates@));
        assert(is_estimate_report(r, self.spec_config().id, self.spec_stages(), input@.len() as usize, kinds@, estimates@));
        r
    }
}

/// A copy of `bytes`.
pub fn copy_bytes(bytes: &[u8]) -> (r: Vec<u8>)
    ensures
        r@ == bytes@,
{
    let mut r: Vec<u8> = Vec::new();
    let mut i: usize = 0;
    while i < bytes.len()
        invariant
            i <= bytes@.len(),
            r@ == bytes@.take(i as int),
        decreases bytes.len() - i,
    {
        r.push(bytes[i]);
        i = i + 1;
        assert(r@ =~= bytes@.take(i as int));
    }
    assert(bytes@.take(i as int) =~= bytes@);
    r
}

} // verus!
