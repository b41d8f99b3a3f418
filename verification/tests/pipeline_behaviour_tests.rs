use forge_pipeline::pipeline::{estimate_ratio, estimate_tiles};
use forge_pipeline::{
    CsvAssembleStage, CsvDecomposeStage, FilterStage, Pipeline, PipelineConfig, PipelineError,
    Ratio, SortStage, StageConfig, StageType, StringMap, TextAssembleStage, TextDecomposeStage,
};
use uuid::Uuid;

fn stage_config(name: &str, stage_type: StageType, params: &[(&str, &str)]) -> StageConfig {
    let mut p = StringMap::new();
    for (k, v) in params {
        p.insert(k.to_string(), v.to_string());
    }
    StageConfig { name: name.to_string(), stage_type, params: p }
}

fn config(stages: Vec<StageConfig>) -> PipelineConfig {
    PipelineConfig {
        id: Uuid::new_v4(),
        name: "behaviour".to_string(),
        stages,
        metadata: StringMap::new(),
    }
}

fn validation_message(p: &Pipeline) -> String {
    match p.validate() {
        Err(PipelineError::Validation(m)) => m,
        _ => panic!("expected a validation error"),
    }
}

#[test]
fn run_passes_each_output_to_the_next_stage() {
    let cfg = config(vec![
        stage_config("text_decompose", StageType::Decompose, &[("chunk_size", "5")]),
        stage_config("text_assemble", StageType::Assemble, &[]),
    ]);
    let p = Pipeline::new(cfg)
        .add_stage(Box::new(TextDecomposeStage))
        .add_stage(Box::new(TextAssembleStage));
    let (out, report) = p.run(b"hello world").unwrap();
    assert_eq!(out, b"hello\n worl\nd".to_vec());
    assert_eq!(report.stages.len(), 2);
    assert_eq!(report.stages[0].name, "text_decompose");
    assert_eq!(report.stages[0].stage_type, StageType::Decompose);
    assert_eq!(report.stages[0].input_bytes, 11);
    assert_eq!(report.stages[0].output_bytes, 35);
    assert_eq!(report.stages[0].tiles_count, 3);
    assert_eq!(report.stages[0].cr, Ratio { num: 35, den: 11 });
    assert_eq!(report.stages[1].input_bytes, report.stages[0].output_bytes);
    assert_eq!(report.stages[1].output_bytes, 13);
    assert_eq!(report.stages[1].tiles_count, 1);
    assert_eq!(report.input_bytes, 11);
    assert_eq!(report.output_bytes, 13);
    assert_eq!(report.overall_cr, Ratio { num: 13, den: 11 });
    assert_eq!(report.pipeline_id, p.config().id);
}

#[test]
fn run_uses_the_parameters_of_the_stage_configuration() {
    let cfg = config(vec![stage_config("csv_decompose", StageType::Decompose, &[("delimiter", "|")])]);
    let p = Pipeline::new(cfg).add_stage(Box::new(CsvDecomposeStage));
    let (out, _) = p.run(b"a|b\n1|2").unwrap();
    assert_eq!(out, b"a:1|b:2".to_vec());
}

#[test]
fn run_without_a_configuration_uses_no_parameters() {
    let cfg = config(vec![stage_config("other", StageType::Decompose, &[("chunk_size", "1")])]);
    let p = Pipeline::new(cfg).add_stage(Box::new(TextDecomposeStage));
    let (out, report) = p.run(b"abc").unwrap();
    assert_eq!(out, b"abc".to_vec());
    assert_eq!(report.stages[0].tiles_count, 1);
}

#[test]
fn run_stops_at_the_first_failing_stage() {
    let cfg = config(vec![stage_config("text_decompose", StageType::Decompose, &[("chunk_size", "0")])]);
    let p = Pipeline::new(cfg)
        .add_stage(Box::new(TextDecomposeStage))
        .add_stage(Box::new(TextAssembleStage));
    match p.run(b"abc") {
        Err(PipelineError::StageExecution(m)) => assert_eq!(m, "chunk_size must be positive"),
        _ => panic!("the failing stage's error must come back"),
    }
}

#[test]
fn run_on_empty_input_has_ratio_one() {
    let cfg = config(vec![stage_config("csv_assemble", StageType::Assemble, &[])]);
    let p = Pipeline::new(cfg).add_stage(Box::new(CsvAssembleStage::new("h")));
    let (out, report) = p.run(b"").unwrap();
    assert_eq!(out, b"h".to_vec());
    assert_eq!(report.overall_cr, Ratio { num: 1, den: 1 });
    assert_eq!(report.stages[0].cr, Ratio { num: 1, den: 1 });
}

#[test]
fn empty_pipeline_error_is_empty_pipeline() {
    let p = Pipeline::new(config(vec![]));
    assert!(matches!(p.run(b"x"), Err(PipelineError::EmptyPipeline)));
}

#[test]
fn run_stage_runs_only_the_named_stage() {
    let cfg = config(vec![stage_config("sort", StageType::Transform, &[])]);
    let p = Pipeline::new(cfg)
        .add_stage(Box::new(FilterStage::new("f", "contains", "x")))
        .add_stage(Box::new(SortStage::new("v", false)));
    let out = p.run_stage("sort", b"k:b\nk:a").unwrap();
    assert_eq!(out.data, b"k:a\nk:b".to_vec());
    assert_eq!(out.tiles_count, 2);
}

#[test]
fn run_stage_unknown_name_is_stage_not_found() {
    let p = Pipeline::new(config(vec![])).add_stage(Box::new(TextDecomposeStage));
    match p.run_stage("nonexistent", b"test") {
        Err(e) => {
            assert!(matches!(&e, PipelineError::StageNotFound(n) if n == "nonexistent"));
            assert_eq!(e.message(), "stage not found: nonexistent");
        }
        Ok(_) => panic!("no stage has that name"),
    }
}

#[test]
fn validate_reports_an_empty_pipeline() {
    let p = Pipeline::new(config(vec![]));
    assert_eq!(validation_message(&p), "pipeline has no stages");
}

#[test]
fn validate_reports_a_duplicate_name() {
    let cfg = config(vec![stage_config("text_decompose", StageType::Decompose, &[])]);
    let p = Pipeline::new(cfg)
        .add_stage(Box::new(TextDecomposeStage))
        .add_stage(Box::new(TextAssembleStage))
        .add_stage(Box::new(TextDecomposeStage));
    assert_eq!(validation_message(&p), "duplicate stage name: text_decompose");
}

#[test]
fn validate_reports_a_stage_without_configuration() {
    let cfg = config(vec![stage_config("text_decompose", StageType::Decompose, &[])]);
    let p = Pipeline::new(cfg)
        .add_stage(Box::new(TextDecomposeStage))
        .add_stage(Box::new(TextAssembleStage));
    assert_eq!(validation_message(&p), "stage 'text_assemble' has no matching config");
}

#[test]
fn validate_checks_duplicates_before_configurations() {
    let p = Pipeline::new(config(vec![]))
        .add_stage(Box::new(TextAssembleStage))
        .add_stage(Box::new(TextAssembleStage));
    assert_eq!(validation_message(&p), "duplicate stage name: text_assemble");
}

#[test]
fn error_messages() {
    assert_eq!(PipelineError::StageNotFound("a".to_string()).message(), "stage not found: a");
    assert_eq!(
        PipelineError::StageExecution("b".to_string()).message(),
        "stage execution failed: b"
    );
    assert_eq!(PipelineError::Validation("c".to_string()).message(), "validation error: c");
    assert_eq!(PipelineError::EmptyPipeline.message(), "no stages in pipeline");
}

#[test]
fn dry_run_chains_the_estimates() {
    let cfg = config(vec![]);
    let p = Pipeline::new(cfg)
        .add_stage(Box::new(TextDecomposeStage))
        .add_stage(Box::new(TextAssembleStage));
    let report = p.dry_run(b"test input", |n, r| n * r.num / r.den);
    assert_eq!(report.stages.len(), 2);
    assert_eq!(report.stages[0].input_bytes, 10);
    assert_eq!(report.stages[0].output_bytes, 11);
    assert_eq!(report.stages[0].tiles_count, 1);
    assert_eq!(report.stages[0].duration_ms, 0);
    assert_eq!(report.stages[0].cr, Ratio { num: 11, den: 10 });
    assert_eq!(report.stages[1].input_bytes, 11);
    assert_eq!(report.stages[1].output_bytes, 9);
    assert_eq!(report.stages[1].cr, Ratio { num: 9, den: 10 });
    assert_eq!(report.stages[1].name, "text_assemble");
    assert_eq!(report.total_duration_ms, 20);
    assert_eq!(report.input_bytes, 10);
    assert_eq!(report.output_bytes, 9);
    assert_eq!(report.overall_cr, Ratio { num: 9, den: 10 });
}

#[test]
fn dry_run_of_no_stages_keeps_the_input_size() {
    let p = Pipeline::new(config(vec![]));
    let report = p.dry_run(b"abc", |n, r| n * r.num / r.den);
    assert_eq!(report.stages.len(), 0);
    assert_eq!(report.output_bytes, 3);
    assert_eq!(report.total_duration_ms, 0);
    assert_eq!(report.overall_cr, Ratio { num: 3, den: 3 });
}

#[test]
fn estimated_ratios_and_tiles() {
    assert_eq!(estimate_ratio(StageType::Decompose), Ratio { num: 11, den: 10 });
    assert_eq!(estimate_ratio(StageType::Transform), Ratio { num: 1, den: 1 });
    assert_eq!(estimate_ratio(StageType::Assemble), Ratio { num: 9, den: 10 });
    assert_eq!(estimate_ratio(StageType::Filter), Ratio { num: 1, den: 2 });
    assert_eq!(estimate_ratio(StageType::Branch), Ratio { num: 2, den: 1 });
    assert_eq!(estimate_ratio(StageType::Merge), Ratio { num: 7, den: 10 });
    assert_eq!(estimate_tiles(StageType::Decompose, 640), 10);
    assert_eq!(estimate_tiles(StageType::Decompose, 10), 1);
    assert_eq!(estimate_tiles(StageType::Assemble, 100_000), 1);
    assert_eq!(estimate_tiles(StageType::Filter, 1280), 10);
    assert_eq!(estimate_tiles(StageType::Merge, 0), 1);
}

#[test]
fn add_stage_appends_in_order() {
    let p = Pipeline::new(config(vec![]))
        .add_stage(Box::new(FilterStage::new("a", "b", "c")))
        .add_stage(Box::new(TextAssembleStage));
    assert_eq!(p.stage_count(), 2);
    assert_eq!(p.stage_types(), vec![StageType::Filter, StageType::Assemble]);
}

#[test]
fn csv_round_trip_gives_the_table_back() {
    let cfg = config(vec![
        stage_config("csv_decompose", StageType::Decompose, &[]),
        stage_config("csv_assemble", StageType::Assemble, &[]),
    ]);
    let p = Pipeline::new(cfg)
        .add_stage(Box::new(CsvDecomposeStage))
        .add_stage(Box::new(CsvAssembleStage::new("name,age,city")));
    let input: &[u8] = b"name,age,city\nalice,30,paris\nbob,25,oslo";
    let (out, _) = p.run(input).unwrap();
    assert_eq!(out, input.to_vec());
}

#[test]
fn text_round_trip_of_one_tile_gives_the_text_back() {
    let cfg = config(vec![]);
    let p = Pipeline::new(cfg)
        .add_stage(Box::new(TextDecomposeStage))
        .add_stage(Box::new(TextAssembleStage));
    let (out, _) = p.run("caf\u{e9} au lait".as_bytes()).unwrap();
    assert_eq!(out, "caf\u{e9} au lait".as_bytes().to_vec());
}

#[test]
fn string_map_last_insert_wins() {
    let mut m = StringMap::new();
    m.insert("k".to_string(), "1".to_string());
    m.insert("j".to_string(), "2".to_string());
    m.insert("k".to_string(), "3".to_string());
    assert_eq!(m.get("k").map(|s| s.as_str()), Some("3"));
    assert_eq!(m.get("j").map(|s| s.as_str()), Some("2"));
    assert_eq!(m.get("x"), None);
}

#[test]
fn ratio_of_bytes_counts_empty_input_as_one() {
    assert_eq!(Ratio::of_bytes(5, 0), Ratio { num: 5, den: 1 });
    assert_eq!(Ratio::of_bytes(5, 7), Ratio { num: 5, den: 7 });
}

#[test]
fn csv_round_trip_keeps_a_spaced_header_and_empty_values() {
    let p = Pipeline::new(config(vec![]))
        .add_stage(Box::new(CsvDecomposeStage))
        .add_stage(Box::new(CsvAssembleStage::new("name , age\r")));
    let input: &[u8] = b"name , age\r\nalice,\nbob,25";
    let (out, _) = p.run(input).unwrap();
    assert_eq!(out, input.to_vec());
}

#[test]
fn csv_round_trip_loses_values_with_colons() {
    let p = Pipeline::new(config(vec![]))
        .add_stage(Box::new(CsvDecomposeStage))
        .add_stage(Box::new(CsvAssembleStage::new("k,v")));
    let (out, _) = p.run(b"k,v\na,b:c").unwrap();
    assert_eq!(out, b"k,v\na,b".to_vec());
}

#[test]
fn text_round_trip_of_a_text_holding_the_separator_changes_it() {
    let p = Pipeline::new(config(vec![]))
        .add_stage(Box::new(TextDecomposeStage))
        .add_stage(Box::new(TextAssembleStage));
    let (out, _) = p.run(b"a\n---TILE---\nb").unwrap();
    assert_eq!(out, b"a\nb".to_vec());
}

#[test]
fn dry_run_depends_only_on_the_input_length() {
    let cfg = config(vec![stage_config("text_decompose", StageType::Decompose, &[])]);
    let copy = cfg.clone();
    assert_eq!(copy.id, cfg.id);
    let p = Pipeline::new(cfg)
        .add_stage(Box::new(TextDecomposeStage))
        .add_stage(Box::new(FilterStage::new("f", "contains", "x")));
    let scale = |n: usize, r: Ratio| n * r.num / r.den;
    let a = p.dry_run(b"abcdefghij", scale);
    let b = p.dry_run(b"0123456789", scale);
    assert_eq!(a.stages.len(), b.stages.len());
    for (x, y) in a.stages.iter().zip(b.stages.iter()) {
        assert_eq!(x.input_bytes, y.input_bytes);
        assert_eq!(x.output_bytes, y.output_bytes);
        assert_eq!(x.tiles_count, y.tiles_count);
        assert_eq!(x.cr, y.cr);
    }
    assert_eq!(a.output_bytes, 5);
    assert_eq!(a.output_bytes, b.output_bytes);
    assert_eq!(a.overall_cr, b.overall_cr);
}
