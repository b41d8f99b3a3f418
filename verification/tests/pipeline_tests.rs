use forge_pipeline::{
    CsvAssembleStage, CsvDecomposeStage, FilterStage, JsonDecomposeStage, MapStage, Pipeline,
    PipelineConfig, SortStage, StageConfig, StageType, StringMap, TextAssembleStage,
    TextDecomposeStage,
};
use uuid::Uuid;

fn make_config(name: &str, stages: Vec<StageConfig>) -> PipelineConfig {
    PipelineConfig {
        id: Uuid::new_v4(),
        name: name.to_string(),
        stages,
        metadata: StringMap::new(),
    }
}

fn make_stage_config(name: &str, stage_type: StageType) -> StageConfig {
    StageConfig {
        name: name.to_string(),
        stage_type,
        params: StringMap::new(),
    }
}

#[test]
fn test_pipeline_creation() {
    let config = make_config("test", vec![]);
    let pipeline = Pipeline::new(config);
    assert_eq!(pipeline.stage_count(), 0);
}

#[test]
fn test_add_stages() {
    let config = make_config(
        "test",
        vec![make_stage_config("text_decompose", StageType::Decompose)],
    );
    let pipeline = Pipeline::new(config).add_stage(Box::new(TextDecomposeStage));
    assert_eq!(pipeline.stage_count(), 1);
}

#[test]
fn test_empty_pipeline_errors() {
    let config = make_config("test", vec![]);
    let pipeline = Pipeline::new(config);
    let result = pipeline.run(b"hello");
    assert!(result.is_err());
}

#[test]
fn test_text_decompose_stage() {
    let config = make_config(
        "test",
        vec![make_stage_config("text_decompose", StageType::Decompose)],
    );
    let pipeline = Pipeline::new(config).add_stage(Box::new(TextDecomposeStage));
    let (output, report) = pipeline.run(b"hello world").unwrap();
    assert!(!output.is_empty());
    assert_eq!(report.stages.len(), 1);
    assert_eq!(report.stages[0].name, "text_decompose");
}

#[test]
fn test_csv_decompose_stage() {
    let config = make_config(
        "test",
        vec![make_stage_config("csv_decompose", StageType::Decompose)],
    );
    let pipeline = Pipeline::new(config).add_stage(Box::new(CsvDecomposeStage));
    let input = b"name,age\nalice,30\nbob,25";
    let (output, report) = pipeline.run(input).unwrap();
    let text = String::from_utf8_lossy(&output);
    assert!(text.contains("name:alice|age:30"));
    assert_eq!(report.stages[0].tiles_count, 2);
}

#[test]
fn test_json_decompose_stage() {
    let config = make_config(
        "test",
        vec![make_stage_config("json_decompose", StageType::Decompose)],
    );
    let pipeline = Pipeline::new(config).add_stage(Box::new(JsonDecomposeStage));
    let input = br#"[{"name":"alice","age":30},{"name":"bob","age":25}]"#;
    let (output, report) = pipeline.run(input).unwrap();
    let text = String::from_utf8_lossy(&output);
    assert!(text.contains("tile_0:"));
    assert!(text.contains("alice"));
    assert_eq!(report.stages[0].tiles_count, 2);
}

#[test]
fn test_filter_stage() {
    let config = make_config("test", vec![make_stage_config("filter", StageType::Filter)]);
    let filter = FilterStage::new("content", "contains", "tile_0");
    let pipeline = Pipeline::new(config).add_stage(Box::new(filter));
    let input = b"tile_0:hello\ntile_1:world\ntile_0:foo";
    let (output, report) = pipeline.run(input).unwrap();
    let text = String::from_utf8_lossy(&output);
    assert!(text.contains("tile_0:hello"));
    assert!(text.contains("tile_0:foo"));
    assert!(!text.contains("tile_1:world"));
    assert_eq!(report.stages[0].tiles_count, 2);
}

#[test]
fn test_sort_stage() {
    let config = make_config("test", vec![make_stage_config("sort", StageType::Transform)]);
    let sort = SortStage::new("val", false);
    let pipeline = Pipeline::new(config).add_stage(Box::new(sort));
    let input = b"name:charlie\nname:alice\nname:bob";
    let (output, _) = pipeline.run(input).unwrap();
    let text = String::from_utf8_lossy(&output);
    let lines: Vec<&str> = text.lines().collect();
    assert_eq!(lines[0], "name:alice");
    assert_eq!(lines[1], "name:bob");
    assert_eq!(lines[2], "name:charlie");
}

#[test]
fn test_multi_stage_pipeline() {
    let config = make_config(
        "multi",
        vec![
            make_stage_config("text_decompose", StageType::Decompose),
            make_stage_config("text_assemble", StageType::Assemble),
        ],
    );
    let pipeline = Pipeline::new(config)
        .add_stage(Box::new(TextDecomposeStage))
        .add_stage(Box::new(TextAssembleStage));
    let (output, report) = pipeline.run(b"hello world").unwrap();
    assert_eq!(report.stages.len(), 2);
    assert!(output.len() > 0);
}

#[test]
fn test_pipeline_report() {
    let config = make_config(
        "test",
        vec![make_stage_config("text_decompose", StageType::Decompose)],
    );
    let pipeline = Pipeline::new(config).add_stage(Box::new(TextDecomposeStage));
    let (_, report) = pipeline.run(b"test data").unwrap();
    assert_eq!(report.pipeline_id, pipeline.config().id);
    assert_eq!(report.input_bytes, 9);
    assert!(report.total_duration_ms < 1000);
    assert_eq!(report.stages.len(), 1);
}

#[test]
fn test_dry_run() {
    let config = make_config(
        "test",
        vec![
            make_stage_config("text_decompose", StageType::Decompose),
            make_stage_config("text_assemble", StageType::Assemble),
        ],
    );
    let pipeline = Pipeline::new(config)
        .add_stage(Box::new(TextDecomposeStage))
        .add_stage(Box::new(TextAssembleStage));
    let report = pipeline.dry_run(b"test input", |n, r| {
        (n as f64 * (r.num as f64 / r.den as f64)) as usize
    });
    assert_eq!(report.stages.len(), 2);
    assert_eq!(report.input_bytes, 10);
}

#[test]
fn test_validate_empty_pipeline() {
    let config = make_config("test", vec![]);
    let pipeline = Pipeline::new(config);
    assert!(pipeline.validate().is_err());
}

#[test]
fn test_validate_success() {
    let config = make_config(
        "test",
        vec![make_stage_config("text_decompose", StageType::Decompose)],
    );
    let pipeline = Pipeline::new(config).add_stage(Box::new(TextDecomposeStage));
    assert!(pipeline.validate().is_ok());
}

#[test]
fn test_run_single_stage_by_name() {
    let config = make_config(
        "test",
        vec![make_stage_config("text_decompose", StageType::Decompose)],
    );
    let pipeline = Pipeline::new(config).add_stage(Box::new(TextDecomposeStage));
    let output = pipeline.run_stage("text_decompose", b"hello").unwrap();
    assert!(output.tiles_count >= 1);
}

#[test]
fn test_run_stage_not_found() {
    let config = make_config("test", vec![]);
    let pipeline = Pipeline::new(config);
    let result = pipeline.run_stage("nonexistent", b"test");
    assert!(result.is_err());
}

#[test]
fn test_map_stage() {
    let config = make_config(
        "test",
        vec![make_stage_config("uppercase", StageType::Transform)],
    );
    let map = MapStage::new("uppercase", |line| line.to_uppercase());
    let pipeline = Pipeline::new(config).add_stage(Box::new(map));
    let (output, _) = pipeline.run(b"hello\nworld").unwrap();
    let text = String::from_utf8_lossy(&output);
    assert!(text.contains("HELLO"));
    assert!(text.contains("WORLD"));
}

#[test]
fn test_csv_round_trip() {
    let config = make_config(
        "test",
        vec![
            make_stage_config("csv_decompose", StageType::Decompose),
            make_stage_config("csv_assemble", StageType::Assemble),
        ],
    );
    let pipeline = Pipeline::new(config)
        .add_stage(Box::new(CsvDecomposeStage))
        .add_stage(Box::new(CsvAssembleStage::new("name,age")));
    let input = b"name,age\nalice,30\nbob,25";
    let (output, report) = pipeline.run(input).unwrap();
    let text = String::from_utf8_lossy(&output);
    assert!(text.contains("alice,30"));
    assert!(text.contains("bob,25"));
    assert_eq!(report.stages.len(), 2);
}
