# forge-pipeline

Pipeline orchestration: stages that decompose, transform, filter and assemble
text, run in order by a `Pipeline` that reports on every step. The library is
written in Verus; each public function states what it returns in its
contract, and the laws that span several functions are proved in `laws.rs`.

## Layout

- `src/types.rs` - configuration, stage outputs, reports, errors, and the
  `PipelineStage` trait, whose spec functions let a stage describe the names,
  kinds, failures and outputs it may give.
- `src/pipeline.rs` - `Pipeline`: `run`, `run_stage`, `validate`, `dry_run`.
- `src/decompose.rs`, `src/transform.rs`, `src/assemble.rs` - the built-in
  stages, each with the spec of the text it produces.
- `src/text.rs`, `src/text_ops.rs`, `src/text_laws.rs` - the text model
  (lines, split, join, trim, replace, chunks) and verified operations on it.
- `src/params.rs` - `StringMap`, the stage parameters (last insert wins).
- `src/outside.rs` - the calls into std, `serde_json` and `uuid`, with the
  contracts the rest relies on.
- `src/laws.rs` - round trips, filter partition, sort uniqueness, report
  chains.
- `app/` - serde-enabled copies of the configuration and report types, reports
  with floating-point ratios, the floating-point size estimate, and JSON
  assembly.

Compression ratios are kept as `Ratio { num, den }` in the library; `app/`
turns them into numbers.
