use forge_pipeline::text_ops::parse_i64_text;
use forge_pipeline::{
    CsvAssembleStage, CsvDecomposeStage, FilterStage, JsonDecomposeStage, MapStage, PipelineError,
    PipelineStage, Ratio, SortStage, StageType, StringMap, TextAssembleStage, TextDecomposeStage,
};

fn params(pairs: &[(&str, &str)]) -> StringMap {
    let mut m = StringMap::new();
    for (k, v) in pairs {
        m.insert(k.to_string(), v.to_string());
    }
    m
}

fn run_ok(stage: &dyn PipelineStage, input: &[u8], p: &StringMap) -> (String, usize) {
    let out = match stage.execute(input, p) {
        Ok(out) => out,
        Err(e) => panic!("stage failed: {}", e.message()),
    };
    assert_eq!(out.cr, Ratio { num: out.data.len(), den: input.len().max(1) });
    (String::from_utf8(out.data).unwrap(), out.tiles_count)
}

#[test]
fn text_decompose_cuts_into_chunks_of_the_given_size() {
    let (text, tiles) = run_ok(&TextDecomposeStage, b"abcdefg", &params(&[("chunk_size", "3")]));
    assert_eq!(text, "abc\n---TILE---\ndef\n---TILE---\ng");
    assert_eq!(tiles, 3);
}

#[test]
fn text_decompose_default_chunk_is_sixty_four() {
    let input = "x".repeat(130);
    let (text, tiles) = run_ok(&TextDecomposeStage, input.as_bytes(), &StringMap::new());
    let expected = format!("{}\n---TILE---\n{}\n---TILE---\nxx", "x".repeat(64), "x".repeat(64));
    assert_eq!(text, expected);
    assert_eq!(tiles, 3);
}

#[test]
fn text_decompose_unparsable_chunk_size_falls_back_to_default() {
    let (text, tiles) = run_ok(&TextDecomposeStage, b"hello", &params(&[("chunk_size", "two")]));
    assert_eq!(text, "hello");
    assert_eq!(tiles, 1);
    let (text, tiles) = run_ok(&TextDecomposeStage, b"abcd", &params(&[("chunk_size", "+2")]));
    assert_eq!(text, "ab\n---TILE---\ncd");
    assert_eq!(tiles, 2);
}

#[test]
fn text_decompose_zero_chunk_size_is_refused() {
    match TextDecomposeStage.execute(b"abc", &params(&[("chunk_size", "0")])) {
        Err(PipelineError::StageExecution(m)) => assert_eq!(m, "chunk_size must be positive"),
        _ => panic!("a zero chunk size must be refused"),
    }
}

#[test]
fn text_decompose_empty_input_has_no_tiles() {
    let (text, tiles) = run_ok(&TextDecomposeStage, b"", &StringMap::new());
    assert_eq!(text, "");
    assert_eq!(tiles, 0);
}

#[test]
fn text_decompose_counts_characters_not_bytes() {
    let (text, tiles) =
        run_ok(&TextDecomposeStage, "h\u{e9}llo".as_bytes(), &params(&[("chunk_size", "2")]));
    assert_eq!(text, "h\u{e9}\n---TILE---\nll\n---TILE---\no");
    assert_eq!(tiles, 3);
}

#[test]
fn text_decompose_replaces_invalid_utf8() {
    let (text, tiles) = run_ok(&TextDecomposeStage, &[0x61, 0xff, 0x62], &StringMap::new());
    assert_eq!(text, "a\u{fffd}b");
    assert_eq!(tiles, 1);
}

#[test]
fn csv_decompose_uses_the_delimiter_parameter() {
    let (text, tiles) =
        run_ok(&CsvDecomposeStage, b"a;b\n1;2\n3;4", &params(&[("delimiter", ";")]));
    assert_eq!(text, "a:1|b:2\na:3|b:4");
    assert_eq!(tiles, 2);
    let (text, _) = run_ok(&CsvDecomposeStage, b"a,b\n1,2", &params(&[("delimiter", "")]));
    assert_eq!(text, "a:1|b:2");
}

#[test]
fn csv_decompose_missing_values_are_empty_and_extra_values_dropped() {
    let (text, tiles) = run_ok(&CsvDecomposeStage, b"a,b,c\n1\n1,2,3,4", &StringMap::new());
    assert_eq!(text, "a:1|b:|c:\na:1|b:2|c:3");
    assert_eq!(tiles, 2);
}

#[test]
fn csv_decompose_skips_blank_rows_and_trims_fields() {
    let (text, tiles) =
        run_ok(&CsvDecomposeStage, b" a , b \r\n\n 1 , 2 \r\n   \n3,4\n", &StringMap::new());
    assert_eq!(text, "a:1|b:2\na:3|b:4");
    assert_eq!(tiles, 2);
}

#[test]
fn csv_decompose_header_only_or_empty_gives_no_tiles() {
    let (text, tiles) = run_ok(&CsvDecomposeStage, b"a,b", &StringMap::new());
    assert_eq!((text.as_str(), tiles), ("", 0));
    let (text, tiles) = run_ok(&CsvDecomposeStage, b"", &StringMap::new());
    assert_eq!((text.as_str(), tiles), ("", 0));
}

#[test]
fn json_decompose_object_members_in_key_order() {
    let (text, tiles) = run_ok(&JsonDecomposeStage, br#"{"b":1,"a":"x"}"#, &StringMap::new());
    assert_eq!(text, "a:\"x\"\nb:1");
    assert_eq!(tiles, 2);
}

#[test]
fn json_decompose_array_elements_rendered_compactly() {
    let (text, tiles) =
        run_ok(&JsonDecomposeStage, br#"[ [1, 2], {"k" : null} ]"#, &StringMap::new());
    assert_eq!(text, "tile_0:[1,2]\ntile_1:{\"k\":null}");
    assert_eq!(tiles, 2);
    let (text, tiles) = run_ok(&JsonDecomposeStage, b"[]", &StringMap::new());
    assert_eq!((text.as_str(), tiles), ("", 0));
}

#[test]
fn json_decompose_numbers_past_nine_elements() {
    let (text, tiles) =
        run_ok(&JsonDecomposeStage, b"[0,1,2,3,4,5,6,7,8,9,10]", &StringMap::new());
    assert!(text.ends_with("\ntile_9:9\ntile_10:10"));
    assert_eq!(tiles, 11);
}

#[test]
fn json_decompose_scalar_root() {
    let (text, tiles) = run_ok(&JsonDecomposeStage, b" 42 ", &StringMap::new());
    assert_eq!(text, "root:42");
    assert_eq!(tiles, 1);
    let (text, _) = run_ok(&JsonDecomposeStage, br#""hi""#, &StringMap::new());
    assert_eq!(text, "root:\"hi\"");
}

#[test]
fn json_decompose_refuses_invalid_json() {
    match JsonDecomposeStage.execute(b"{", &StringMap::new()) {
        Err(PipelineError::StageExecution(m)) => assert!(!m.is_empty()),
        _ => panic!("invalid JSON must be refused"),
    }
}

#[test]
fn filter_equals_ignores_case() {
    let f = FilterStage::new("content", "equals", "Apple");
    let (text, tiles) = run_ok(&f, b"Apple\napple pie\nAPPLE", &StringMap::new());
    assert_eq!(text, "Apple\nAPPLE");
    assert_eq!(tiles, 2);
}

#[test]
fn filter_starts_with_ends_with_and_not_contains() {
    let input: &[u8] = b"tile_0:Hello\ntile_1:world\nTILE_2:help";
    let (text, _) = run_ok(&FilterStage::new("f", "starts_with", "tile_"), input, &StringMap::new());
    assert_eq!(text, "tile_0:Hello\ntile_1:world\nTILE_2:help");
    let (text, _) = run_ok(&FilterStage::new("f", "ends_with", "LD"), input, &StringMap::new());
    assert_eq!(text, "tile_1:world");
    let (text, tiles) =
        run_ok(&FilterStage::new("f", "not_contains", "hel"), input, &StringMap::new());
    assert_eq!(text, "tile_1:world");
    assert_eq!(tiles, 1);
}

#[test]
fn filter_unknown_condition_keeps_every_line() {
    let f = FilterStage::new("f", "matches", "zzz");
    let (text, tiles) = run_ok(&f, b"a\r\nb\n\nc\n", &StringMap::new());
    assert_eq!(text, "a\nb\n\nc");
    assert_eq!(tiles, 4);
}

#[test]
fn filter_contains_and_not_contains_partition_the_lines() {
    let input: &[u8] = b"tile_0:hello\ntile_1:world\ntile_0:foo\nbar";
    let (_, kept) = run_ok(&FilterStage::new("f", "contains", "TILE_0"), input, &StringMap::new());
    let (_, dropped) =
        run_ok(&FilterStage::new("f", "not_contains", "TILE_0"), input, &StringMap::new());
    assert_eq!(kept, 2);
    assert_eq!(kept + dropped, 4);
}

#[test]
fn sort_descending() {
    let s = SortStage::new("val", true);
    let (text, tiles) = run_ok(&s, b"name:alice\nname:charlie\nname:bob", &StringMap::new());
    assert_eq!(text, "name:charlie\nname:bob\nname:alice");
    assert_eq!(tiles, 3);
}

#[test]
fn sort_is_stable_and_uses_the_second_field() {
    let s = SortStage::new("val", false);
    let (text, _) = run_ok(&s, b"x:b:1\ny:a\nz:b:0\nc", &StringMap::new());
    assert_eq!(text, "y:a\nx:b:1\nz:b:0\nc");
    let (text, _) = run_ok(&s, b"b\n:a\na", &StringMap::new());
    assert_eq!(text, ":a\na\nb");
}

#[test]
fn sort_of_sorted_lines_changes_nothing() {
    let s = SortStage::new("val", false);
    let (once, _) = run_ok(&s, b"k:c\nk:a\nk:b", &StringMap::new());
    let (twice, _) = run_ok(&s, once.as_bytes(), &StringMap::new());
    assert_eq!(once, "k:a\nk:b\nk:c");
    assert_eq!(twice, once);
}

#[test]
fn map_stage_applies_the_function_to_each_line() {
    let m = MapStage::new("prefix", |line: &str| format!("> {}", line));
    assert_eq!(m.name(), "prefix");
    assert_eq!(m.stage_type(), StageType::Transform);
    let (text, tiles) = run_ok(&m, "\u{e9}t\u{e9}\n\nend\n".as_bytes(), &StringMap::new());
    assert_eq!(text, "> \u{e9}t\u{e9}\n> \n> end");
    assert_eq!(tiles, 3);
}

#[test]
fn text_assemble_turns_separators_into_line_feeds() {
    let (text, tiles) =
        run_ok(&TextAssembleStage, b"ab\n---TILE---\ncd\n---TILE---\ne", &StringMap::new());
    assert_eq!(text, "ab\ncd\ne");
    assert_eq!(tiles, 1);
    let (text, _) = run_ok(&TextAssembleStage, b"no separators here", &StringMap::new());
    assert_eq!(text, "no separators here");
}

#[test]
fn csv_assemble_takes_the_value_after_each_colon() {
    let c = CsvAssembleStage::new("name,age");
    let (text, tiles) =
        run_ok(&c, b"name:alice|age:30\n\n  \nname:bob|age:25\n", &StringMap::new());
    assert_eq!(text, "name,age\nalice,30\nbob,25");
    assert_eq!(tiles, 1);
    let (text, _) = run_ok(&c, b"x|k:v:w| k : v ", &StringMap::new());
    assert_eq!(text, "name,age\n,v, v ");
}

#[test]
fn csv_assemble_of_nothing_is_the_header() {
    let c = CsvAssembleStage::new("h1,h2");
    let (text, tiles) = run_ok(&c, b"", &StringMap::new());
    assert_eq!(text, "h1,h2");
    assert_eq!(tiles, 1);
}

#[test]
fn stage_names_and_kinds() {
    assert_eq!(TextDecomposeStage.name(), "text_decompose");
    assert_eq!(CsvDecomposeStage.name(), "csv_decompose");
    assert_eq!(JsonDecomposeStage.name(), "json_decompose");
    assert_eq!(FilterStage::new("a", "b", "c").name(), "filter");
    assert_eq!(SortStage::new("a", false).name(), "sort");
    assert_eq!(TextAssembleStage.name(), "text_assemble");
    assert_eq!(CsvAssembleStage::new("h").name(), "csv_assemble");
    assert_eq!(TextDecomposeStage.stage_type(), StageType::Decompose);
    assert_eq!(FilterStage::new("a", "b", "c").stage_type(), StageType::Filter);
    assert_eq!(SortStage::new("a", true).stage_type(), StageType::Transform);
    assert_eq!(CsvAssembleStage::new("h").stage_type(), StageType::Assemble);
}

#[test]
fn integer_values_parse_as_i64_does() {
    let p = |s: &str| parse_i64_text(&s.chars().collect());
    assert_eq!(p("30"), Some(30));
    assert_eq!(p("+5"), Some(5));
    assert_eq!(p("-0"), Some(0));
    assert_eq!(p("007"), Some(7));
    assert_eq!(p("-9223372036854775808"), Some(i64::MIN));
    assert_eq!(p("9223372036854775807"), Some(i64::MAX));
    assert_eq!(p("9223372036854775808"), None);
    assert_eq!(p("99999999999999999999999"), None);
    assert_eq!(p("-"), None);
    assert_eq!(p(""), None);
    assert_eq!(p("12a"), None);
    assert_eq!(p("1.5"), None);
    assert_eq!(p(" 1"), None);
}

#[test]
fn json_records_split_fields_at_the_first_colon() {
    let text: Vec<char> = "name:\"alice\"| age : 30 \n\n  \nx|k:v:w|:\"\"".chars().collect();
    let records = forge_pipeline::assemble::json_records_of(&text);
    let as_strings: Vec<Vec<(String, String)>> = records
        .into_iter()
        .map(|rec| {
            rec.into_iter()
                .map(|(k, v)| (k.into_iter().collect(), v.into_iter().collect()))
                .collect()
        })
        .collect();
    let pair = |k: &str, v: &str| (k.to_string(), v.to_string());
    assert_eq!(
        as_strings,
        vec![
            vec![pair("name", "alice"), pair("age", "30")],
            vec![pair("k", "v:w"), pair("", "")],
        ]
    );
}
