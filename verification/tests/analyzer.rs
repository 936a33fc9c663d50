use sourcemap_vis::analyze_parsed;
use sourcemap_vis::analyzer::calculate_size_by_file;
use sourcemap_vis::errors::{AnalyzeError, MapError};
use sourcemap_vis::parser::{RawSourceMapping, SourceMapping};

fn raw(sources: Vec<String>, mappings: &str) -> RawSourceMapping {
    RawSourceMapping {
        file: "out.js".to_string(),
        source_root: None,
        sources,
        names: vec![],
        mappings: mappings.to_string(),
    }
}

#[test]
fn attribution_conservation_single_mapping_per_line() {
    // One mapping per line: line 0 goes to a.js, line 1 to b.js, and each
    // covers its whole line, so the total is the summed line lengths and the
    // caller-derived remainder accounts for everything else.
    let contents = "aaaa\nbbbbbb\n//# sourceMappingURL=x.map";
    let r = raw(vec!["a.js".to_string(), "b.js".to_string()], "AAAA;ACAA");
    let info = analyze_parsed("out.js", contents, contents.len() as u64, r).unwrap();
    assert_eq!(info.sum_bytes, 10);
    assert_eq!(info.info_by_file.len(), 2);
    assert_eq!(info.info_by_file[0].bytes, 4);
    assert_eq!(info.info_by_file[0].file, 0);
    assert_eq!(info.info_by_file[1].bytes, 6);
    assert_eq!(info.info_by_file[1].file, 1);
    let actual = info.source_mapping.actual_source_file_len();
    let remainder = actual - info.sum_bytes as u64;
    assert_eq!(info.sum_bytes as u64 + remainder, actual);
}

#[test]
fn empty_sourcemap_analyzes_to_zero() {
    let contents = "var x;\n//# sourceMappingURL=x.map";
    let sm = SourceMapping::from_raw(raw(vec![], "")).unwrap();
    assert!(sm.is_empty());
    let info = calculate_size_by_file(contents, sm).unwrap();
    assert_eq!(info.sum_bytes, 0);
    assert!(info.info_by_file.is_empty());
}

#[test]
fn preamble_is_charged_to_the_first_mapping_of_a_line() {
    // Two mappings on one 6-byte line, at columns 2 and 4: the first is also
    // charged the unmapped prefix before it.
    let contents = "abcdef";
    let sm = SourceMapping::from_raw(raw(vec!["a.js".to_string()], "EAAA,EAAA")).unwrap();
    let info = calculate_size_by_file(contents, sm).unwrap();
    assert_eq!(info.info_by_file[0].bytes, 6);
    assert_eq!(info.sum_bytes, 6);
}

#[test]
fn span_runs_to_the_next_mapping_on_the_same_line() {
    let contents = "abcdefgh";
    let sm = SourceMapping::from_raw(
        raw(vec!["a.js".to_string(), "b.js".to_string()], "AAAA,GCAA"),
    )
    .unwrap();
    let info = calculate_size_by_file(contents, sm).unwrap();
    assert_eq!(info.info_by_file[0].bytes, 3);
    assert_eq!(info.info_by_file[1].bytes, 5);
    assert_eq!(info.sum_bytes, 8);
}

#[test]
fn column_underflow_is_an_error() {
    // The segment's column delta is -1, which wraps to a start column far
    // past the line's end.
    let contents = "ab\nx";
    let sm = SourceMapping::from_raw(raw(vec!["a.js".to_string()], "DAAA")).unwrap();
    let r = calculate_size_by_file(contents, sm);
    assert!(matches!(
        r,
        Err(MapError::Analyze(AnalyzeError::ColumnUnderflow))
    ));
}

#[test]
fn mapped_line_must_exist() {
    let contents = "a\nb";
    let sm = SourceMapping::from_raw(raw(vec!["a.js".to_string()], ";;;AAAA")).unwrap();
    let r = calculate_size_by_file(contents, sm);
    assert!(matches!(
        r,
        Err(MapError::Analyze(AnalyzeError::LineOutOfRange))
    ));
}

#[test]
fn mapped_source_must_exist() {
    let contents = "ab";
    let sm = SourceMapping::from_raw(raw(vec![], "AAAA")).unwrap();
    let r = calculate_size_by_file(contents, sm);
    assert!(matches!(
        r,
        Err(MapError::Analyze(AnalyzeError::SourceOutOfRange))
    ));
}

#[test]
fn get_file_name_resolves_source_indices() {
    let contents = "ab";
    let sm = SourceMapping::from_raw(
        raw(vec!["a.js".to_string(), "b.js".to_string()], "AAAA"),
    )
    .unwrap();
    let info = calculate_size_by_file(contents, sm).unwrap();
    assert_eq!(info.get_file_name(0), "a.js");
    assert_eq!(info.get_file_name(1), "b.js");
}
