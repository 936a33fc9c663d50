use base64::Engine as _;
use sourcemap_vis::errors::{MapError, VlqError};
use sourcemap_vis::parser::{locate_source_map, MapSource, RawSourceMapping};
use sourcemap_vis::{analyze_path, discover_files, handle_file, BatchEntry, FileInfoType};

#[test]
fn end_to_end_bundle() {
    // A 1000-byte generated file whose last 42 bytes are the directive line:
    // one 957-byte code line, a newline, and the 42-byte directive. The map
    // attributes the code line 600/357 between a.js and b.js; the newline
    // before the directive belongs to neither, so one byte remains.
    let code = "a".repeat(957);
    let directive = format!("//# sourceMappingURL={}", "x".repeat(21));
    assert_eq!(directive.len(), 42);
    let contents = format!("{}\n{}", code, directive);
    assert_eq!(contents.len(), 1000);
    // Two mappings on line 0: columns 0 (a.js) and 600 (b.js).
    let json = "{\"file\":\"bundle.js\",\"sources\":[\"a.js\",\"b.js\"],\"names\":[],\"mappings\":\"AAAA,wlBCAA\"}";
    let info = handle_file("bundle.js", &contents, 1000, json).unwrap();
    assert_eq!(info.source_mapping.file, "bundle.js");
    assert_eq!(info.source_mapping.source_file_len(), 1000);
    assert_eq!(info.source_mapping.source_map_len(), 42);
    assert_eq!(info.sum_bytes, 957);
    assert_eq!(info.info_by_file[0].bytes, 600);
    assert_eq!(info.info_by_file[1].bytes, 357);
    let actual = info.source_mapping.actual_source_file_len();
    assert_eq!(actual, 958);
    let remainder = actual - info.sum_bytes as u64;
    assert_eq!(remainder, 1);
}

#[test]
fn inline_map_round_trips_through_base64() {
    let json = "{\"file\":\"x\",\"sources\":[\"a.js\"],\"names\":[],\"mappings\":\"AAAA\"}";
    let payload = base64::engine::general_purpose::STANDARD.encode(json);
    let contents = format!(
        "var x;\n//# sourceMappingURL=data:application/json;charset=utf-8;base64,{}",
        payload
    );
    let located = locate_source_map("dist/x.js", &contents).unwrap();
    let inline = match located {
        MapSource::Inline(text) => text,
        MapSource::External(p) => panic!("expected an inline map, got {}", p),
    };
    assert_eq!(inline, json);
    let info = handle_file("dist/x.js", &contents, contents.len() as u64, &inline).unwrap();
    assert_eq!(info.source_mapping.sources()[0], "a.js");
    assert_eq!(info.source_mapping.file_name, "x.js");
}

#[test]
fn empty_file_is_reported_as_such() {
    let r = handle_file("a.js", "", 0, "{}");
    assert!(matches!(r, Err(MapError::EmptyFile)));
}

#[test]
fn malformed_json_is_reported_as_such() {
    let r = handle_file("a.js", "x\n//# sourceMappingURL=y", 24, "{nope");
    assert!(matches!(r, Err(MapError::Json(_))));
}

fn entry(path: &str, contents: &str, mappings: &str) -> BatchEntry {
    BatchEntry {
        path: path.to_string(),
        contents: contents.to_string(),
        source_file_len: contents.len() as u64,
        map: Ok(RawSourceMapping {
            file: path.to_string(),
            source_root: None,
            sources: vec!["a.js".to_string()],
            names: vec![],
            mappings: mappings.to_string(),
        }),
    }
}

#[test]
fn batch_isolation() {
    // One corrupt map between two valid files: exactly one failure, and the
    // two successes are unaffected by it.
    let entries = vec![
        entry("one.js", "abcd\n//# sourceMappingURL=x", "AAAA"),
        entry("two.js", "abcd\n//# sourceMappingURL=x", "AAAA,!"),
        entry("three.js", "abcdefgh\n//# sourceMappingURL=x", "AAAA"),
    ];
    let results = analyze_path(entries);
    assert_eq!(results.len(), 3);
    match &results[0] {
        FileInfoType::Info(info) => {
            assert_eq!(info.source_mapping.file, "one.js");
            assert_eq!(info.sum_bytes, 4);
        }
        FileInfoType::Failed(e) => panic!("one.js failed: {:?}", e.error),
    }
    match &results[1] {
        FileInfoType::Failed(e) => {
            assert_eq!(e.file, "two.js");
            assert_eq!(e.file_name, "two.js");
            assert!(matches!(e.error, MapError::Vlq(VlqError::InvalidChar)));
        }
        FileInfoType::Info(_) => panic!("the corrupt map was accepted"),
    }
    match &results[2] {
        FileInfoType::Info(info) => {
            assert_eq!(info.source_mapping.file, "three.js");
            assert_eq!(info.sum_bytes, 8);
        }
        FileInfoType::Failed(e) => panic!("three.js failed: {:?}", e.error),
    }
}

#[test]
fn batch_reports_map_fetch_errors() {
    let entries = vec![BatchEntry {
        path: "gone/lost.js".to_string(),
        contents: "x\n//# sourceMappingURL=lost.js.map".to_string(),
        source_file_len: 34,
        map: Err(MapError::ExternalMapIo("no such file".to_string())),
    }];
    let results = analyze_path(entries);
    assert_eq!(results.len(), 1);
    match &results[0] {
        FileInfoType::Failed(e) => {
            assert_eq!(e.file, "gone/lost.js");
            assert_eq!(e.file_name, "lost.js");
            assert!(matches!(&e.error, MapError::ExternalMapIo(msg) if msg == "no such file"));
        }
        FileInfoType::Info(_) => panic!("an unreadable map was accepted"),
    }
}

#[test]
fn discovery_is_deterministic() {
    let listing = vec![
        "z.js".to_string(),
        "a.js".to_string(),
        "m.js.map".to_string(),
        "b.js".to_string(),
    ];
    let found = discover_files("some_dir", true, listing);
    assert_eq!(
        found,
        vec!["a.js".to_string(), "b.js".to_string(), "z.js".to_string()]
    );
}

#[test]
fn discovery_of_a_single_file_is_itself() {
    let found = discover_files("dist/bundle.js", false, vec![]);
    assert_eq!(found, vec!["dist/bundle.js".to_string()]);
}

#[test]
fn discovery_skips_extensionless_entries() {
    let listing = vec![
        "Makefile".to_string(),
        "x.js".to_string(),
        ".js".to_string(),
        "y.json".to_string(),
    ];
    let found = discover_files("d", true, listing);
    assert_eq!(found, vec!["x.js".to_string()]);
}

#[test]
fn error_descriptions_are_stable() {
    assert_eq!(MapError::EmptyFile.describe(), "the file is empty");
    assert!(!MapError::InvalidBase64.describe().is_empty());
}
