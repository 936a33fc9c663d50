use base64::Engine as _;
use sourcemap_vis::errors::{MapError, VlqError};
use sourcemap_vis::json::parse_map_json;
use sourcemap_vis::parser::{
    locate_source_map, resolve_relative_path, MapSource, RawSourceMapping, SourceMapping,
};
use sourcemap_vis::utils::{get_sources_root, without_relative_part};

fn raw(sources: Vec<String>, mappings: &str) -> RawSourceMapping {
    RawSourceMapping {
        file: "out.js".to_string(),
        source_root: None,
        sources,
        names: vec![],
        mappings: mappings.to_string(),
    }
}

#[test]
fn works_for_example_paths() {
    let test_paths = [
        (
            "../../../node_modules/quasar/src/composables/private/use-tick.js",
            "./test_files/quasar-admin/dist/spa/assets/use-timeout.cdce10a0.js",
        ),
        (
            "../../../src/components/paginations/BasicFilter.vue",
            "./test_files/quasar-admin/dist/spa/assets/BasicFilter.09ac81e1.js",
        ),
    ];

    for (relative_path, relative_to) in test_paths {
        assert_eq!(
            resolve_relative_path(relative_path, relative_to),
            "./test_files/quasar-admin"
        );
    }
}

#[test]
fn line_reset_and_source_accumulation() {
    // Line 0 holds one segment with column delta 2 and source-line delta 1;
    // line 1 holds one segment with column delta 2 and source-column delta 2.
    let sm = SourceMapping::from_raw(raw(vec!["a.js".to_string()], "EACA;EAAE")).unwrap();
    let ms = sm.mappings();
    assert_eq!(ms.len(), 2);
    assert_eq!(ms[0].gen_line(), 0);
    assert_eq!(ms[0].gen_column(), 2);
    assert_eq!(ms[0].src_line(), 1);
    assert_eq!(ms[0].src_column(), 0);
    // The generated column started again from 0 (2, not 4) ...
    assert_eq!(ms[1].gen_line(), 1);
    assert_eq!(ms[1].gen_column(), 2);
    // ... while the source line and column carried across the line break.
    assert_eq!(ms[1].src_line(), 1);
    assert_eq!(ms[1].src_column(), 2);
}

#[test]
fn columns_accumulate_within_a_line() {
    let sm = SourceMapping::from_raw(raw(vec!["a.js".to_string()], "EAAA,EAAA,EAAA")).unwrap();
    let ms = sm.mappings();
    assert_eq!(ms[0].gen_column(), 2);
    assert_eq!(ms[1].gen_column(), 4);
    assert_eq!(ms[2].gen_column(), 6);
}

#[test]
fn empty_chunks_still_count_lines() {
    let sm = SourceMapping::from_raw(raw(vec!["a.js".to_string()], ";;AAAA")).unwrap();
    let ms = sm.mappings();
    assert_eq!(ms.len(), 1);
    assert_eq!(ms[0].gen_line(), 2);
}

#[test]
fn empty_mappings_and_sources_mean_empty_map() {
    let sm = SourceMapping::from_raw(raw(vec![], "")).unwrap();
    assert!(sm.is_empty());
    assert_eq!(sm.mappings().len(), 0);
    let nonempty = SourceMapping::from_raw(raw(vec!["a.js".to_string()], "")).unwrap();
    assert!(!nonempty.is_empty());
}

#[test]
fn vlq_failure_fails_the_whole_map() {
    let r = SourceMapping::from_raw(raw(vec!["a.js".to_string()], "AAAA,!"));
    assert!(matches!(r, Err(MapError::Vlq(VlqError::InvalidChar))));
    let r = SourceMapping::from_raw(raw(vec!["a.js".to_string()], "AAg"));
    assert!(matches!(r, Err(MapError::Vlq(VlqError::Unterminated))));
    let r = SourceMapping::from_raw(raw(vec!["a.js".to_string()], "AA;AAAA"));
    assert!(matches!(r, Err(MapError::Vlq(VlqError::WrongFieldCount))));
}

#[test]
fn file_name_is_the_base_name() {
    let sm = SourceMapping::from_raw(RawSourceMapping {
        file: "dist/spa/out.js".to_string(),
        source_root: None,
        sources: vec![],
        names: vec![],
        mappings: "".to_string(),
    })
    .unwrap();
    assert_eq!(sm.file_name, "out.js");
    let sm = SourceMapping::from_raw(raw(vec![], "")).unwrap();
    assert_eq!(sm.file_name, "out.js");
}

#[test]
fn locate_finds_inline_base64_map() {
    let json = "{\"file\":\"x\",\"sources\":[],\"names\":[],\"mappings\":\"\"}";
    let payload = base64::engine::general_purpose::STANDARD.encode(json);
    let contents = format!(
        "var x = 1;\n//# sourceMappingURL=data:application/json;charset=utf-8;base64,{}",
        payload
    );
    match locate_source_map("dist/out.js", &contents).unwrap() {
        MapSource::Inline(text) => assert_eq!(text, json),
        MapSource::External(p) => panic!("expected an inline map, got path {}", p),
    }
}

#[test]
fn locate_resolves_external_map_path() {
    let contents = "var x = 1;\n//# sourceMappingURL=maps/out.js.map";
    match locate_source_map("dist/out.js", contents).unwrap() {
        MapSource::External(p) => assert_eq!(p, "dist/maps/out.js.map"),
        MapSource::Inline(_) => panic!("expected an external map"),
    }
    match locate_source_map("out.js", contents).unwrap() {
        MapSource::External(p) => assert_eq!(p, "maps/out.js.map"),
        MapSource::Inline(_) => panic!("expected an external map"),
    }
}

#[test]
fn locate_rejects_bad_trailers() {
    assert!(matches!(
        locate_source_map("a.js", ""),
        Err(MapError::EmptyFile)
    ));
    assert!(matches!(
        locate_source_map("a.js", "var x = 1;\nconsole.log(x);"),
        Err(MapError::UnsupportedFormat)
    ));
    assert!(matches!(
        locate_source_map(
            "a.js",
            "x\n//# sourceMappingURL=data:application/json;charset=utf-8"
        ),
        Err(MapError::MissingBase64Marker)
    ));
    assert!(matches!(
        locate_source_map(
            "a.js",
            "x\n//# sourceMappingURL=data:application/json;base64,%%%"
        ),
        Err(MapError::InvalidBase64)
    ));
}

#[test]
fn parse_map_json_reads_all_fields() {
    let json = "{\"file\":\"bundle.js\",\"sourceRoot\":\"webpack://\",\"sources\":[\"a.js\",\"b.js\"],\"names\":[\"n\"],\"mappings\":\"AAAA\"}";
    let raw = parse_map_json(json).unwrap();
    assert_eq!(raw.file, "bundle.js");
    assert_eq!(raw.source_root.as_deref(), Some("webpack://"));
    assert_eq!(raw.sources, vec!["a.js".to_string(), "b.js".to_string()]);
    assert_eq!(raw.names, vec!["n".to_string()]);
    assert_eq!(raw.mappings, "AAAA");
}

#[test]
fn parse_map_json_treats_source_root_as_optional() {
    let json = "{\"file\":\"x\",\"sources\":[],\"names\":[],\"mappings\":\"\"}";
    assert!(parse_map_json(json).unwrap().source_root.is_none());
    let json = "{\"file\":\"x\",\"sourceRoot\":null,\"sources\":[],\"names\":[],\"mappings\":\"\"}";
    assert!(parse_map_json(json).unwrap().source_root.is_none());
}

#[test]
fn parse_map_json_rejects_bad_shapes() {
    assert!(matches!(parse_map_json("{"), Err(MapError::Json(_))));
    assert!(matches!(
        parse_map_json("{\"sources\":[],\"names\":[],\"mappings\":\"\"}"),
        Err(MapError::Json(_))
    ));
    assert!(matches!(
        parse_map_json("{\"file\":3,\"sources\":[],\"names\":[],\"mappings\":\"\"}"),
        Err(MapError::Json(_))
    ));
    assert!(matches!(
        parse_map_json("{\"file\":\"x\",\"sources\":[1],\"names\":[],\"mappings\":\"\"}"),
        Err(MapError::Json(_))
    ));
    assert!(matches!(
        parse_map_json("{\"file\":\"x\",\"sources\":[],\"names\":[],\"mappings\":7}"),
        Err(MapError::Json(_))
    ));
    assert!(matches!(
        parse_map_json("{\"file\":\"x\",\"sources\":[],\"mappings\":\"\"}"),
        Err(MapError::Json(_))
    ));
}

#[test]
fn sources_root_prefers_explicit_root() {
    let mut sm = SourceMapping::from_raw(raw(vec!["../a.js".to_string()], "")).unwrap();
    sm.source_root = Some("webpack://".to_string());
    assert_eq!(sm.sources_root(), "webpack://");
    assert_eq!(get_sources_root(&sm), "webpack://");
}

#[test]
fn sources_root_is_inferred_from_relative_jumps() {
    let mut sm = SourceMapping::from_raw(RawSourceMapping {
        file: "./test_files/quasar-admin/dist/spa/assets/use-timeout.cdce10a0.js".to_string(),
        source_root: None,
        sources: vec![
            "../../../node_modules/quasar/src/composables/private/use-tick.js".to_string(),
        ],
        names: vec![],
        mappings: "".to_string(),
    })
    .unwrap();
    assert_eq!(sm.sources_root(), "./test_files/quasar-admin");
    assert_eq!(get_sources_root(&sm), "./test_files/quasar-admin");
    sm.source_root = Some("".to_string());
    assert_eq!(sm.sources_root(), "./test_files/quasar-admin");
}

#[test]
fn without_relative_part_strips_updirs() {
    assert_eq!(without_relative_part("../../src/a.js"), "src/a.js");
    assert_eq!(without_relative_part("src/a.js"), "src/a.js");
    assert_eq!(without_relative_part("../x"), "x");
}

#[test]
fn invalid_utf8_in_inline_map_is_replaced() {
    let mut bytes = b"{\"file\":\"x\",\"sources\":[\"a".to_vec();
    bytes.push(0xFF);
    bytes.extend_from_slice(b"b\"],\"names\":[],\"mappings\":\"\"}");
    let payload = base64::engine::general_purpose::STANDARD.encode(&bytes);
    let contents = format!(
        "x\n//# sourceMappingURL=data:application/json;base64,{}",
        payload
    );
    let inline = match locate_source_map("x.js", &contents).unwrap() {
        MapSource::Inline(text) => text,
        MapSource::External(p) => panic!("expected an inline map, got {}", p),
    };
    let parsed = parse_map_json(&inline).unwrap();
    assert_eq!(parsed.sources[0], "a\u{FFFD}b");
}
