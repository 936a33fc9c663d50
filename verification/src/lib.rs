//! Attributes the bytes of a generated (bundled/minified) JavaScript file to
//! the original source files named by its source map.
//!
//! The pipeline: locate the `//# sourceMappingURL=` directive in a generated
//! file, obtain the raw source-map JSON, decode the VLQ-encoded `mappings`
//! table into absolute positions, and walk that table against the generated
//! file's lines to attribute byte counts per source file.
//!
//! All file and directory reads happen outside this crate: callers hand in
//! file contents, directory listings and sizes as plain values and receive
//! results back.

#![allow(unused_imports)]

use vstd::prelude::*;

pub mod analyzer;
pub mod errors;
pub mod json;
pub mod list;
pub mod parser;
pub mod text;
pub mod utils;
pub mod vlq;

use crate::analyzer::{calculate_size_by_file, spec_analyze, spec_line_lens, SourceMappingInfo};
use crate::errors::MapError;
use crate::json::parse_map_json;
use crate::parser::{
    file_name_of, spec_file_name, spec_reconstruct, RawSourceMapping, SourceMapping,
};
use crate::text::{sort_strings, spec_lines, split_lines, strings_sorted};

verus! {

/// The byte length that the directive line contributes: the length of the
/// last line of `contents`, and 0 when there are no lines.
pub open spec fn spec_map_len(contents: Seq<char>) -> int {
    if spec_lines(contents).len() == 0 {
        0
    } else {
        (vstd::utf8::encode_utf8(spec_lines(contents).last()).len() as usize) as int
    }
}

/// The whole relation between one generated file's inputs and the analysis
/// result for it: `raw` is the parsed map, `r` what the pipeline yields.
///
/// A file without lines fails as empty. Then the `mappings` string must
/// reconstruct ([`spec_reconstruct`]), and the table must be consistent with
/// the file ([`spec_analyze`]); the result carries the raw map's fields with
/// `file` replaced by the path on disk, the two length fields filled in, and
/// the analyzer's exact totals.
pub open spec fn spec_analyzed_file(
    path: Seq<char>,
    contents: Seq<char>,
    source_file_len: u64,
    raw: RawSourceMapping,
    r: Result<SourceMappingInfo, MapError>,
) -> bool {
    if spec_lines(contents).len() == 0 {
        r == Err::<SourceMappingInfo, MapError>(MapError::EmptyFile)
    } else {
        match spec_reconstruct(raw.mappings@) {
            Err(ve) => r == Err::<SourceMappingInfo, MapError>(MapError::Vlq(ve)),
            Ok(ms) => match spec_analyze(spec_line_lens(contents), raw.sources@.len(), ms) {
                Err(ae) => r == Err::<SourceMappingInfo, MapError>(MapError::Analyze(ae)),
                Ok(totals) => {
                    &&& r is Ok
                    &&& {
                        let info = r->Ok_0;
                        &&& info.sum_bytes as int == totals.0
                        &&& info.info_by_file@.map_values(
                            |fi: crate::analyzer::SourceMappingFileInfo| fi.bytes as int,
                        ) == totals.1
                        &&& info.info_by_file@.len() == raw.sources@.len()
                        &&& forall|j: int|
                            0 <= j < info.info_by_file@.len() ==> (
                            #[trigger] info.info_by_file@[j]).file == crate::parser::wrap32(j)
                        &&& info.source_mapping.file@ == path
                        &&& info.source_mapping.source_root == raw.source_root
                        &&& info.source_mapping.sources == raw.sources
                        &&& info.source_mapping.names == raw.names
                        &&& info.source_mapping.mappings@ == ms
                        &&& info.source_mapping.source_file_len == source_file_len
                        &&& info.source_mapping.source_map_len == spec_map_len(contents)
                        &&& info.source_mapping.file_name@ == spec_file_name(path)
                    }
                },
            },
        }
    }
}

/// Runs the reconstructed pipeline on one generated file whose raw map is
/// already parsed: reconstructs the table, fills in the length fields, and
/// analyzes. The exact outcome is [`spec_analyzed_file`].
pub fn analyze_parsed(path: &str, contents: &str, source_file_len: u64, raw: RawSourceMapping) -> (
    r: Result<SourceMappingInfo, MapError>)
    ensures
        spec_analyzed_file(path@, contents@, source_file_len, raw, r),
{
    let lines = split_lines(contents);
    let nl: usize = lines.len();
    proof {
        assert(lines@.map_values(|p: String| p@).len() == spec_lines(contents@).len());
    }
    if nl == 0 {
        return Err(MapError::EmptyFile);
    }
    let last_len: usize = lines[nl - 1].as_str().len();
    proof {
        assert(lines@[nl - 1]@ == lines@.map_values(|p: String| p@)[nl - 1]);
        assert(lines@[nl - 1]@ == spec_lines(contents@).last());
    }
    let mut raw = raw;
    raw.file = path.to_owned();
    let mut sm = match SourceMapping::from_raw(raw) {
        Ok(sm) => sm,
        Err(e) => {
            return Err(e);
        },
    };
    sm.source_file_len = source_file_len;
    sm.source_map_len = last_len as u64;
    calculate_size_by_file(contents, sm)
}

/// Analyzes one generated file: parses the raw map out of its JSON text,
/// reconstructs the mapping table, and attributes byte counts.
///
/// `contents` and `source_file_len` are the generated file's text and size
/// on disk; `json` is the source-map JSON that [`locate_source_map`]
/// (`crate::parser::locate_source_map`) pointed at. What the JSON's fields
/// hold is decided by serde_json, which this crate does not model; given the
/// parsed map, the outcome is exactly [`spec_analyzed_file`].
pub fn handle_file(path: &str, contents: &str, source_file_len: u64, json: &str) -> (r: Result<
    SourceMappingInfo,
    MapError,
>)
    ensures
        spec_lines(contents@).len() == 0 ==> r == Err::<SourceMappingInfo, MapError>(
            MapError::EmptyFile,
        ),
        r matches Err(e) ==> (e is EmptyFile || e is Json || e is Vlq || e is Analyze),
        r matches Ok(info) ==> exists|raw: RawSourceMapping|
            spec_analyzed_file(path@, contents@, source_file_len, raw, r),
{
    let lines = split_lines(contents);
    proof {
        assert(lines@.map_values(|p: String| p@).len() == spec_lines(contents@).len());
    }
    if lines.len() == 0 {
        return Err(MapError::EmptyFile);
    }
    match parse_map_json(json) {
        Err(e) => Err(e),
        Ok(raw) => {
            let ghost raw0 = raw;
            let r = analyze_parsed(path, contents, source_file_len, raw);
            proof {
                // `raw0` is the witness for the postcondition's parsed map.
                assert(spec_analyzed_file(path@, contents@, source_file_len, raw0, r));
            }
            r
        },
    }
}

/// One file of a batch, with everything already read from disk: the path,
/// the file's text and size, and its raw map - or the error that locating,
/// reading or parsing the map left.
pub struct BatchEntry {
    pub path: String,
    pub contents: String,
    pub source_file_len: u64,
    pub map: Result<RawSourceMapping, MapError>,
}

/// A failed file of a batch: its path, the error, and the path's base name
/// for display.
#[derive(Debug)]
pub struct SourceMappingErrorInfo {
    pub file: String,
    pub error: MapError,
    pub file_name: String,
}

impl SourceMappingErrorInfo {
    pub fn new(file: String, error: MapError) -> (r: SourceMappingErrorInfo)
        ensures
            r.file == file,
            r.error == error,
            r.file_name@ == spec_file_name(file@),
    {
        let file_name = file_name_of(file.as_str());
        SourceMappingErrorInfo { file, error, file_name }
    }
}

/// One per-file outcome of a batch: the analysis result, or the error with
/// the file it belongs to.
#[derive(Debug)]
pub enum FileInfoType {
    Info(SourceMappingInfo),
    Failed(SourceMappingErrorInfo),
}

/// How one batch outcome relates to its entry - and to nothing else: an
/// entry that arrived with an error is reported with it, and an entry with a
/// parsed map is analyzed exactly as [`spec_analyzed_file`] says.
pub open spec fn spec_batch_item(entry: BatchEntry, item: FileInfoType) -> bool {
    match entry.map {
        Err(e) => {
            &&& item matches FileInfoType::Failed(ei)
            &&& ei.error == e
            &&& ei.file == entry.path
            &&& ei.file_name@ == spec_file_name(entry.path@)
        },
        Ok(raw) => match item {
            FileInfoType::Info(info) => spec_analyzed_file(
                entry.path@,
                entry.contents@,
                entry.source_file_len,
                raw,
                Ok(info),
            ),
            FileInfoType::Failed(ei) => {
                &&& spec_analyzed_file(
                    entry.path@,
                    entry.contents@,
                    entry.source_file_len,
                    raw,
                    Err(ei.error),
                )
                &&& ei.file == entry.path
                &&& ei.file_name@ == spec_file_name(entry.path@)
            },
        },
    }
}

/// Analyzes a batch of generated files, one outcome per entry, in entry
/// order.
///
/// Each outcome depends on its own entry alone ([`spec_batch_item`]): a
/// failing file is reported with its error and never disturbs the others.
#[verifier::loop_isolation(false)]
pub fn analyze_path(entries: Vec<BatchEntry>) -> (r: Vec<FileInfoType>)
    ensures
        r@.len() == entries@.len(),
        forall|i: int| 0 <= i < entries@.len() ==> spec_batch_item(entries@[i], #[trigger] r@[i]),
{
    let ghost entries0 = entries@;
    let mut entries = entries;
    let n: usize = entries.len();
    let mut rev_out: Vec<FileInfoType> = Vec::new();
    while entries.len() > 0
        invariant
            entries@ == entries0.take(entries@.len() as int),
            rev_out@.len() + entries@.len() == n,
            n == entries0.len(),
            forall|k: int|
                0 <= k < rev_out@.len() ==> spec_batch_item(
                    entries0[n - 1 - k],
                    #[trigger] rev_out@[k],
                ),
        decreases entries@.len(),
    {
        let ghost len0 = entries@.len();
        let entry = match entries.pop() {
            Some(e) => e,
            None => {
                proof {
                    assert(false);
                }
                unreached()
            },
        };
        proof {
            assert(entry == entries0[len0 - 1]);
            assert(entries@ =~= entries0.take(entries@.len() as int));
        }
        let BatchEntry { path, contents, source_file_len, map } = entry;
        let item = match map {
            Err(e) => FileInfoType::Failed(SourceMappingErrorInfo::new(path, e)),
            Ok(raw) => {
                match analyze_parsed(path.as_str(), contents.as_str(), source_file_len, raw) {
                    Ok(info) => FileInfoType::Info(info),
                    Err(e) => FileInfoType::Failed(SourceMappingErrorInfo::new(path, e)),
                }
            },
        };
        rev_out.push(item);
    }
    let mut out: Vec<FileInfoType> = Vec::new();
    while rev_out.len() > 0
        invariant
            out@.len() + rev_out@.len() == n,
            forall|k: int|
                0 <= k < rev_out@.len() ==> spec_batch_item(
                    entries0[n - 1 - k],
                    #[trigger] rev_out@[k],
                ),
            forall|k: int|
                0 <= k < out@.len() ==> spec_batch_item(entries0[k], #[trigger] out@[k]),
        decreases rev_out@.len(),
    {
        let item = match rev_out.pop() {
            Some(e) => e,
            None => {
                proof {
                    assert(false);
                }
                unreached()
            },
        };
        out.push(item);
    }
    out
}

/// The extension of a `/`-separated path, as the file systems' rule has it:
/// the part of the file name after its last `.`, none when the name holds no
/// `.` or only starts with one.
pub open spec fn spec_extension(p: Seq<char>) -> Option<Seq<char>> {
    let name = spec_file_name(p);
    match spec_last_dot(name) {
        None => None,
        Some(d) => if d == 0 {
            None
        } else {
            Some(name.skip(d + 1))
        },
    }
}

/// The index of the last `.` of `name`, if any.
pub open spec fn spec_last_dot(name: Seq<char>) -> Option<int>
    decreases name.len(),
{
    if name.len() == 0 {
        None
    } else if name.last() == '.' {
        Some(name.len() - 1)
    } else {
        spec_last_dot(name.drop_last())
    }
}

proof fn lemma_last_dot_none(name: Seq<char>)
    requires
        forall|i: int| 0 <= i < name.len() ==> name[i] != '.',
    ensures
        spec_last_dot(name) is None,
    decreases name.len(),
{
    if name.len() > 0 {
        lemma_last_dot_none(name.drop_last());
    }
}

proof fn lemma_last_dot_at(name: Seq<char>, k: int)
    requires
        0 <= k < name.len(),
        name[k] == '.',
        forall|i: int| k < i < name.len() ==> name[i] != '.',
    ensures
        spec_last_dot(name) == Some(k),
    decreases name.len(),
{
    if k == name.len() - 1 {
    } else {
        lemma_last_dot_at(name.drop_last(), k);
    }
}

/// True when the path's extension is exactly `js`.
#[verifier::loop_isolation(false)]
pub fn has_js_extension(p: &str) -> (r: bool)
    ensures
        r == (spec_extension(p@) == Some("js"@)),
{
    proof {
        reveal_strlit("js");
    }
    let name = file_name_of(p);
    let name_str = name.as_str();
    let nn: usize = name_str.unicode_len();
    let mut i: usize = nn;
    while i > 0
        invariant
            i <= nn,
            nn == name@.len(),
            name@ == spec_file_name(p@),
            forall|j: int| i <= j < nn ==> name@[j] != '.',
        decreases i,
    {
        if name_str.get_char(i - 1) == '.' {
            proof {
                lemma_last_dot_at(name@, i - 1);
            }
            if i - 1 == 0 {
                return false;
            }
            if nn - i != 2 {
                proof {
                    assert(name@.skip(i as int).len() != 2);
                }
                return false;
            }
            let r = name_str.get_char(i) == 'j' && name_str.get_char(i + 1) == 's';
            proof {
                if r {
                    assert(name@.skip(i as int) =~= "js"@);
                } else {
                    assert(name@.skip(i as int) != "js"@) by {
                        if name@.skip(i as int) == "js"@ {
                            assert(name@.skip(i as int)[0] == 'j');
                            assert(name@.skip(i as int)[1] == 's');
                        }
                    }
                }
            }
            return r;
        }
        i -= 1;
    }
    proof {
        lemma_last_dot_none(name@);
    }
    false
}

/// The generated files a path names, in analysis order: the path itself when
/// it is a file; the `.js` entries of its listing, sorted lexicographically,
/// when it is a directory. Entries without a `js` extension are skipped.
#[verifier::loop_isolation(false)]
pub fn discover_files(path: &str, path_is_dir: bool, dir_entries: Vec<String>) -> (r: Vec<String>)
    ensures
        !path_is_dir ==> r@.len() == 1 && r@[0]@ == path@,
        path_is_dir ==> strings_sorted(r@.map_values(|p: String| p@)),
        path_is_dir ==> r@.map_values(|p: String| p@).to_multiset() == dir_entries@.map_values(
            |p: String| p@,
        ).filter(|e: Seq<char>| spec_extension(e) == Some("js"@)).to_multiset(),
{
    if !path_is_dir {
        let mut r: Vec<String> = Vec::new();
        r.push(path.to_owned());
        return r;
    }
    let ghost views = dir_entries@.map_values(|p: String| p@);
    let ghost pred = |e: Seq<char>| spec_extension(e) == Some("js"@);
    let n: usize = dir_entries.len();
    let mut kept: Vec<String> = Vec::new();
    let mut i: usize = 0;
    proof {
        reveal(Seq::filter);
        assert(views.take(0) =~= Seq::<Seq<char>>::empty());
        assert(views.take(0).filter(pred) =~= Seq::<Seq<char>>::empty());
        assert(kept@.map_values(|p: String| p@) =~= Seq::<Seq<char>>::empty());
    }
    while i < n
        invariant
            i <= n,
            kept@.map_values(|p: String| p@) == views.take(i as int).filter(pred),
        decreases n - i,
    {
        let ghost before = views.take(i as int);
        proof {
            assert(views.take(i + 1) =~= before.push(views[i as int]));
            assert(views.take(i + 1).drop_last() =~= before);
            assert(dir_entries@[i as int]@ == views[i as int]);
        }
        let entry = &dir_entries[i];
        if has_js_extension(entry.as_str()) {
            let ghost kv = kept@.map_values(|p: String| p@);
            kept.push(entry.clone());
            proof {
                reveal(Seq::filter);
                assert(pred(views[i as int]));
                assert(views.take(i + 1).last() == views[i as int]);
                assert(kept@.map_values(|p: String| p@) =~= kv.push(views[i as int]));
                assert(views.take(i + 1).filter(pred) =~= views.take(i as int).filter(pred).push(
                    views[i as int],
                ));
            }
        } else {
            proof {
                reveal(Seq::filter);
                assert(!pred(views[i as int]));
                assert(views.take(i + 1).last() == views[i as int]);
                assert(views.take(i + 1).filter(pred) =~= views.take(i as int).filter(pred));
            }
        }
        i += 1;
    }
    proof {
        assert(views.take(n as int) =~= views);
    }
    sort_strings(kept)
}

} // verus!
