//! The size-attribution analyzer: walks a reconstructed mapping table
//! against the generated file's lines and charges byte ranges of the
//! generated file to the source files the mappings name.
//!
//! Each mapping's span runs from its column to the next mapping's column on
//! the same line, or to the end of its line. The first mapping of a line is
//! also charged the unmapped prefix of that line (columns 0 to its own),
//! since maps usually skip keywords and punctuation before the first mapped
//! token. A map that contradicts the file - a line or source index out of
//! range, an end column before a start column, or a byte count beyond 32
//! bits - fails with the matching [`AnalyzeError`].

use vstd::prelude::*;

use crate::errors::{AnalyzeError, MapError};
use crate::parser::{wrap32, Mapping, SourceMapping};
use crate::text::{spec_lines, split_lines};

verus! {

/// The bytes attributed to one source file, by its index into `sources`.
#[derive(Debug, Clone, Copy)]
pub struct SourceMappingFileInfo {
    pub bytes: u32,
    pub file: u32,
}

/// The analyzer's result for one generated file: the map it was computed
/// from, the total attributed bytes, and one entry per `sources` index, in
/// `sources` order, zero-valued entries included.
#[derive(Debug)]
pub struct SourceMappingInfo {
    pub source_mapping: SourceMapping,
    pub sum_bytes: u32,
    pub info_by_file: Vec<SourceMappingFileInfo>,
}

impl SourceMappingInfo {
    /// The source path that entry index `file` refers to.
    pub fn get_file_name(&self, file: u32) -> (r: &str)
        requires
            file < self.source_mapping.sources@.len(),
        ensures
            r@ == self.source_mapping.sources@[file as int]@,
    {
        self.source_mapping.sources[file as usize].as_str()
    }
}

/// The byte length of each line of `s`, in `str::lines` order, as `str::len`
/// reports it (a `usize`, which every real string's length fits).
pub open spec fn spec_line_lens(s: Seq<char>) -> Seq<int> {
    spec_lines(s).map_values(|l: Seq<char>| (vstd::utf8::encode_utf8(l).len() as usize) as int)
}

/// One step of the analyzer per mapping, in table order: `sum` and `by` are
/// the totals accumulated so far, one `by` entry per source index.
pub open spec fn rec_analyze(
    lens: Seq<int>,
    ms: Seq<Mapping>,
    i: int,
    sum: int,
    by: Seq<int>,
) -> Result<(int, Seq<int>), AnalyzeError>
    decreases ms.len() - i,
    when 0 <= i <= ms.len()
{
    if i == ms.len() {
        Ok((sum, by))
    } else {
        let m = ms[i];
        if m.src_file >= by.len() {
            Err(AnalyzeError::SourceOutOfRange)
        } else {
            let preamble: int = if i == 0 || m.gen_line != ms[i - 1].gen_line {
                m.gen_column as int
            } else {
                0
            };
            if m.gen_line >= lens.len() {
                Err(AnalyzeError::LineOutOfRange)
            } else {
                let line_len = wrap32(lens[m.gen_line as int]) as int;
                let end_col: int = if i + 1 < ms.len() && ms[i + 1].gen_line == m.gen_line {
                    ms[i + 1].gen_column as int
                } else {
                    line_len
                };
                if end_col < m.gen_column {
                    Err(AnalyzeError::ColumnUnderflow)
                } else {
                    let bytes = preamble + (end_col - m.gen_column);
                    if bytes > u32::MAX {
                        Err(AnalyzeError::ByteCountOverflow)
                    } else if by[m.src_file as int] + bytes > u32::MAX {
                        Err(AnalyzeError::ByteCountOverflow)
                    } else if sum + bytes > u32::MAX {
                        Err(AnalyzeError::ByteCountOverflow)
                    } else {
                        rec_analyze(
                            lens,
                            ms,
                            i + 1,
                            sum + bytes,
                            by.update(m.src_file as int, by[m.src_file as int] + bytes),
                        )
                    }
                }
            }
        }
    }
}

/// What analyzing a table against a file with the given line lengths and
/// `nsrc` sources yields: the total and the per-source byte counts, or the
/// first inconsistency in table order.
pub open spec fn spec_analyze(lens: Seq<int>, nsrc: nat, ms: Seq<Mapping>) -> Result<
    (int, Seq<int>),
    AnalyzeError,
> {
    rec_analyze(lens, ms, 0, 0, Seq::new(nsrc, |j: int| 0int))
}

/// Walks the mapping table against the generated file's text and attributes
/// byte counts to the map's source files.
///
/// On success the totals are exactly what [`spec_analyze`] names for the
/// file's line lengths, and `info_by_file` holds one entry per `sources`
/// index in order. The first inconsistency between map and file fails, and
/// nothing is clamped.
#[verifier::rlimit(60)]
#[verifier::loop_isolation(false)]
pub fn calculate_size_by_file(file_contents: &str, source_mapping: SourceMapping) -> (r: Result<
    SourceMappingInfo,
    MapError,
>)
    ensures
        ({
            let outcome = spec_analyze(
                spec_line_lens(file_contents@),
                source_mapping.sources@.len(),
                source_mapping.mappings@,
            );
            match r {
                Ok(info) => {
                    &&& outcome is Ok
                    &&& info.sum_bytes as int == outcome->Ok_0.0
                    &&& info.info_by_file@.map_values(|fi: SourceMappingFileInfo| fi.bytes as int)
                        == outcome->Ok_0.1
                    &&& info.info_by_file@.len() == source_mapping.sources@.len()
                    &&& forall|j: int|
                        0 <= j < info.info_by_file@.len() ==> (
                        #[trigger] info.info_by_file@[j]).file == wrap32(j)
                    &&& info.source_mapping == source_mapping
                },
                Err(e) => {
                    &&& e matches MapError::Analyze(ae)
                    &&& outcome == Err::<(int, Seq<int>), AnalyzeError>(ae)
                },
            }
        }),
{
    let ghost lens = spec_line_lens(file_contents@);
    let ghost ms = source_mapping.mappings@;
    let file_lines = split_lines(file_contents);
    let nlines: usize = file_lines.len();
    proof {
        assert(file_lines@.map_values(|p: String| p@).len() == spec_lines(file_contents@).len());
        assert(lens.len() == nlines);
    }
    let nsrc: usize = source_mapping.sources.len();
    let mut info_by_file: Vec<SourceMappingFileInfo> = Vec::new();
    let mut file_ctr: u32 = 0;
    let mut j: usize = 0;
    while j < nsrc
        invariant
            j <= nsrc,
            info_by_file@.len() == j,
            file_ctr == wrap32(j as int),
            forall|k: int| 0 <= k < j ==> (#[trigger] info_by_file@[k]).bytes == 0
                && info_by_file@[k].file == wrap32(k),
        decreases nsrc - j,
    {
        info_by_file.push(SourceMappingFileInfo { bytes: 0, file: file_ctr });
        proof {
            crate::parser::lemma_wrap32_add(file_ctr, 1);
            vstd::arithmetic::div_mod::lemma_add_mod_noop(j as int, 1, 0x1_0000_0000);
            vstd::arithmetic::div_mod::lemma_mod_mod(j as int, 1, 0x1_0000_0000);
            assert(wrap32(j as int) as int == (j as int) % 0x1_0000_0000);
            assert(file_ctr + 1 == (j as int) % 0x1_0000_0000 + 1);
        }
        file_ctr = file_ctr.wrapping_add(1);
        j += 1;
    }
    proof {
        assert(info_by_file@.map_values(|fi: SourceMappingFileInfo| fi.bytes as int) =~= Seq::new(
            nsrc as nat,
            |k: int| 0int,
        ));
    }
    let n: usize = source_mapping.mappings.len();
    let mut sum: u32 = 0;
    let mut i: usize = 0;
    while i < n
        invariant
            i <= n,
            info_by_file@.len() == nsrc,
            forall|k: int| 0 <= k < nsrc ==> (#[trigger] info_by_file@[k]).file == wrap32(k),
            spec_analyze(lens, nsrc as nat, ms) == rec_analyze(
                lens,
                ms,
                i as int,
                sum as int,
                info_by_file@.map_values(|fi: SourceMappingFileInfo| fi.bytes as int),
            ),
        decreases n - i,
    {
        let ghost by = info_by_file@.map_values(|fi: SourceMappingFileInfo| fi.bytes as int);
        let m: Mapping = source_mapping.mappings[i];
        if m.src_file() as usize >= nsrc {
            return Err(MapError::Analyze(AnalyzeError::SourceOutOfRange));
        }
        let mut bytes: u32 = 0;
        if i == 0 || m.gen_line() != source_mapping.mappings[i - 1].gen_line() {
            // The unmapped prefix of a fresh line is charged to its first
            // mapped token's source.
            bytes = m.gen_column();
        }
        if m.gen_line() as usize >= nlines {
            return Err(MapError::Analyze(AnalyzeError::LineOutOfRange));
        }
        let line: &String = &file_lines[m.gen_line() as usize];
        proof {
            assert(line@ == file_lines@.map_values(|p: String| p@)[m.gen_line as int]);
            assert(lens[m.gen_line as int] == (vstd::utf8::encode_utf8(line@).len() as usize)
                as int);
        }
        let line_len32: u32 = ((line.as_str().len() as u64) % 0x1_0000_0000) as u32;
        proof {
            assert(line_len32 == wrap32(lens[m.gen_line as int]));
        }
        let end_col: u32 = if i + 1 < n {
            let nx: Mapping = source_mapping.mappings[i + 1];
            if nx.gen_line() == m.gen_line() {
                nx.gen_column()
            } else {
                line_len32
            }
        } else {
            line_len32
        };
        if end_col < m.gen_column() {
            return Err(MapError::Analyze(AnalyzeError::ColumnUnderflow));
        }
        let span: u32 = end_col - m.gen_column();
        bytes = match bytes.checked_add(span) {
            Some(b) => b,
            None => {
                return Err(MapError::Analyze(AnalyzeError::ByteCountOverflow));
            },
        };
        let entry: SourceMappingFileInfo = info_by_file[m.src_file() as usize];
        let new_entry_bytes: u32 = match entry.bytes.checked_add(bytes) {
            Some(b) => b,
            None => {
                return Err(MapError::Analyze(AnalyzeError::ByteCountOverflow));
            },
        };
        let new_sum: u32 = match sum.checked_add(bytes) {
            Some(b) => b,
            None => {
                return Err(MapError::Analyze(AnalyzeError::ByteCountOverflow));
            },
        };
        info_by_file.set(
            m.src_file() as usize,
            SourceMappingFileInfo { bytes: new_entry_bytes, file: entry.file },
        );
        proof {
            assert(info_by_file@.map_values(|fi: SourceMappingFileInfo| fi.bytes as int)
                =~= by.update(m.src_file as int, by[m.src_file as int] + bytes));
        }
        sum = new_sum;
        i += 1;
    }
    Ok(SourceMappingInfo { source_mapping, sum_bytes: sum, info_by_file })
}

/// The summed lengths of the lines that `ms[i ..]` map.
pub open spec fn spec_mapped_line_total(lens: Seq<int>, ms: Seq<Mapping>, i: int) -> int
    decreases ms.len() - i,
    when 0 <= i <= ms.len()
{
    if i == ms.len() {
        0
    } else {
        lens[ms[i].gen_line as int] + spec_mapped_line_total(lens, ms, i + 1)
    }
}

proof fn lemma_mapped_total_nonneg(lens: Seq<int>, ms: Seq<Mapping>, i: int)
    requires
        0 <= i <= ms.len(),
        forall|k: int| 0 <= k < ms.len() ==> ms[k].gen_line < lens.len() && 0 <= lens[(
        #[trigger] ms[k]).gen_line as int],
    ensures
        spec_mapped_line_total(lens, ms, i) >= 0,
    decreases ms.len() - i,
{
    if i < ms.len() {
        lemma_mapped_total_nonneg(lens, ms, i + 1);
    }
}

proof fn lemma_conservation_step(lens: Seq<int>, ms: Seq<Mapping>, i: int, sum: int, by: Seq<int>)
    requires
        0 <= i <= ms.len(),
        forall|a: int, b: int| 0 <= a < b < ms.len() ==> ms[a].gen_line < ms[b].gen_line,
        forall|k: int| 0 <= k < ms.len() ==> (#[trigger] ms[k]).gen_line < lens.len(),
        forall|k: int| 0 <= k < ms.len() ==> (#[trigger] ms[k]).src_file < by.len(),
        forall|k: int| 0 <= k < ms.len() ==> 0 <= lens[(#[trigger] ms[k]).gen_line as int]
            <= u32::MAX && ms[k].gen_column <= lens[ms[k].gen_line as int],
        0 <= sum,
        forall|k: int| 0 <= k < by.len() ==> 0 <= #[trigger] by[k] <= sum,
        sum + spec_mapped_line_total(lens, ms, i) <= u32::MAX,
    ensures
        rec_analyze(lens, ms, i, sum, by) is Ok,
        rec_analyze(lens, ms, i, sum, by)->Ok_0.0 == sum + spec_mapped_line_total(lens, ms, i),
    decreases ms.len() - i,
{
    if i == ms.len() {
    } else {
        let m = ms[i];
        let ll = lens[m.gen_line as int];
        assert(wrap32(ll) == ll) by {
            vstd::arithmetic::div_mod::lemma_fundamental_div_mod_converse_mod(
                ll,
                0x1_0000_0000,
                0,
                ll,
            );
        }
        // Every mapping opens a fresh line, so its span plus the line's
        // unmapped prefix is the whole line.
        if i > 0 {
            assert(ms[i - 1].gen_line < m.gen_line);
        }
        if i + 1 < ms.len() {
            assert(m.gen_line < ms[i + 1].gen_line);
        }
        let bytes = m.gen_column + (ll - m.gen_column);
        assert(bytes == ll);
        lemma_mapped_total_nonneg(lens, ms, i + 1);
        let by2 = by.update(m.src_file as int, by[m.src_file as int] + bytes);
        assert forall|k: int| 0 <= k < by2.len() implies 0 <= #[trigger] by2[k] <= sum + ll by {
            if k != m.src_file as int {
                assert(by2[k] == by[k]);
            }
        }
        lemma_conservation_step(lens, ms, i + 1, sum + ll, by2);
    }
}

/// Law: attribution conserves line coverage. For a well-formed table with
/// one mapping per line - generated lines strictly increasing, each line
/// present in the file, each source index valid, each start column within
/// its line, and the mapped lines' total length within 32 bits - the
/// analyzer succeeds and attributes exactly the summed lengths of the mapped
/// lines. The remainder a caller derives as `actual file size - sum_bytes`
/// then accounts for every unmapped byte: sum and remainder together cover
/// the file's meaningful size.
pub proof fn lemma_attribution_conservation(lens: Seq<int>, nsrc: nat, ms: Seq<Mapping>)
    requires
        forall|a: int, b: int| 0 <= a < b < ms.len() ==> ms[a].gen_line < ms[b].gen_line,
        forall|k: int| 0 <= k < ms.len() ==> (#[trigger] ms[k]).gen_line < lens.len(),
        forall|k: int| 0 <= k < ms.len() ==> (#[trigger] ms[k]).src_file < nsrc,
        forall|k: int| 0 <= k < ms.len() ==> 0 <= lens[(#[trigger] ms[k]).gen_line as int]
            <= u32::MAX && ms[k].gen_column <= lens[ms[k].gen_line as int],
        spec_mapped_line_total(lens, ms, 0) <= u32::MAX,
    ensures
        spec_analyze(lens, nsrc, ms) is Ok,
        spec_analyze(lens, nsrc, ms)->Ok_0.0 == spec_mapped_line_total(lens, ms, 0),
{
    let by = Seq::new(nsrc, |j: int| 0int);
    lemma_conservation_step(lens, ms, 0, 0, by);
}

/// Law: a map with no sources and no mappings analyzes to a zero-valued,
/// empty result, whatever the generated file's lines are.
pub proof fn lemma_empty_map_analysis(lens: Seq<int>)
    ensures
        spec_analyze(lens, 0, Seq::<Mapping>::empty()) == Ok::<(int, Seq<int>), AnalyzeError>(
            (0int, Seq::<int>::empty()),
        ),
{
    assert(Seq::new(0, |j: int| 0int) =~= Seq::<int>::empty());
}

} // verus!
