//! The source-map parser: the decoded [`Mapping`] record, the reconstruction
//! of the whole mapping table from the raw `mappings` string, and the
//! reconstructed [`SourceMapping`] with its derived fields.
//!
//! Reconstruction splits `mappings` on `;` into one chunk per generated line
//! and each chunk on `,` into segments, decodes every segment with the VLQ
//! decoder, and accumulates the deltas: the generated column restarts from 0
//! on every line, while the source file, line and column carry across the
//! whole table. All accumulation is two's-complement 32-bit arithmetic.

use base64::Engine as _;
use vstd::arithmetic::div_mod::lemma_fundamental_div_mod_converse_mod;
use vstd::prelude::*;

use crate::errors::{MapError, VlqError};
use crate::text::{
    find_sub, lemma_find_sound, spec_find, spec_lines, spec_split, spec_strip_prefix_reps,
    split_lines, split_str, str_starts_with, trim_start_reps,
};
use crate::vlq::{spec_vlq_decode, vlq_decode};

verus! {

/// The value in `0 .. 2^32` that `x` wraps to.
pub open spec fn wrap32(x: int) -> u32 {
    (x % 0x1_0000_0000) as u32
}

pub proof fn lemma_wrap32_add_signed(base: u32, delta: i32)
    ensures
        vstd::wrapping::u32_specs::wrapping_add_signed(base, delta) == wrap32(base + delta),
{
    let m = 0x1_0000_0000int;
    let s = base + delta;
    if s > u32::MAX {
        lemma_fundamental_div_mod_converse_mod(s, m, 1, s - m);
    } else if s < 0 {
        lemma_fundamental_div_mod_converse_mod(s, m, -1, s + m);
    } else {
        lemma_fundamental_div_mod_converse_mod(s, m, 0, s);
    }
}

pub proof fn lemma_wrap32_add(base: u32, step: u32)
    ensures
        vstd::wrapping::u32_specs::wrapping_add(base, step) == wrap32(base + step),
{
    let m = 0x1_0000_0000int;
    let s = base + step;
    if s > u32::MAX {
        lemma_fundamental_div_mod_converse_mod(s, m, 1, s - m);
    } else {
        lemma_fundamental_div_mod_converse_mod(s, m, 0, s);
    }
}

/// One decoded mapping: a position in the generated file and the source
/// position it came from, all absolute and 0-based.
#[derive(Debug, Clone, Copy)]
pub struct Mapping {
    pub gen_line: u32,
    pub gen_column: u32,
    pub src_file: u32,
    pub src_line: u32,
    pub src_column: u32,
}

impl Mapping {
    /// The all-zero mapping, the accumulator seed before any segment.
    pub fn const_default() -> (m: Mapping)
        ensures
            m == Mapping::spec_default(),
    {
        Mapping { gen_line: 0, gen_column: 0, src_file: 0, src_line: 0, src_column: 0 }
    }

    pub open spec fn spec_default() -> Mapping {
        Mapping { gen_line: 0, gen_column: 0, src_file: 0, src_line: 0, src_column: 0 }
    }

    pub fn gen_line(&self) -> (r: u32)
        ensures
            r == self.gen_line,
    {
        self.gen_line
    }

    pub fn gen_column(&self) -> (r: u32)
        ensures
            r == self.gen_column,
    {
        self.gen_column
    }

    pub fn src_file(&self) -> (r: u32)
        ensures
            r == self.src_file,
    {
        self.src_file
    }

    pub fn src_line(&self) -> (r: u32)
        ensures
            r == self.src_line,
    {
        self.src_line
    }

    pub fn src_column(&self) -> (r: u32)
        ensures
            r == self.src_column,
    {
        self.src_column
    }
}

impl Default for Mapping {
    fn default() -> (m: Mapping)
        ensures
            m == Mapping::spec_default(),
    {
        Mapping::const_default()
    }
}

/// The raw source map, exactly as the JSON holds it: `file`, an optional
/// `sourceRoot`, the ordered `sources` and `names` lists, and the still
/// encoded `mappings` string.
#[derive(Debug)]
pub struct RawSourceMapping {
    pub file: String,
    pub source_root: Option<String>,
    pub sources: Vec<String>,
    pub names: Vec<String>,
    pub mappings: String,
}

/// The source-position accumulator carried across the whole table:
/// (source file, source line, source column).
pub type SrcState = (u32, u32, u32);

/// Decoding the segments of one generated line, left to right: `col` is the
/// running generated column (reset to 0 at the line's start), `st` the source
/// state carried from the table so far, `acc` the mappings already produced.
pub open spec fn rec_line(
    segs: Seq<Seq<char>>,
    gl: u32,
    col: u32,
    st: SrcState,
    acc: Seq<Mapping>,
) -> Result<(Seq<Mapping>, SrcState), VlqError>
    decreases segs.len(),
{
    if segs.len() == 0 {
        Ok((acc, st))
    } else {
        match spec_vlq_decode(segs[0]) {
            Err(e) => Err(e),
            Ok(d) => {
                let gc = wrap32(col + d.0);
                let sf = wrap32(st.0 + d.1);
                let sl = wrap32(st.1 + d.2);
                let sc = wrap32(st.2 + d.3);
                rec_line(
                    segs.drop_first(),
                    gl,
                    gc,
                    (sf, sl, sc),
                    acc.push(
                        Mapping {
                            gen_line: gl,
                            gen_column: gc,
                            src_file: sf,
                            src_line: sl,
                            src_column: sc,
                        },
                    ),
                )
            },
        }
    }
}

/// Decoding the line chunks of the table in order: an empty chunk is a
/// generated line without mappings; the source state flows from line to
/// line, while each line's column starts again at 0.
pub open spec fn rec_table(
    chunks: Seq<Seq<char>>,
    gl: u32,
    st: SrcState,
    acc: Seq<Mapping>,
) -> Result<Seq<Mapping>, VlqError>
    decreases chunks.len(),
{
    if chunks.len() == 0 {
        Ok(acc)
    } else if chunks[0].len() == 0 {
        rec_table(chunks.drop_first(), wrap32(gl + 1), st, acc)
    } else {
        match rec_line(spec_split(chunks[0], ','), gl, 0u32, st, acc) {
            Err(e) => Err(e),
            Ok((acc2, st2)) => rec_table(chunks.drop_first(), wrap32(gl + 1), st2, acc2),
        }
    }
}

/// The mapping table that a raw `mappings` string reconstructs to, or the
/// first VLQ failure.
pub open spec fn spec_reconstruct(mappings: Seq<char>) -> Result<Seq<Mapping>, VlqError> {
    rec_table(spec_split(mappings, ';'), 0u32, (0u32, 0u32, 0u32), Seq::empty())
}

/// The part of `f` after its last `/`, or all of `f` if it has none.
pub open spec fn spec_file_name(f: Seq<char>) -> Seq<char>
    decreases f.len(),
{
    if f.len() == 0 {
        f
    } else if f.last() == '/' {
        Seq::empty()
    } else {
        spec_file_name(f.drop_last()).push(f.last())
    }
}

pub proof fn lemma_file_name_no_slash(f: Seq<char>)
    requires
        forall|i: int| 0 <= i < f.len() ==> f[i] != '/',
    ensures
        spec_file_name(f) == f,
    decreases f.len(),
{
    if f.len() > 0 {
        lemma_file_name_no_slash(f.drop_last());
        assert(f.drop_last().push(f.last()) =~= f);
    }
}

pub proof fn lemma_file_name_after_slash(f: Seq<char>, k: int)
    requires
        0 <= k < f.len(),
        f[k] == '/',
        forall|i: int| k < i < f.len() ==> f[i] != '/',
    ensures
        spec_file_name(f) == f.skip(k + 1),
    decreases f.len(),
{
    if k == f.len() - 1 {
        assert(f.skip(k + 1) =~= Seq::<char>::empty());
    } else {
        lemma_file_name_after_slash(f.drop_last(), k);
        assert(f.drop_last().skip(k + 1).push(f.last()) =~= f.skip(k + 1));
    }
}

/// The part of `f` after its last `/`, or all of `f` if it has none.
pub fn file_name_of(f: &str) -> (r: String)
    ensures
        r@ == spec_file_name(f@),
{
    let n: usize = f.unicode_len();
    let mut i: usize = n;
    while i > 0
        invariant
            i <= n,
            n == f@.len(),
            forall|j: int| i <= j < n ==> f@[j] != '/',
        decreases i,
    {
        if f.get_char(i - 1) == '/' {
            proof {
                lemma_file_name_after_slash(f@, i - 1);
                assert(f@.subrange(i as int, n as int) =~= f@.skip(i as int));
            }
            return f.substring_char(i, n).to_owned();
        }
        i -= 1;
    }
    proof {
        lemma_file_name_no_slash(f@);
        assert(f@.subrange(0, n as int) =~= f@);
    }
    f.substring_char(0, n).to_owned()
}

/// A reconstructed source map, plus what presentation needs: the generated
/// file's size on disk and the byte length of its directive line.
#[derive(Debug)]
pub struct SourceMapping {
    pub file: String,
    pub source_root: Option<String>,
    pub sources: Vec<String>,
    pub names: Vec<String>,
    pub mappings: Vec<Mapping>,
    /// Size in bytes of the generated file on disk; not part of the JSON,
    /// filled in by the caller that read the file.
    pub source_file_len: u64,
    /// Byte length of the trailing sourceMappingURL directive line, so its
    /// own footprint can be subtracted from meaningful size.
    pub source_map_len: u64,
    /// The generated file's base name: `file` after its last `/`.
    pub file_name: String,
}

impl SourceMapping {
    pub fn file(&self) -> (r: &str)
        ensures
            r@ == self.file@,
    {
        self.file.as_str()
    }

    pub fn source_root(&self) -> (r: Option<&str>)
        ensures
            match r {
                Some(s) => self.source_root matches Some(v) && s@ == v@,
                None => self.source_root is None,
            },
    {
        match &self.source_root {
            Some(s) => Some(s.as_str()),
            None => None,
        }
    }

    pub fn sources(&self) -> (r: &Vec<String>)
        ensures
            r == &self.sources,
    {
        &self.sources
    }

    pub fn names(&self) -> (r: &Vec<String>)
        ensures
            r == &self.names,
    {
        &self.names
    }

    pub fn mappings(&self) -> (r: &Vec<Mapping>)
        ensures
            r == &self.mappings,
    {
        &self.mappings
    }

    pub fn source_file_len(&self) -> (r: u64)
        ensures
            r == self.source_file_len,
    {
        self.source_file_len
    }

    pub fn source_map_len(&self) -> (r: u64)
        ensures
            r == self.source_map_len,
    {
        self.source_map_len
    }

    /// The generated file's size without the directive line's own footprint;
    /// 0 when the recorded directive is longer than the file itself.
    pub fn actual_source_file_len(&self) -> (r: u64)
        ensures
            r == if self.source_file_len >= self.source_map_len {
                self.source_file_len - self.source_map_len
            } else {
                0
            },
    {
        if self.source_file_len >= self.source_map_len {
            self.source_file_len - self.source_map_len
        } else {
            0
        }
    }

    /// A map with nothing to attribute: no sources and no mappings. A
    /// legitimate state, not an error.
    pub fn is_empty(&self) -> (r: bool)
        ensures
            r == (self.sources@.len() == 0 && self.mappings@.len() == 0),
    {
        self.sources.is_empty() && self.mappings.is_empty()
    }

    /// Decodes the segments of one non-empty line chunk, appending one
    /// mapping per segment to `ms` and advancing the source state, exactly
    /// as [`rec_line`] does from column 0.
    fn decode_line(segs: &Vec<String>, gl: u32, st: (u32, u32, u32), ms: &mut Vec<Mapping>) -> (r:
        Result<(u32, u32, u32), VlqError>)
        ensures
            match r {
                Ok(st2) => rec_line(segs@.map_values(|p: String| p@), gl, 0u32, st, old(ms)@)
                    == Ok::<_, VlqError>((final(ms)@, st2)),
                Err(e) => rec_line(segs@.map_values(|p: String| p@), gl, 0u32, st, old(ms)@)
                    == Err::<(Seq<Mapping>, SrcState), _>(e),
            },
    {
        let ghost seg_views = segs@.map_values(|p: String| p@);
        let nsegs: usize = segs.len();
        let mut col: u32 = 0;
        let mut sf: u32 = st.0;
        let mut sl: u32 = st.1;
        let mut sc: u32 = st.2;
        let mut si: usize = 0;
        proof {
            assert(seg_views.skip(0) =~= seg_views);
        }
        while si < nsegs
            invariant
                si <= nsegs,
                nsegs == seg_views.len(),
                seg_views == segs@.map_values(|p: String| p@),
                nsegs == segs@.len(),
                rec_line(seg_views, gl, 0u32, st, old(ms)@) == rec_line(
                    seg_views.skip(si as int),
                    gl,
                    col,
                    (sf, sl, sc),
                    ms@,
                ),
            decreases nsegs - si,
        {
            let seg: &String = &segs[si];
            proof {
                assert(seg@ == seg_views[si as int]);
                assert(seg_views.skip(si as int)[0] == seg_views[si as int]);
                assert(seg_views.skip(si as int).drop_first() =~= seg_views.skip(si + 1));
            }
            match vlq_decode(seg.as_str()) {
                Err(e) => {
                    return Err(e);
                },
                Ok(d) => {
                    let gc = col.wrapping_add_signed(d[0]);
                    let nf = sf.wrapping_add_signed(d[1]);
                    let nl = sl.wrapping_add_signed(d[2]);
                    let nc = sc.wrapping_add_signed(d[3]);
                    proof {
                        lemma_wrap32_add_signed(col, d@[0]);
                        lemma_wrap32_add_signed(sf, d@[1]);
                        lemma_wrap32_add_signed(sl, d@[2]);
                        lemma_wrap32_add_signed(sc, d@[3]);
                    }
                    let mp = Mapping {
                        gen_line: gl,
                        gen_column: gc,
                        src_file: nf,
                        src_line: nl,
                        src_column: nc,
                    };
                    ms.push(mp);
                    col = gc;
                    sf = nf;
                    sl = nl;
                    sc = nc;
                },
            }
            si += 1;
        }
        proof {
            assert(seg_views.skip(nsegs as int) =~= Seq::<Seq<char>>::empty());
        }
        Ok((sf, sl, sc))
    }

    /// Reconstructs the mapping table from the raw map.
    ///
    /// On success every field of the raw map is carried over, the table is
    /// exactly what [`spec_reconstruct`] names, `file_name` is the base name
    /// of `file`, and the two length fields are 0 until a caller fills them.
    /// The first VLQ failure fails the whole map.
    #[verifier::rlimit(60)]
    #[verifier::loop_isolation(false)]
    pub fn from_raw(raw: RawSourceMapping) -> (r: Result<SourceMapping, MapError>)
        ensures
            match r {
                Ok(sm) => {
                    &&& spec_reconstruct(raw.mappings@) is Ok
                    &&& sm.mappings@ == spec_reconstruct(raw.mappings@)->Ok_0
                    &&& sm.file == raw.file
                    &&& sm.source_root == raw.source_root
                    &&& sm.sources == raw.sources
                    &&& sm.names == raw.names
                    &&& sm.source_file_len == 0
                    &&& sm.source_map_len == 0
                    &&& sm.file_name@ == spec_file_name(raw.file@)
                },
                Err(e) => {
                    &&& e matches MapError::Vlq(ve)
                    &&& spec_reconstruct(raw.mappings@) == Err::<Seq<Mapping>, VlqError>(ve)
                },
            },
    {
        let ghost mstr = raw.mappings@;
        let chunks = split_str(raw.mappings.as_str(), ';');
        let ghost chunk_views = chunks@.map_values(|p: String| p@);
        let nchunks: usize = chunks.len();
        let mut ms: Vec<Mapping> = Vec::new();
        let mut sf: u32 = 0;
        let mut sl: u32 = 0;
        let mut sc: u32 = 0;
        let mut gl: u32 = 0;
        let mut li: usize = 0;
        proof {
            assert(chunk_views.skip(0) =~= chunk_views);
        }
        while li < nchunks
            invariant
                li <= nchunks,
                nchunks == chunk_views.len(),
                chunk_views == chunks@.map_values(|p: String| p@),
                nchunks == chunks@.len(),
                spec_reconstruct(mstr) == rec_table(
                    chunk_views.skip(li as int),
                    gl,
                    (sf, sl, sc),
                    ms@,
                ),
            decreases nchunks - li,
        {
            let chunk: &String = &chunks[li];
            proof {
                assert(chunk@ == chunk_views[li as int]);
                assert(chunk_views.skip(li as int)[0] == chunk_views[li as int]);
                assert(chunk_views.skip(li as int).drop_first() =~= chunk_views.skip(li + 1));
            }
            if chunk.as_str().unicode_len() == 0 {
                // A generated line with no mappings contributes nothing.
            } else {
                let segs = split_str(chunk.as_str(), ',');
                let ghost ms_pre = ms@;
                let ghost st_pre: SrcState = (sf, sl, sc);
                match Self::decode_line(&segs, gl, (sf, sl, sc), &mut ms) {
                    Err(e) => {
                        proof {
                            assert(rec_table(chunk_views.skip(li as int), gl, st_pre, ms_pre)
                                == Err::<Seq<Mapping>, VlqError>(e));
                        }
                        return Err(MapError::Vlq(e));
                    },
                    Ok(st2) => {
                        proof {
                            assert(rec_table(chunk_views.skip(li as int), gl, st_pre, ms_pre)
                                == rec_table(chunk_views.skip(li + 1), wrap32(gl + 1), st2, ms@));
                        }
                        sf = st2.0;
                        sl = st2.1;
                        sc = st2.2;
                    },
                }
            }
            let new_gl = gl.wrapping_add(1);
            proof {
                lemma_wrap32_add(gl, 1);
            }
            gl = new_gl;
            li += 1;
        }
        proof {
            assert(chunk_views.skip(nchunks as int) =~= Seq::<Seq<char>>::empty());
        }
        let file_name = file_name_of(raw.file.as_str());
        Ok(
            SourceMapping {
                file: raw.file,
                source_root: raw.source_root,
                sources: raw.sources,
                names: raw.names,
                mappings: ms,
                source_file_len: 0,
                source_map_len: 0,
                file_name,
            },
        )
    }
}

/// Where the raw source-map JSON of a generated file is found: inline in the
/// directive as a base64 data URI (already decoded to JSON text here), or in
/// an external file at a path resolved against the generated file's parent
/// directory.
#[derive(Debug)]
pub enum MapSource {
    Inline(String),
    External(String),
}

/// The ghost shape of a [`MapSource`].
pub enum MapSourceModel {
    Inline(Seq<char>),
    External(Seq<char>),
}

impl MapSource {
    pub open spec fn model(&self) -> MapSourceModel {
        match self {
            MapSource::Inline(s) => MapSourceModel::Inline(s@),
            MapSource::External(p) => MapSourceModel::External(p@),
        }
    }
}

/// What the standard-alphabet base64 decoder yields for a text, if anything.
pub uninterp spec fn b64_decoded_of(s: Seq<char>) -> Option<Seq<u8>>;

/// Relies on base64's `STANDARD.decode`: whether the text decodes, and to
/// which bytes, is a function of the characters alone; the empty text
/// decodes to no bytes.
#[verifier::external_body]
fn base64_decode(s: &str) -> (r: Option<Vec<u8>>)
    ensures
        r is Some <==> b64_decoded_of(s@) is Some,
        r matches Some(v) ==> b64_decoded_of(s@) == Some(v@),
        s@.len() == 0 ==> r is Some && r->0@.len() == 0,
{
    base64::engine::general_purpose::STANDARD.decode(s).ok()
}

/// The characters that lossy UTF-8 decoding yields for these bytes.
pub uninterp spec fn utf8_lossy_of(bytes: Seq<u8>) -> Seq<char>;

/// Relies on `String::from_utf8_lossy`: invalid sequences are replaced, the
/// result is a function of the bytes alone, and no bytes decode to nothing.
#[verifier::external_body]
fn utf8_lossy(bytes: &Vec<u8>) -> (r: String)
    ensures
        r@ == utf8_lossy_of(bytes@),
        bytes@.len() == 0 ==> r@.len() == 0,
{
    String::from_utf8_lossy(bytes).into_owned()
}

/// The directory part of a `/`-separated path: everything before the last
/// `/`, a lone leading `/` kept, and empty when the path has no `/` at all.
pub open spec fn spec_parent_dir(p: Seq<char>) -> Seq<char>
    decreases p.len(),
{
    if p.len() == 0 {
        p
    } else if p.last() == '/' {
        if p.len() == 1 {
            p
        } else {
            p.drop_last()
        }
    } else {
        spec_parent_dir(p.drop_last())
    }
}

pub proof fn lemma_parent_dir_no_slash(p: Seq<char>)
    requires
        forall|i: int| 0 <= i < p.len() ==> p[i] != '/',
    ensures
        spec_parent_dir(p) == Seq::<char>::empty(),
    decreases p.len(),
{
    if p.len() > 0 {
        lemma_parent_dir_no_slash(p.drop_last());
    }
}

pub proof fn lemma_parent_dir_slash(p: Seq<char>, k: int)
    requires
        0 <= k < p.len(),
        p[k] == '/',
        forall|i: int| k < i < p.len() ==> p[i] != '/',
    ensures
        spec_parent_dir(p) == if k == 0 {
            p.take(1)
        } else {
            p.take(k)
        },
    decreases p.len(),
{
    if k == p.len() - 1 {
        if k == 0 {
            assert(p.take(1) =~= p);
        } else {
            assert(p.drop_last() =~= p.take(k));
        }
    } else {
        lemma_parent_dir_slash(p.drop_last(), k);
        if k == 0 {
            assert(p.drop_last().take(1) =~= p.take(1));
        } else {
            assert(p.drop_last().take(k) =~= p.take(k));
        }
    }
}

/// The directory part of a `/`-separated path.
pub fn parent_dir(p: &str) -> (r: String)
    ensures
        r@ == spec_parent_dir(p@),
{
    let n: usize = p.unicode_len();
    let mut i: usize = n;
    while i > 0
        invariant
            i <= n,
            n == p@.len(),
            forall|j: int| i <= j < n ==> p@[j] != '/',
        decreases i,
    {
        if p.get_char(i - 1) == '/' {
            proof {
                lemma_parent_dir_slash(p@, i - 1);
            }
            if i == 1 {
                proof {
                    assert(p@.subrange(0, 1) =~= p@.take(1));
                }
                return p.substring_char(0, 1).to_owned();
            } else {
                proof {
                    assert(p@.subrange(0, i - 1) =~= p@.take(i - 1));
                }
                return p.substring_char(0, i - 1).to_owned();
            }
        }
        i -= 1;
    }
    proof {
        lemma_parent_dir_no_slash(p@);
    }
    String::new()
}

/// Joining a relative path onto a directory, on `/`-separated paths: an
/// absolute `rel` stands alone, an empty `dir` adds nothing, and otherwise
/// one `/` separates the two.
pub open spec fn spec_join_path(dir: Seq<char>, rel: Seq<char>) -> Seq<char> {
    if rel.len() > 0 && rel[0] == '/' {
        rel
    } else if dir.len() == 0 {
        rel
    } else if dir.last() == '/' {
        dir + rel
    } else {
        dir + seq!['/'] + rel
    }
}

/// Joins a relative path onto a directory.
pub fn join_path(dir: String, rel: &str) -> (r: String)
    ensures
        r@ == spec_join_path(dir@, rel@),
{
    proof {
        reveal_strlit("/");
    }
    let rl: usize = rel.unicode_len();
    if rl > 0 && rel.get_char(0) == '/' {
        return rel.to_owned();
    }
    let dl: usize = dir.as_str().unicode_len();
    if dl == 0 {
        return rel.to_owned();
    }
    let mut out = dir;
    if out.as_str().get_char(dl - 1) != '/' {
        out.append("/");
    }
    out.append(rel);
    proof {
        assert(out@ =~= spec_join_path(dir@, rel@));
    }
    out
}

/// Where the source map of a generated file with these contents is found, or
/// why it cannot be: the exact outcome of the locator.
///
/// The file's last line must carry the `//# sourceMappingURL=` directive. A
/// `data:application/json;` remainder is an inline map: the text after the
/// line's first `base64,` marker is base64-decoded and read as UTF-8,
/// lossily. Any other remainder is a path to an external map file, resolved
/// against the generated file's parent directory.
pub open spec fn spec_locate(path: Seq<char>, contents: Seq<char>) -> Result<
    MapSourceModel,
    MapError,
> {
    let ls = spec_lines(contents);
    if ls.len() == 0 {
        Err(MapError::EmptyFile)
    } else {
        let last = ls.last();
        let stripped = spec_strip_prefix_reps(last, "//# sourceMappingURL="@);
        if stripped.len() == last.len() {
            Err(MapError::UnsupportedFormat)
        } else if ("data:application/json;"@).is_prefix_of(stripped) {
            match spec_find(last, "base64,"@) {
                None => Err(MapError::MissingBase64Marker),
                Some(i) => {
                    let payload = last.skip(i + "base64,"@.len());
                    match b64_decoded_of(payload) {
                        None => Err(MapError::InvalidBase64),
                        Some(bytes) => Ok(MapSourceModel::Inline(utf8_lossy_of(bytes))),
                    }
                },
            }
        } else {
            Ok(MapSourceModel::External(spec_join_path(spec_parent_dir(path), stripped)))
        }
    }
}

/// Locates the source map of the generated file at `path` with `contents`,
/// per [`spec_locate`]: the inline map's JSON text, or the external map
/// file's path for the caller to read.
pub fn locate_source_map(path: &str, contents: &str) -> (r: Result<MapSource, MapError>)
    ensures
        match r {
            Ok(ms) => spec_locate(path@, contents@) == Ok::<MapSourceModel, MapError>(ms.model()),
            Err(e) => spec_locate(path@, contents@) == Err::<MapSourceModel, MapError>(e),
        },
{
    let ls = split_lines(contents);
    let nl: usize = ls.len();
    if nl == 0 {
        proof {
            assert(ls@.map_values(|p: String| p@).len() == 0);
        }
        return Err(MapError::EmptyFile);
    }
    let last: &String = &ls[nl - 1];
    proof {
        assert(last@ == ls@.map_values(|p: String| p@)[nl - 1]);
        assert(last@ == spec_lines(contents@).last());
    }
    let last_str = last.as_str();
    let stripped = trim_start_reps(last_str, "//# sourceMappingURL=");
    if stripped.unicode_len() == last_str.unicode_len() {
        return Err(MapError::UnsupportedFormat);
    }
    if str_starts_with(stripped, "data:application/json;") {
        match find_sub(last_str, "base64,") {
            None => Err(MapError::MissingBase64Marker),
            Some(i) => {
                proof {
                    reveal_strlit("base64,");
                    lemma_find_sound(last@, "base64,"@);
                }
                let ll: usize = last_str.unicode_len();
                let payload = last_str.substring_char(i + 7, ll);
                proof {
                    assert(last@.subrange(i + 7, ll as int) =~= last@.skip(i + "base64,"@.len()));
                }
                match base64_decode(payload) {
                    None => Err(MapError::InvalidBase64),
                    Some(bytes) => Ok(MapSource::Inline(utf8_lossy(&bytes))),
                }
            },
        }
    } else {
        let parent = parent_dir(path);
        let joined = join_path(parent, stripped);
        Ok(MapSource::External(joined))
    }
}

/// The length of the leading run of `.` and `/` characters of `s`.
pub open spec fn dot_slash_prefix_len(s: Seq<char>) -> int
    decreases s.len(),
{
    if s.len() == 0 {
        0
    } else if s[0] == '.' || s[0] == '/' {
        1 + dot_slash_prefix_len(s.drop_first())
    } else {
        0
    }
}

pub proof fn lemma_dot_slash_prefix(s: Seq<char>, k: int)
    requires
        0 <= k <= s.len(),
        forall|i: int| 0 <= i < k ==> s[i] == '.' || s[i] == '/',
    ensures
        dot_slash_prefix_len(s) == k + dot_slash_prefix_len(s.skip(k)),
    decreases k,
{
    if k == 0 {
        assert(s.skip(0) =~= s);
    } else {
        let t = s.drop_first();
        assert forall|i: int| 0 <= i < k - 1 implies t[i] == '.' || t[i] == '/' by {
            assert(t[i] == s[i + 1]);
        }
        lemma_dot_slash_prefix(t, k - 1);
        assert(t.skip(k - 1) =~= s.skip(k));
    }
}

/// The forward index of the `needed`-th `/` of `s`, counting from the end.
pub open spec fn nth_slash_from_end(s: Seq<char>, needed: int) -> Option<int>
    decreases s.len(),
{
    if s.len() == 0 {
        None
    } else if s.last() == '/' {
        if needed <= 1 {
            Some(s.len() - 1)
        } else {
            nth_slash_from_end(s.drop_last(), needed - 1)
        }
    } else {
        nth_slash_from_end(s.drop_last(), needed)
    }
}

/// The length of the leading run of `.` and `/` characters of `s`.
fn dot_slash_run(s: &str) -> (r: usize)
    ensures
        r == dot_slash_prefix_len(s@),
{
    let n: usize = s.unicode_len();
    let mut pl: usize = 0;
    while pl < n
        invariant
            pl <= n,
            n == s@.len(),
            forall|i: int| 0 <= i < pl ==> s@[i] == '.' || s@[i] == '/',
        decreases n - pl,
    {
        let c = s.get_char(pl);
        if c != '.' && c != '/' {
            proof {
                lemma_dot_slash_prefix(s@, pl as int);
                assert(s@.skip(pl as int)[0] == s@[pl as int]);
            }
            return pl;
        }
        pl += 1;
    }
    proof {
        lemma_dot_slash_prefix(s@, n as int);
    }
    n
}

/// How many `../` jumps the head of `relative_path` makes: a third of its
/// leading `.`/`/` run.
pub open spec fn spec_relative_jumps(relative_path: Seq<char>) -> int {
    dot_slash_prefix_len(relative_path) / 3
}

/// `relative_to` cut at the slash where `relative_path`'s upward jumps land:
/// everything before the `(jumps + 1)`-th `/` from the end.
pub open spec fn spec_resolved_root(relative_path: Seq<char>, relative_to: Seq<char>) -> Seq<
    char,
> {
    relative_to.take(nth_slash_from_end(relative_to, spec_relative_jumps(relative_path) + 1)->Some_0)
}

/// Infers where `relative_to`'s directory tree lines up with the upward
/// jumps of `relative_path`: the prefix of `relative_to` before the
/// `(jumps + 1)`-th `/` from the end, where `jumps` is the number of leading
/// `../` components of `relative_path`.
///
/// A heuristic: it requires `relative_path` to hold a character other than
/// `.` and `/`, and `relative_to` to hold enough slashes to climb.
pub fn resolve_relative_path<'a>(relative_path: &'a str, relative_to: &'a str) -> (r: &'a str)
    requires
        dot_slash_prefix_len(relative_path@) < relative_path@.len(),
        nth_slash_from_end(relative_to@, spec_relative_jumps(relative_path@) + 1) is Some,
    ensures
        r@ == spec_resolved_root(relative_path@, relative_to@),
{
    let pl: usize = dot_slash_run(relative_path);
    let needed: usize = pl / 3 + 1;
    let m: usize = relative_to.unicode_len();
    let mut cnt: usize = 0;
    let mut i: usize = m;
    proof {
        assert(relative_to@.take(m as int) =~= relative_to@);
    }
    while i > 0
        invariant
            i <= m,
            m == relative_to@.len(),
            cnt < needed,
            needed == spec_relative_jumps(relative_path@) + 1,
            nth_slash_from_end(relative_to@, needed as int) == nth_slash_from_end(
                relative_to@.take(i as int),
                needed - cnt,
            ),
        decreases i,
    {
        let ghost pre = relative_to@.take(i as int);
        proof {
            assert(pre.last() == relative_to@[i - 1]);
            assert(pre.drop_last() =~= relative_to@.take(i - 1));
        }
        if relative_to.get_char(i - 1) == '/' {
            if cnt + 1 == needed {
                proof {
                    assert(nth_slash_from_end(relative_to@, needed as int) == Some(i - 1));
                    assert(relative_to@.subrange(0, i - 1) =~= relative_to@.take(i - 1));
                }
                return relative_to.substring_char(0, i - 1);
            }
            cnt += 1;
        }
        i -= 1;
    }
    proof {
        assert(relative_to@.take(0).len() == 0);
        assert(nth_slash_from_end(relative_to@, needed as int) is None);
    }
    unreached()
}

impl SourceMapping {
    /// Where the map's sources are rooted: an explicit non-empty
    /// `sourceRoot` verbatim, else the root inferred by
    /// [`resolve_relative_path`] from the first source and the generated
    /// file's path.
    pub open spec fn spec_sources_root(&self) -> Seq<char> {
        if self.source_root matches Some(p) && p@.len() > 0 {
            self.source_root->0@
        } else {
            spec_resolved_root(self.sources[0]@, self.file@)
        }
    }

    /// Where the map's sources are rooted; a heuristic when the map gives no
    /// explicit `sourceRoot` (see [`resolve_relative_path`]).
    pub fn sources_root(&self) -> (r: &str)
        requires
            !(self.source_root matches Some(p) && p@.len() > 0) ==> {
                &&& self.sources@.len() > 0
                &&& dot_slash_prefix_len(self.sources@[0]@) < self.sources@[0]@.len()
                &&& nth_slash_from_end(
                    self.file@,
                    spec_relative_jumps(self.sources@[0]@) + 1,
                ) is Some
            },
        ensures
            r@ == self.spec_sources_root(),
    {
        match &self.source_root {
            Some(p) => {
                if p.as_str().unicode_len() > 0 {
                    return p.as_str();
                }
            },
            None => {},
        }
        resolve_relative_path(self.sources[0].as_str(), self.file.as_str())
    }
}

/// Law: the generated column resets at every line, while the source
/// coordinates accumulate across the whole table.
///
/// For a two-line `mappings` string `a;b`, the table is line `a` decoded
/// from column base 0, followed by line `b` decoded again from column base 0
/// (the reset), but with the source state that `a` ended with carried over
/// (the accumulation).
#[verifier::rlimit(100)]
#[verifier::spinoff_prover]
pub proof fn lemma_line_reset(a: Seq<char>, b: Seq<char>)
    requires
        a.len() > 0,
        b.len() > 0,
        forall|i: int| 0 <= i < a.len() ==> a[i] != ';',
        forall|i: int| 0 <= i < b.len() ==> b[i] != ';',
    ensures
        spec_reconstruct(a + seq![';'] + b) == match rec_line(
            spec_split(a, ','),
            0u32,
            0u32,
            (0u32, 0u32, 0u32),
            Seq::empty(),
        ) {
            Err(e) => Err(e),
            Ok((ms_a, st_a)) => match rec_line(spec_split(b, ','), 1u32, 0u32, st_a, ms_a) {
                Err(e) => Err(e),
                Ok((ms_ab, st_ab)) => Ok(ms_ab),
            },
        },
{
    let s = a + seq![';'] + b;
    let init: SrcState = (0u32, 0u32, 0u32);
    assert(s[a.len() as int] == ';');
    assert forall|i: int| 0 <= i < a.len() implies s[i] != ';' by {
        assert(s[i] == a[i]);
    }
    crate::text::lemma_split_peel(s, ';', a.len() as int);
    crate::text::lemma_split_all_free(b, ';');
    assert(s.take(a.len() as int) =~= a);
    assert(s.skip(a.len() as int + 1) =~= b);
    let two = seq![a, b];
    assert(spec_split(s, ';') =~~= two);
    assert(spec_reconstruct(s) == rec_table(two, 0u32, init, Seq::empty()));
    assert(two[0] == a);
    assert(two.drop_first() =~~= seq![b]);
    assert(wrap32(0u32 + 1) == 1u32) by {
        lemma_fundamental_div_mod_converse_mod(1, 0x1_0000_0000, 0, 1);
    }
    assert(wrap32(1u32 + 1) == 2u32) by {
        lemma_fundamental_div_mod_converse_mod(2, 0x1_0000_0000, 0, 2);
    }
    let r_a = rec_line(spec_split(a, ','), 0u32, 0u32, init, Seq::<Mapping>::empty());
    if r_a is Err {
        assert(rec_table(two, 0u32, init, Seq::empty()) == Err::<Seq<Mapping>, VlqError>(
            r_a->Err_0,
        ));
    } else {
        let ms_a = r_a->Ok_0.0;
        let st_a = r_a->Ok_0.1;
        assert(rec_table(two, 0u32, init, Seq::empty()) == rec_table(seq![b], 1u32, st_a, ms_a));
        assert(seq![b][0] == b);
        assert(seq![b].drop_first() =~~= Seq::<Seq<char>>::empty());
        let r_b = rec_line(spec_split(b, ','), 1u32, 0u32, st_a, ms_a);
        if r_b is Err {
            assert(rec_table(seq![b], 1u32, st_a, ms_a) == Err::<Seq<Mapping>, VlqError>(
                r_b->Err_0,
            ));
        } else {
            let ms_ab = r_b->Ok_0.0;
            let st_ab = r_b->Ok_0.1;
            assert(rec_table(Seq::<Seq<char>>::empty(), 2u32, st_ab, ms_ab) == Ok::<
                Seq<Mapping>,
                VlqError,
            >(ms_ab));
            assert(rec_table(seq![b], 1u32, st_a, ms_a) == Ok::<Seq<Mapping>, VlqError>(ms_ab));
        }
    }
}

} // verus!
