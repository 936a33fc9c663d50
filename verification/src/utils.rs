//! Path helpers that presentation layers use: the sources-root heuristic on
//! split path components, and stripping `../` runs for display.

use vstd::prelude::*;

use crate::parser::SourceMapping;
use crate::text::{spec_split, spec_strip_prefix_reps, split_str, trim_start_reps};

verus! {

/// `file` with every leading `../` removed, for display.
pub fn without_relative_part(file: &str) -> (r: &str)
    ensures
        r@ == spec_strip_prefix_reps(file@, "../"@),
{
    trim_start_reps(file, "../")
}

/// How many leading components of `parts` are exactly `..`.
pub open spec fn leading_dotdot_count(parts: Seq<Seq<char>>) -> int
    decreases parts.len(),
{
    if parts.len() == 0 {
        0
    } else if parts[0] == ".."@ {
        1 + leading_dotdot_count(parts.drop_first())
    } else {
        0
    }
}

pub proof fn lemma_leading_dotdot(parts: Seq<Seq<char>>, k: int)
    requires
        0 <= k <= parts.len(),
        forall|i: int| 0 <= i < k ==> parts[i] == ".."@,
        k < parts.len() ==> parts[k] != ".."@,
    ensures
        leading_dotdot_count(parts) == k,
    decreases k,
{
    if k == 0 {
    } else {
        let t = parts.drop_first();
        assert forall|i: int| 0 <= i < k - 1 implies t[i] == ".."@ by {
            assert(t[i] == parts[i + 1]);
        }
        if k - 1 < t.len() {
            assert(t[k - 1] == parts[k as int]);
        }
        lemma_leading_dotdot(t, k - 1);
    }
}

/// The components joined by `sep`: empty for no components, and no trailing
/// separator.
pub open spec fn spec_join(parts: Seq<Seq<char>>, sep: char) -> Seq<char>
    decreases parts.len(),
{
    if parts.len() == 0 {
        Seq::empty()
    } else if parts.len() == 1 {
        parts[0]
    } else {
        parts[0] + seq![sep] + spec_join(parts.drop_first(), sep)
    }
}

pub proof fn lemma_join_push(parts: Seq<Seq<char>>, p: Seq<char>, sep: char)
    ensures
        spec_join(parts.push(p), sep) == if parts.len() == 0 {
            p
        } else {
            spec_join(parts, sep) + seq![sep] + p
        },
    decreases parts.len(),
{
    if parts.len() == 0 {
        assert(parts.push(p)[0] == p);
    } else {
        lemma_join_push(parts.drop_first(), p, sep);
        assert(parts.push(p).drop_first() =~= parts.drop_first().push(p));
        if parts.len() == 1 {
            assert(spec_join(parts.push(p), sep) =~= spec_join(parts, sep) + seq![sep] + p);
        } else {
            assert(spec_join(parts.push(p), sep) =~= spec_join(parts, sep) + seq![sep] + p);
        }
    }
}

/// The sources root that [`get_sources_root`] computes when the map carries
/// no usable `sourceRoot`: the generated file's path components, minus one
/// trailing component for the file itself and one for each leading `..` of
/// the first source, joined again with `/`.
pub open spec fn spec_inferred_root(sources0: Seq<char>, file: Seq<char>) -> Seq<char> {
    let parts = spec_split(file, '/');
    let jumps = leading_dotdot_count(spec_split(sources0, '/'));
    if jumps + 1 >= parts.len() {
        Seq::empty()
    } else {
        spec_join(parts.take(parts.len() - jumps - 1), '/')
    }
}

/// What [`get_sources_root`] returns for a map.
pub open spec fn spec_sources_root_of(mapping: &SourceMapping) -> Seq<char> {
    if mapping.source_root matches Some(p) && p@.len() > 0 {
        mapping.source_root->0@
    } else {
        spec_inferred_root(mapping.sources[0]@, mapping.file@)
    }
}

/// True when `p` is exactly `..`.
fn is_dot_dot(p: &str) -> (r: bool)
    ensures
        r == (p@ == ".."@),
{
    proof {
        reveal_strlit("..");
    }
    let n: usize = p.unicode_len();
    if n != 2 {
        return false;
    }
    let r = p.get_char(0) == '.' && p.get_char(1) == '.';
    proof {
        if r {
            assert(p@ =~= ".."@);
        }
    }
    r
}

/// Where the map's sources are rooted: an explicit non-empty `sourceRoot`
/// verbatim, else inferred by dropping, from the generated file's path, one
/// trailing component for the file itself and one more for each leading `..`
/// component of the first source.
#[verifier::loop_isolation(false)]
pub fn get_sources_root(mapping: &SourceMapping) -> (r: String)
    requires
        !(mapping.source_root matches Some(p) && p@.len() > 0) ==> mapping.sources@.len() > 0,
    ensures
        r@ == spec_sources_root_of(mapping),
{
    match &mapping.source_root {
        Some(p) => {
            if p.as_str().unicode_len() > 0 {
                return p.clone();
            }
            assert(!(mapping.source_root matches Some(q) && q@.len() > 0));
        },
        None => {
            assert(!(mapping.source_root matches Some(q) && q@.len() > 0));
        },
    }
    let src_parts = split_str(mapping.sources[0].as_str(), '/');
    let ghost src_views = src_parts@.map_values(|p: String| p@);
    let nsrc: usize = src_parts.len();
    let mut jumps: usize = 0;
    while jumps < nsrc
        invariant
            jumps <= nsrc,
            nsrc == src_views.len(),
            src_views == src_parts@.map_values(|p: String| p@),
            nsrc == src_parts@.len(),
            forall|i: int| 0 <= i < jumps ==> src_views[i] == ".."@,
        decreases nsrc - jumps,
    {
        proof {
            assert(src_parts@[jumps as int]@ == src_views[jumps as int]);
        }
        if !is_dot_dot(src_parts[jumps].as_str()) {
            proof {
                lemma_leading_dotdot(src_views, jumps as int);
            }
            return joined_prefix(mapping, jumps);
        }
        jumps += 1;
    }
    proof {
        lemma_leading_dotdot(src_views, nsrc as int);
    }
    joined_prefix(mapping, nsrc)
}

/// The generated file's path components, all but the last `jumps + 1`,
/// joined with `/`.
#[verifier::loop_isolation(false)]
fn joined_prefix(mapping: &SourceMapping, jumps: usize) -> (r: String)
    requires
        mapping.sources@.len() > 0,
        jumps == leading_dotdot_count(spec_split(mapping.sources[0]@, '/')),
        !(mapping.source_root matches Some(p) && p@.len() > 0),
    ensures
        r@ == spec_sources_root_of(mapping),
{
    proof {
        reveal_strlit("/");
    }
    let parts = split_str(mapping.file.as_str(), '/');
    let ghost part_views = parts@.map_values(|p: String| p@);
    let nparts: usize = parts.len();
    let keep: usize = if nparts >= 1 && jumps <= nparts - 1 {
        nparts - 1 - jumps
    } else {
        0
    };
    let mut out = String::new();
    let mut k: usize = 0;
    proof {
        assert(part_views.take(0) =~= Seq::<Seq<char>>::empty());
    }
    while k < keep
        invariant
            k <= keep,
            keep <= nparts,
            nparts == part_views.len(),
            part_views == parts@.map_values(|p: String| p@),
            nparts == parts@.len(),
            out@ == spec_join(part_views.take(k as int), '/'),
        decreases keep - k,
    {
        proof {
            assert(parts@[k as int]@ == part_views[k as int]);
            lemma_join_push(part_views.take(k as int), part_views[k as int], '/');
            assert(part_views.take(k as int).push(part_views[k as int]) =~= part_views.take(
                k + 1,
            ));
        }
        if k > 0 {
            out.append("/");
        }
        out.append(parts[k].as_str());
        proof {
            assert(out@ =~= spec_join(part_views.take(k + 1), '/'));
        }
        k += 1;
    }
    proof {
        if jumps + 1 >= nparts {
            assert(keep == 0);
            assert(out@ =~= spec_inferred_root(mapping.sources[0]@, mapping.file@));
        } else {
            assert(keep == nparts - 1 - jumps);
            assert(out@ == spec_inferred_root(mapping.sources[0]@, mapping.file@));
        }
    }
    out
}

} // verus!
