//! Character-level string helpers: splitting on a separator, line splitting
//! with the same conventions as `str::lines`, prefix tests, repeated prefix
//! stripping, and substring search.
//!
//! Every executable helper is specified against a recursive spec function
//! over `Seq<char>`, so the parser and the mapping reconstructor can state
//! their contracts in terms of these definitions.

use vstd::prelude::*;

verus! {

/// The pieces of `s` between occurrences of `sep`.
///
/// There is always exactly one more piece than there are separators, so the
/// result is never empty; `""` splits to one empty piece.
pub open spec fn spec_split(s: Seq<char>, sep: char) -> Seq<Seq<char>>
    decreases s.len(),
{
    if s.len() == 0 {
        seq![Seq::<char>::empty()]
    } else if s[0] == sep {
        seq![Seq::<char>::empty()] + spec_split(s.drop_first(), sep)
    } else {
        let rest = spec_split(s.drop_first(), sep);
        seq![seq![s[0]] + rest[0]] + rest.drop_first()
    }
}

pub proof fn lemma_split_nonempty(s: Seq<char>, sep: char)
    ensures
        spec_split(s, sep).len() >= 1,
    decreases s.len(),
{
    if s.len() == 0 {
    } else if s[0] == sep {
    } else {
        lemma_split_nonempty(s.drop_first(), sep);
    }
}

/// A string without the separator splits to the single piece `s`.
pub proof fn lemma_split_all_free(s: Seq<char>, sep: char)
    requires
        forall|i: int| 0 <= i < s.len() ==> s[i] != sep,
    ensures
        spec_split(s, sep) == seq![s],
    decreases s.len(),
{
    if s.len() == 0 {
        assert(spec_split(s, sep) =~~= seq![s]);
    } else {
        lemma_split_all_free(s.drop_first(), sep);
        assert(seq![s[0]] + s.drop_first() =~= s);
        assert(spec_split(s, sep) =~~= seq![s]);
    }
}

/// Peeling the first piece off a split: if the first separator stands at `k`,
/// the first piece is `s.take(k)` and the rest is the split of what follows it.
pub proof fn lemma_split_peel(s: Seq<char>, sep: char, k: int)
    requires
        0 <= k < s.len(),
        s[k] == sep,
        forall|i: int| 0 <= i < k ==> s[i] != sep,
    ensures
        spec_split(s, sep) == seq![s.take(k)] + spec_split(s.skip(k + 1), sep),
    decreases k,
{
    if k == 0 {
        assert(s.take(0) =~= Seq::<char>::empty());
        assert(s.skip(1) =~= s.drop_first());
        assert(spec_split(s, sep) =~~= seq![s.take(0)] + spec_split(s.skip(1), sep));
    } else {
        let t = s.drop_first();
        assert(t[k - 1] == sep);
        lemma_split_peel(t, sep, k - 1);
        lemma_split_nonempty(t.skip(k), sep);
        assert(seq![s[0]] + t.take(k - 1) =~= s.take(k));
        assert(t.skip(k) =~= s.skip(k + 1));
        assert(spec_split(s, sep) =~~= seq![s.take(k)] + spec_split(s.skip(k + 1), sep));
    }
}

/// The pieces of `s` between occurrences of `sep`, as owned strings.
pub fn split_str(s: &str, sep: char) -> (r: Vec<String>)
    ensures
        r@.map_values(|p: String| p@) == spec_split(s@, sep),
{
    let n: usize = s.unicode_len();
    let mut pieces: Vec<String> = Vec::new();
    let mut start: usize = 0;
    let mut i: usize = 0;
    proof {
        assert(s@.skip(0) =~= s@);
        assert(pieces@.map_values(|p: String| p@) + spec_split(s@, sep) =~= spec_split(s@, sep));
    }
    while i < n
        invariant
            start <= i <= n,
            n == s@.len(),
            forall|j: int| start <= j < i ==> s@[j] != sep,
            spec_split(s@, sep) == pieces@.map_values(|p: String| p@) + spec_split(
                s@.skip(start as int),
                sep,
            ),
        decreases n - i,
    {
        let c = s.get_char(i);
        if c == sep {
            let piece = s.substring_char(start, i).to_owned();
            proof {
                let tail = s@.skip(start as int);
                lemma_split_peel(tail, sep, i - start);
                assert(tail.take(i - start) =~= s@.subrange(start as int, i as int));
                assert(tail.skip(i - start + 1) =~= s@.skip(i + 1));
                assert(pieces@.push(piece).map_values(|p: String| p@) =~= pieces@.map_values(
                    |p: String| p@,
                ).push(piece@));
                assert(pieces@.map_values(|p: String| p@) + seq![piece@] + spec_split(
                    s@.skip(i + 1),
                    sep,
                ) =~= pieces@.map_values(|p: String| p@).push(piece@) + spec_split(
                    s@.skip(i + 1),
                    sep,
                ));
            }
            pieces.push(piece);
            start = i + 1;
        }
        i += 1;
    }
    let piece = s.substring_char(start, n).to_owned();
    proof {
        let tail = s@.skip(start as int);
        lemma_split_all_free(tail, sep);
        assert(tail =~= s@.subrange(start as int, n as int));
        assert(pieces@.push(piece).map_values(|p: String| p@) =~= pieces@.map_values(
            |p: String| p@,
        ).push(piece@));
        assert(pieces@.map_values(|p: String| p@) + seq![piece@] =~= pieces@.map_values(
            |p: String| p@,
        ).push(piece@));
    }
    pieces.push(piece);
    pieces
}

/// `l` without one trailing carriage return, if it has one.
pub open spec fn strip_cr(l: Seq<char>) -> Seq<char> {
    if l.len() > 0 && l.last() == '\r' {
        l.drop_last()
    } else {
        l
    }
}

/// The lines of `s`, as `str::lines` yields them: pieces between newlines,
/// each stripped of one carriage return left by a `\r\n` ending, and no
/// final empty piece after a trailing newline.
pub open spec fn spec_lines(s: Seq<char>) -> Seq<Seq<char>> {
    let p = spec_split(s, '\n');
    let body = p.drop_last().map_values(|l: Seq<char>| strip_cr(l));
    if p.last().len() == 0 {
        body
    } else {
        body + seq![p.last()]
    }
}

fn strip_trailing_cr(p: &str) -> (r: String)
    ensures
        r@ == strip_cr(p@),
{
    let n: usize = p.unicode_len();
    if n > 0 && p.get_char(n - 1) == '\r' {
        proof {
            assert(p@.subrange(0, n - 1) =~= p@.drop_last());
        }
        p.substring_char(0, n - 1).to_owned()
    } else {
        p.to_owned()
    }
}

/// The lines of `s`, as `str::lines` yields them.
pub fn split_lines(s: &str) -> (r: Vec<String>)
    ensures
        r@.map_values(|p: String| p@) == spec_lines(s@),
{
    proof {
        lemma_split_nonempty(s@, '\n');
    }
    let ps = split_str(s, '\n');
    let k: usize = ps.len();
    let mut out: Vec<String> = Vec::new();
    let mut i: usize = 0;
    while i < k - 1
        invariant
            i <= k - 1,
            k == ps@.len(),
            1 <= k,
            ps@.map_values(|p: String| p@) == spec_split(s@, '\n'),
            out@.len() == i,
            forall|j: int| 0 <= j < i ==> out@[j]@ == strip_cr(ps@[j]@),
        decreases k - 1 - i,
    {
        let stripped = strip_trailing_cr(ps[i].as_str());
        out.push(stripped);
        i += 1;
    }
    let ghost p = spec_split(s@, '\n');
    let ghost body = p.drop_last().map_values(|l: Seq<char>| strip_cr(l));
    proof {
        assert(out@.map_values(|q: String| q@) =~= body) by {
            assert forall|j: int| 0 <= j < k - 1 implies out@.map_values(|q: String| q@)[j]
                == body[j] by {
                assert(ps@[j]@ == ps@.map_values(|q: String| q@)[j]);
            }
        }
    }
    let last = &ps[k - 1];
    proof {
        assert(last@ == ps@.map_values(|q: String| q@)[k - 1]);
        assert(last@ == p.last());
    }
    if last.as_str().unicode_len() == 0 {
        proof {
            assert(out@.map_values(|q: String| q@) =~= spec_lines(s@));
        }
        out
    } else {
        let owned_last = last.as_str().to_owned();
        proof {
            assert(out@.push(owned_last).map_values(|q: String| q@) =~= out@.map_values(
                |q: String| q@,
            ).push(owned_last@));
            assert(out@.map_values(|q: String| q@).push(owned_last@) =~= spec_lines(s@));
        }
        out.push(owned_last);
        out
    }
}

/// True when `prefix` is a prefix of `s`.
pub fn str_starts_with(s: &str, prefix: &str) -> (b: bool)
    ensures
        b == prefix@.is_prefix_of(s@),
{
    let n: usize = s.unicode_len();
    let m: usize = prefix.unicode_len();
    if m > n {
        return false;
    }
    let mut i: usize = 0;
    while i < m
        invariant
            i <= m <= n,
            n == s@.len(),
            m == prefix@.len(),
            forall|j: int| 0 <= j < i ==> s@[j] == prefix@[j],
        decreases m - i,
    {
        if s.get_char(i) != prefix.get_char(i) {
            assert(!prefix@.is_prefix_of(s@)) by {
                assert(s@.subrange(0, m as int)[i as int] != prefix@[i as int]);
            }
            return false;
        }
        i += 1;
    }
    assert(prefix@ =~= s@.subrange(0, m as int));
    true
}

/// `s` with every leading repetition of `p` removed, as `str::trim_start_matches`
/// does; an empty pattern strips nothing.
pub open spec fn spec_strip_prefix_reps(s: Seq<char>, p: Seq<char>) -> Seq<char>
    decreases s.len(),
{
    if p.len() > 0 && p.is_prefix_of(s) {
        spec_strip_prefix_reps(s.skip(p.len() as int), p)
    } else {
        s
    }
}

/// Strips every leading repetition of `p` from `s`.
pub fn trim_start_reps<'a>(s: &'a str, p: &str) -> (r: &'a str)
    ensures
        r@ == spec_strip_prefix_reps(s@, p@),
{
    let m: usize = p.unicode_len();
    let mut cur: &str = s;
    loop
        invariant
            m == p@.len(),
            spec_strip_prefix_reps(s@, p@) == spec_strip_prefix_reps(cur@, p@),
        decreases cur@.len() + 1,
    {
        if m == 0 || !str_starts_with(cur, p) {
            return cur;
        }
        let n: usize = cur.unicode_len();
        cur = cur.substring_char(m, n);
    }
}

/// The position of the first occurrence of `p` in `s`, if any; an empty
/// pattern matches at position 0.
pub open spec fn spec_find(s: Seq<char>, p: Seq<char>) -> Option<int>
    decreases s.len(),
{
    if p.is_prefix_of(s) {
        Some(0int)
    } else if s.len() == 0 {
        None
    } else {
        match spec_find(s.drop_first(), p) {
            Some(i) => Some(i + 1),
            None => None,
        }
    }
}

pub proof fn lemma_find_at(s: Seq<char>, p: Seq<char>, i: int)
    requires
        0 <= i <= s.len(),
        p.is_prefix_of(s.skip(i)),
        forall|j: int| 0 <= j < i ==> !p.is_prefix_of(s.skip(j)),
    ensures
        spec_find(s, p) == Some(i),
    decreases i,
{
    if i == 0 {
        assert(s.skip(0) =~= s);
    } else {
        assert(s.skip(0) =~= s);
        assert(!p.is_prefix_of(s));
        let t = s.drop_first();
        assert(t.skip(i - 1) =~= s.skip(i));
        assert forall|j: int| 0 <= j < i - 1 implies !p.is_prefix_of(t.skip(j)) by {
            assert(t.skip(j) =~= s.skip(j + 1));
        }
        lemma_find_at(t, p, i - 1);
    }
}

pub proof fn lemma_find_sound(s: Seq<char>, p: Seq<char>)
    ensures
        spec_find(s, p) matches Some(i) ==> 0 <= i && i + p.len() <= s.len() && p.is_prefix_of(
            s.skip(i),
        ),
    decreases s.len(),
{
    assert(s.skip(0) =~= s);
    if p.is_prefix_of(s) {
    } else if s.len() == 0 {
    } else {
        let t = s.drop_first();
        lemma_find_sound(t, p);
        if spec_find(t, p) is Some {
            let j = spec_find(t, p)->Some_0;
            assert(t.skip(j) =~= s.skip(j + 1));
        }
    }
}

pub proof fn lemma_find_none(s: Seq<char>, p: Seq<char>)
    requires
        forall|j: int| 0 <= j <= s.len() ==> !p.is_prefix_of(s.skip(j)),
    ensures
        spec_find(s, p) is None,
    decreases s.len(),
{
    assert(s.skip(0) =~= s);
    if s.len() == 0 {
    } else {
        let t = s.drop_first();
        assert forall|j: int| 0 <= j <= t.len() implies !p.is_prefix_of(t.skip(j)) by {
            assert(t.skip(j) =~= s.skip(j + 1));
        }
        lemma_find_none(t, p);
    }
}

/// The position of the first occurrence of `p` in `s`, if any.
pub fn find_sub(s: &str, p: &str) -> (r: Option<usize>)
    ensures
        match r {
            Some(i) => spec_find(s@, p@) == Some(i as int),
            None => spec_find(s@, p@) is None,
        },
{
    let n: usize = s.unicode_len();
    let m: usize = p.unicode_len();
    if m > n {
        proof {
            assert forall|j: int| 0 <= j <= s@.len() implies !p@.is_prefix_of(s@.skip(j)) by {
                assert(s@.skip(j).len() < p@.len());
            }
            lemma_find_none(s@, p@);
        }
        return None;
    }
    if m == 0 {
        proof {
            assert(s@.skip(0) =~= s@);
            assert(p@ =~= s@.subrange(0, 0));
            lemma_find_at(s@, p@, 0);
        }
        return Some(0);
    }
    let mut i: usize = 0;
    while i <= n - m
        invariant
            1 <= m <= n,
            i <= n - m + 1,
            n == s@.len(),
            m == p@.len(),
            forall|j: int| 0 <= j < i ==> !p@.is_prefix_of(s@.skip(j)),
        decreases n - m + 1 - i,
    {
        if matches_at(s, p, i) {
            proof {
                lemma_find_at(s@, p@, i as int);
            }
            return Some(i);
        }
        i += 1;
    }
    proof {
        assert forall|j: int| 0 <= j <= s@.len() implies !p@.is_prefix_of(s@.skip(j)) by {
            if j >= i {
                assert(s@.skip(j).len() < p@.len());
            }
        }
        lemma_find_none(s@, p@);
    }
    None
}

/// True when `p` occurs in `s` at position `i`.
fn matches_at(s: &str, p: &str, i: usize) -> (b: bool)
    requires
        i <= s@.len(),
        s@.len() <= usize::MAX,
        p@.len() <= s@.len() - i,
    ensures
        b == p@.is_prefix_of(s@.skip(i as int)),
{
    let m: usize = p.unicode_len();
    let mut k: usize = 0;
    while k < m
        invariant
            k <= m,
            i <= s@.len(),
            s@.len() <= usize::MAX,
            m == p@.len(),
            m <= s@.len() - i,
            forall|j: int| 0 <= j < k ==> s@[i + j] == p@[j],
        decreases m - k,
    {
        if s.get_char(i + k) != p.get_char(k) {
            assert(!p@.is_prefix_of(s@.skip(i as int))) by {
                assert(s@.skip(i as int).subrange(0, m as int)[k as int] == s@[i + k]);
            }
            return false;
        }
        k += 1;
    }
    assert(p@ =~= s@.skip(i as int).subrange(0, m as int));
    true
}

/// Lexicographic order on character sequences, by code point: exactly the
/// order in which `String`s compare, since UTF-8 preserves code-point order.
pub open spec fn spec_str_le(a: Seq<char>, b: Seq<char>) -> bool
    decreases a.len(),
{
    if a.len() == 0 {
        true
    } else if b.len() == 0 {
        false
    } else if (a[0] as int) < (b[0] as int) {
        true
    } else if (a[0] as int) > (b[0] as int) {
        false
    } else {
        spec_str_le(a.drop_first(), b.drop_first())
    }
}

pub proof fn lemma_str_le_total(a: Seq<char>, b: Seq<char>)
    ensures
        spec_str_le(a, b) || spec_str_le(b, a),
    decreases a.len(),
{
    if a.len() == 0 || b.len() == 0 {
    } else if (a[0] as int) == (b[0] as int) {
        lemma_str_le_total(a.drop_first(), b.drop_first());
    }
}

pub proof fn lemma_str_le_trans(a: Seq<char>, b: Seq<char>, c: Seq<char>)
    requires
        spec_str_le(a, b),
        spec_str_le(b, c),
    ensures
        spec_str_le(a, c),
    decreases a.len(),
{
    if a.len() == 0 {
    } else {
        if (a[0] as int) == (b[0] as int) && (b[0] as int) == (c[0] as int) {
            lemma_str_le_trans(a.drop_first(), b.drop_first(), c.drop_first());
        }
    }
}

/// True when `a` comes no later than `b` in lexicographic order.
pub fn str_le(a: &str, b: &str) -> (r: bool)
    ensures
        r == spec_str_le(a@, b@),
{
    let an: usize = a.unicode_len();
    let bn: usize = b.unicode_len();
    let mut i: usize = 0;
    proof {
        assert(a@.skip(0) =~= a@);
        assert(b@.skip(0) =~= b@);
    }
    while i < an && i < bn
        invariant
            i <= an,
            i <= bn,
            an == a@.len(),
            bn == b@.len(),
            spec_str_le(a@, b@) == spec_str_le(a@.skip(i as int), b@.skip(i as int)),
        decreases an - i,
    {
        let ca = a.get_char(i);
        let cb = b.get_char(i);
        proof {
            assert(a@.skip(i as int)[0] == ca);
            assert(b@.skip(i as int)[0] == cb);
            assert(a@.skip(i as int).drop_first() =~= a@.skip(i + 1));
            assert(b@.skip(i as int).drop_first() =~= b@.skip(i + 1));
        }
        if (ca as u32) < (cb as u32) {
            return true;
        }
        if (ca as u32) > (cb as u32) {
            return false;
        }
        i += 1;
    }
    proof {
        if i >= an {
            assert(a@.skip(i as int).len() == 0);
        } else {
            assert(b@.skip(i as int).len() == 0);
            assert(a@.skip(i as int).len() > 0);
        }
    }
    an <= bn
}

/// True when the strings stand in non-decreasing lexicographic order.
pub open spec fn strings_sorted(s: Seq<Seq<char>>) -> bool {
    forall|i: int, j: int| 0 <= i < j < s.len() ==> spec_str_le(s[i], s[j])
}

proof fn lemma_to_multiset_insert(s: Seq<Seq<char>>, pos: int, x: Seq<char>)
    requires
        0 <= pos <= s.len(),
    ensures
        s.insert(pos, x).to_multiset() == s.to_multiset().insert(x),
{
    broadcast use vstd::seq_lib::group_to_multiset_ensures;

    vstd::seq_lib::lemma_multiset_commutative(s.take(pos), s.skip(pos));
    assert(s.take(pos) + s.skip(pos) =~= s);
    let ins = s.insert(pos, x);
    vstd::seq_lib::lemma_multiset_commutative(ins.take(pos + 1), ins.skip(pos + 1));
    assert(ins.take(pos + 1) + ins.skip(pos + 1) =~= ins);
    assert(ins.take(pos + 1) =~= s.take(pos).push(x));
    assert(ins.skip(pos + 1) =~= s.skip(pos));
    assert(s.take(pos).push(x).to_multiset() =~= s.take(pos).to_multiset().insert(x));
    assert(ins.to_multiset() =~= s.to_multiset().insert(x));
}

/// The position in the sorted prefix `v[0 .. upto]` where `x` belongs: every
/// string before it is `<= x`, and the one standing there, if any, is not.
fn insertion_point(v: &Vec<String>, x: &String, upto: usize) -> (pos: usize)
    requires
        upto <= v@.len(),
    ensures
        pos <= upto,
        forall|k: int| 0 <= k < pos ==> spec_str_le(#[trigger] v@[k]@, x@),
        pos < upto ==> !spec_str_le(v@[pos as int]@, x@),
{
    let mut pos: usize = 0;
    while pos < upto
        invariant
            pos <= upto,
            upto <= v@.len(),
            forall|k: int| 0 <= k < pos ==> spec_str_le(#[trigger] v@[k]@, x@),
        decreases upto - pos,
    {
        if !str_le(v[pos].as_str(), x.as_str()) {
            return pos;
        }
        pos += 1;
    }
    pos
}

/// The same strings in non-decreasing lexicographic order.
#[verifier::loop_isolation(false)]
#[verifier::rlimit(60)]
pub fn sort_strings(v: Vec<String>) -> (r: Vec<String>)
    ensures
        strings_sorted(r@.map_values(|p: String| p@)),
        r@.map_values(|p: String| p@).to_multiset() == v@.map_values(
            |p: String| p@,
        ).to_multiset(),
{
    let mut out = v;
    let n: usize = out.len();
    if n <= 1 {
        return out;
    }
    let mut i: usize = 1;
    while i < n
        invariant
            1 <= i <= n,
            out@.len() == n,
            strings_sorted(out@.map_values(|p: String| p@).take(i as int)),
            out@.map_values(|p: String| p@).to_multiset() == v@.map_values(
                |p: String| p@,
            ).to_multiset(),
        decreases n - i,
    {
        let ghost views0 = out@.map_values(|p: String| p@);
        let x = out.remove(i);
        let ghost views1 = out@.map_values(|p: String| p@);
        proof {
            assert(views1 =~= views0.remove(i as int));
        }
        let pos = insertion_point(&out, &x, i);
        proof {
            // Everything before `pos` was `<= x` in the old prefix too.
            assert(forall|k: int| 0 <= k < pos ==> spec_str_le(#[trigger] views1[k], x@));
        }
        out.insert(pos, x);
        let ghost views2 = out@.map_values(|p: String| p@);
        proof {
            assert(views2 =~= views1.insert(pos as int, x@));
            // The multiset is unchanged: remove then insert of the same string.
            broadcast use vstd::seq_lib::group_to_multiset_ensures;

            lemma_to_multiset_insert(views1, pos as int, x@);
            assert(views0.to_multiset().contains(views0[i as int]));
            assert(views2.to_multiset() =~= views0.to_multiset());
            // The prefix one longer is sorted again.
            assert forall|a: int, b: int| 0 <= a < b < i + 1 implies spec_str_le(
                views2[a],
                views2[b],
            ) by {
                if b < pos {
                    assert(views2[a] == views1[a] && views2[b] == views1[b]);
                } else if a < pos && b == pos {
                    assert(views2[a] == views1[a] && views2[b] == x@);
                } else if a < pos && b > pos {
                    assert(views2[a] == views1[a] && views2[b] == views1[b - 1]);
                    if a < pos && pos < i {
                        lemma_str_le_total(x@, views1[pos as int]);
                        if b - 1 > pos {
                            lemma_str_le_trans(x@, views1[pos as int], views1[b - 1]);
                        }
                        lemma_str_le_trans(views2[a], x@, views2[b]);
                    }
                } else if a == pos {
                    assert(views2[a] == x@ && views2[b] == views1[b - 1]);
                    lemma_str_le_total(x@, views1[pos as int]);
                    if b - 1 > pos {
                        lemma_str_le_trans(x@, views1[pos as int], views1[b - 1]);
                    }
                } else {
                    assert(views2[a] == views1[a - 1] && views2[b] == views1[b - 1]);
                }
            }
        }
        i += 1;
    }
    proof {
        assert(out@.map_values(|p: String| p@).take(n as int) =~= out@.map_values(
            |p: String| p@,
        ));
    }
    out
}

} // verus!
