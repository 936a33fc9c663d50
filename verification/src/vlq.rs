//! The VLQ decoder: one comma-separated source-map segment (a run of base64
//! characters) decodes to exactly four signed 32-bit deltas, in the order
//! generated column, source file, source line, source column. A fifth field
//! (a `names` index) is accepted and discarded.
//!
//! Each base64 character carries six bits: bit 5 is the continuation bit, so
//! a character with value below 32 ends its group. Within a group the first
//! character is the least significant; its bit 0 is the sign, its bits 1-4
//! the four low magnitude bits, and every later character contributes five
//! bits. Magnitudes wider than 32 bits wrap, as two's-complement arithmetic
//! on the accumulated bits does.

use vstd::arithmetic::div_mod::{
    lemma_add_mod_noop, lemma_fundamental_div_mod, lemma_fundamental_div_mod_converse_mod,
    lemma_mod_bound, lemma_mul_mod_noop_left,
};
use vstd::prelude::*;

use crate::errors::VlqError;

verus! {

/// The index of `c` in the base64 alphabet
/// `ABCDEFGHIJKLMNOPQRSTUVWXYZabcdefghijklmnopqrstuvwxyz0123456789+/`,
/// or -1 when `c` is not in it.
pub open spec fn b64_value(c: char) -> int {
    let u = c as int;
    if 65 <= u <= 90 {
        u - 65
    } else if 97 <= u <= 122 {
        u - 97 + 26
    } else if 48 <= u <= 57 {
        u - 48 + 52
    } else if u == 43 {
        62
    } else if u == 47 {
        63
    } else {
        -1
    }
}

pub open spec fn seg_chars_valid(s: Seq<char>) -> bool {
    forall|i: int| 0 <= i < s.len() ==> b64_value(s[i]) >= 0
}

/// True when the character's continuation bit (bit 5 of its alphabet index)
/// is set, so its group goes on.
pub open spec fn is_continuation(c: char) -> bool {
    b64_value(c) >= 32
}

/// The VLQ groups of a segment: each group ends at its first character whose
/// continuation bit is clear; a trailing run that never ends still forms the
/// last group.
pub open spec fn spec_groups(s: Seq<char>) -> Seq<Seq<char>>
    decreases s.len(),
{
    if s.len() == 0 {
        Seq::empty()
    } else if !is_continuation(s[0]) {
        seq![s.take(1)] + spec_groups(s.drop_first())
    } else {
        let rest = spec_groups(s.drop_first());
        if rest.len() == 0 {
            seq![s]
        } else {
            seq![seq![s[0]] + rest[0]] + rest.drop_first()
        }
    }
}

pub proof fn lemma_groups_nonempty(s: Seq<char>)
    requires
        s.len() > 0,
    ensures
        spec_groups(s).len() >= 1,
    decreases s.len(),
{
    if is_continuation(s[0]) && s.drop_first().len() > 0 {
        lemma_groups_nonempty(s.drop_first());
    }
}

/// Peeling the first group: if the first character with a clear continuation
/// bit stands at `k - 1`, the first group is `s.take(k)` and the rest are the
/// groups of what follows.
pub proof fn lemma_groups_peel(s: Seq<char>, k: int)
    requires
        1 <= k <= s.len(),
        !is_continuation(s[k - 1]),
        forall|i: int| 0 <= i < k - 1 ==> is_continuation(s[i]),
    ensures
        spec_groups(s) == seq![s.take(k)] + spec_groups(s.skip(k)),
    decreases k,
{
    if k == 1 {
        assert(s.skip(1) =~= s.drop_first());
        assert(spec_groups(s) =~~= seq![s.take(1)] + spec_groups(s.skip(1)));
    } else {
        let t = s.drop_first();
        lemma_groups_peel(t, k - 1);
        lemma_groups_nonempty(t);
        assert(seq![s[0]] + t.take(k - 1) =~= s.take(k));
        assert(t.skip(k - 1) =~= s.skip(k));
        assert(spec_groups(s) =~~= seq![s.take(k)] + spec_groups(s.skip(k)));
    }
}

/// The value of a group's continuation digits, least significant first: each
/// contributes its five low bits.
pub open spec fn cont_digits_val(g: Seq<char>) -> int
    decreases g.len(),
{
    if g.len() == 0 {
        0
    } else {
        (b64_value(g[0]) % 32) + 32 * cont_digits_val(g.drop_first())
    }
}

pub proof fn lemma_cont_digits_nonneg(g: Seq<char>)
    ensures
        cont_digits_val(g) >= 0,
    decreases g.len(),
{
    if g.len() > 0 {
        lemma_cont_digits_nonneg(g.drop_first());
    }
}

/// The two's-complement 32-bit value whose bit pattern is `m mod 2^32`.
pub open spec fn wrap_i32(m: int) -> int {
    let r = m % 0x1_0000_0000;
    if r < 0x8000_0000 {
        r
    } else {
        r - 0x1_0000_0000
    }
}

/// The signed value of one VLQ group: the first character gives the sign bit
/// and the four low magnitude bits, the rest give five bits each, and the
/// result is taken as a two's-complement 32-bit value.
pub open spec fn group_value(g: Seq<char>) -> int
    recommends
        g.len() > 0,
{
    let v0 = b64_value(g[0]);
    let mag = (v0 % 32) / 2 + 16 * cont_digits_val(g.drop_first());
    if v0 % 2 == 1 {
        wrap_i32(-mag)
    } else {
        wrap_i32(mag)
    }
}

/// What decoding a segment yields: four deltas, or the first failure.
///
/// The empty segment is the degenerate "no change" case and decodes to four
/// zeros. Otherwise every character must be in the alphabet, the last group
/// must be terminated, and there must be exactly 4 or 5 groups, checked in
/// that order; a fifth group (a `names` index) is discarded.
pub open spec fn spec_vlq_decode(s: Seq<char>) -> Result<(int, int, int, int), VlqError> {
    if s.len() == 0 {
        Ok((0int, 0int, 0int, 0int))
    } else if !seg_chars_valid(s) {
        Err(VlqError::InvalidChar)
    } else if is_continuation(s.last()) {
        Err(VlqError::Unterminated)
    } else {
        let gs = spec_groups(s);
        if gs.len() != 4 && gs.len() != 5 {
            Err(VlqError::WrongFieldCount)
        } else {
            Ok(
                (
                    group_value(gs[0]),
                    group_value(gs[1]),
                    group_value(gs[2]),
                    group_value(gs[3]),
                ),
            )
        }
    }
}

/// The alphabet index of `c`, or `None` when `c` is not a base64 character.
fn b64_char_value(c: char) -> (r: Option<u8>)
    ensures
        match r {
            Some(v) => b64_value(c) == v as int,
            None => b64_value(c) == -1,
        },
{
    let u = c as u32;
    if 65 <= u && u <= 90 {
        Some((u - 65) as u8)
    } else if 97 <= u && u <= 122 {
        Some((u - 97 + 26) as u8)
    } else if 48 <= u && u <= 57 {
        Some((u - 48 + 52) as u8)
    } else if u == 43 {
        Some(62)
    } else if u == 47 {
        Some(63)
    } else {
        None
    }
}

/// The signed value of the group standing at `s[st ..= en]`, where `vals`
/// holds the alphabet index of every character of `s`.
fn decode_group(vals: &Vec<u8>, Ghost(s): Ghost<Seq<char>>, st: usize, en: usize) -> (v: i32)
    requires
        vals@.len() == s.len(),
        s.len() <= usize::MAX,
        st <= en < s.len(),
        forall|j: int| 0 <= j < s.len() ==> vals@[j] as int == b64_value(s[j]) && 0 <= b64_value(
            s[j],
        ) < 64,
    ensures
        v as int == group_value(s.subrange(st as int, en + 1)),
{
    let ghost g = s.subrange(st as int, en + 1);
    let m: u64 = 0x1_0000_0000;
    let mut acc: u64 = 0;
    let mut j: usize = en + 1;
    proof {
        assert(s.subrange(j as int, en + 1) =~= Seq::<char>::empty());
    }
    while j > st + 1
        invariant
            st + 1 <= j <= en + 1,
            en < s.len(),
            vals@.len() == s.len(),
            m == 0x1_0000_0000,
            forall|jj: int| 0 <= jj < s.len() ==> vals@[jj] as int == b64_value(s[jj]) && 0
                <= b64_value(s[jj]) < 64,
            acc == cont_digits_val(s.subrange(j as int, en + 1)) % 0x1_0000_0000,
            acc < 0x1_0000_0000,
        decreases j,
    {
        j -= 1;
        let d: u64 = (vals[j] % 32) as u64;
        proof {
            let c_next = cont_digits_val(s.subrange(j + 1, en + 1));
            let c_here = cont_digits_val(s.subrange(j as int, en + 1));
            assert(s.subrange(j as int, en + 1).drop_first() =~= s.subrange(j + 1, en + 1));
            assert(s.subrange(j as int, en + 1)[0] == s[j as int]);
            assert(c_here == (b64_value(s[j as int]) % 32) + 32 * c_next);
            lemma_cont_digits_nonneg(s.subrange(j + 1, en + 1));
            // (32 * (c_next % 2^32) + d) % 2^32 == (32 * c_next + d) % 2^32
            lemma_mul_mod_noop_left(c_next, 32, 0x1_0000_0000);
            lemma_add_mod_noop(32 * c_next, d as int, 0x1_0000_0000);
            lemma_add_mod_noop((c_next % 0x1_0000_0000) * 32, d as int, 0x1_0000_0000);
            lemma_mod_bound(d as int, 0x1_0000_0000);
            assert(d as int % 0x1_0000_0000 == d as int) by {
                lemma_fundamental_div_mod_converse_mod(d as int, 0x1_0000_0000, 0, d as int);
            }
        }
        acc = (acc * 32 + d) % m;
    }
    let v0: u8 = vals[st];
    let first: u64 = ((v0 % 32) / 2) as u64;
    let mag: u64 = first + 16 * acc;
    let mag_mod: u64 = mag % m;
    let negative: bool = v0 % 2 == 1;
    proof {
        let c_rest = cont_digits_val(s.subrange(st + 1, en + 1));
        let mag_spec = (b64_value(s[st as int]) % 32) / 2 + 16 * c_rest;
        assert(g.drop_first() =~= s.subrange(st + 1, en + 1));
        assert(g[0] == s[st as int]);
        lemma_cont_digits_nonneg(s.subrange(st + 1, en + 1));
        // (first + 16 * (c_rest % 2^32)) % 2^32 == mag_spec % 2^32
        lemma_mul_mod_noop_left(c_rest, 16, 0x1_0000_0000);
        lemma_add_mod_noop(first as int, 16 * c_rest, 0x1_0000_0000);
        lemma_add_mod_noop(first as int, (c_rest % 0x1_0000_0000) * 16, 0x1_0000_0000);
        assert(first as int % 0x1_0000_0000 == first as int) by {
            lemma_fundamental_div_mod_converse_mod(first as int, 0x1_0000_0000, 0, first as int);
        }
        assert(mag as int % 0x1_0000_0000 == mag_spec % 0x1_0000_0000);
    }
    let res_mod: u64 = if negative {
        proof {
            let c_rest = cont_digits_val(s.subrange(st + 1, en + 1));
            let mag_spec = (b64_value(s[st as int]) % 32) / 2 + 16 * c_rest;
            // (-mag_spec) % 2^32 == (2^32 - mag_spec % 2^32) % 2^32
            lemma_fundamental_div_mod(mag_spec, 0x1_0000_0000);
            let q = mag_spec / 0x1_0000_0000;
            let r = mag_spec % 0x1_0000_0000;
            if r == 0 {
                lemma_fundamental_div_mod_converse_mod(-mag_spec, 0x1_0000_0000, -q, 0);
            } else {
                lemma_fundamental_div_mod_converse_mod(
                    -mag_spec,
                    0x1_0000_0000,
                    -q - 1,
                    0x1_0000_0000 - r,
                );
            }
            lemma_fundamental_div_mod_converse_mod(
                (0x1_0000_0000 - mag_mod as int) % 0x1_0000_0000,
                0x1_0000_0000,
                0,
                (0x1_0000_0000 - mag_mod as int) % 0x1_0000_0000,
            );
            if mag_mod == 0 {
                lemma_fundamental_div_mod_converse_mod(
                    0x1_0000_0000 - mag_mod as int,
                    0x1_0000_0000,
                    1,
                    0,
                );
            } else {
                lemma_fundamental_div_mod_converse_mod(
                    0x1_0000_0000 - mag_mod as int,
                    0x1_0000_0000,
                    0,
                    0x1_0000_0000 - mag_mod as int,
                );
            }
        }
        (m - mag_mod) % m
    } else {
        mag_mod
    };
    if res_mod >= 0x8000_0000 {
        ((res_mod as i64) - 0x1_0000_0000i64) as i32
    } else {
        res_mod as i32
    }
}

/// Decodes one VLQ segment to its four deltas.
///
/// The empty segment decodes to four zeros. A character outside the base64
/// alphabet, a final group whose continuation bit never clears, and a group
/// count other than 4 or 5 each fail with the matching [`VlqError`]; a fifth
/// group is decoded and discarded.
pub fn vlq_decode(base64_str: &str) -> (r: Result<[i32; 4], VlqError>)
    ensures
        match r {
            Ok(a) => spec_vlq_decode(base64_str@) == Ok::<_, VlqError>(
                (a@[0] as int, a@[1] as int, a@[2] as int, a@[3] as int),
            ),
            Err(e) => spec_vlq_decode(base64_str@) == Err::<(int, int, int, int), _>(e),
        },
{
    let n: usize = base64_str.unicode_len();
    if n == 0 {
        return Ok([0i32, 0i32, 0i32, 0i32]);
    }
    // Map every character to its alphabet index; reject foreign characters.
    let mut vals: Vec<u8> = Vec::new();
    let mut i: usize = 0;
    while i < n
        invariant
            i <= n,
            n == base64_str@.len(),
            vals@.len() == i,
            forall|j: int| 0 <= j < i ==> (#[trigger] vals@[j]) as int == b64_value(
                base64_str@[j],
            ) && 0 <= b64_value(base64_str@[j]) < 64,
        decreases n - i,
    {
        let c = base64_str.get_char(i);
        match b64_char_value(c) {
            Some(v) => {
                proof {
                    assert(c == base64_str@[i as int]);
                    assert forall|j: int| 0 <= j < i + 1 implies (#[trigger] vals@.push(v)[j])
                        as int == b64_value(base64_str@[j]) && 0 <= b64_value(base64_str@[j])
                        < 64 by {
                        if j < i {
                            assert(vals@.push(v)[j] == vals@[j]);
                        }
                    }
                }
                vals.push(v);
            },
            None => {
                return Err(VlqError::InvalidChar);
            },
        }
        i += 1;
    }
    assert(seg_chars_valid(base64_str@)) by {
        assert forall|j: int| 0 <= j < base64_str@.len() implies b64_value(base64_str@[j])
            >= 0 by {
            assert(vals@[j] as int == b64_value(base64_str@[j]));
        }
    }
    // The last group must be terminated.
    if vals[n - 1] >= 32 {
        assert(is_continuation(base64_str@.last()));
        return Err(VlqError::Unterminated);
    }
    // Gather the group boundaries: (first index, terminator index) pairs.
    let ghost sv = base64_str@;
    let mut groups: Vec<(usize, usize)> = Vec::new();
    let mut start: usize = 0;
    let mut i: usize = 0;
    proof {
        assert(sv.skip(0) =~= sv);
        assert(groups@.map_values(|pr: (usize, usize)| sv.subrange(pr.0 as int, pr.1 + 1))
            + spec_groups(sv) =~= spec_groups(sv));
    }
    while i < n
        invariant
            start <= i <= n,
            n == sv.len(),
            vals@.len() == n,
            forall|j: int| 0 <= j < n ==> vals@[j] as int == b64_value(sv[j]) && 0 <= b64_value(
                sv[j],
            ) < 64,
            forall|j: int| start <= j < i ==> is_continuation(sv[j]),
            forall|k: int| 0 <= k < groups@.len() ==> (#[trigger] groups@[k]).0 <= groups@[k].1
                && groups@[k].1 < n,
            spec_groups(sv) == groups@.map_values(
                |pr: (usize, usize)| sv.subrange(pr.0 as int, pr.1 + 1),
            ) + spec_groups(sv.skip(start as int)),
        decreases n - i,
    {
        if vals[i] < 32 {
            proof {
                let tail = sv.skip(start as int);
                assert(!is_continuation(tail[i - start]));
                assert(forall|jj: int| 0 <= jj < i - start ==> is_continuation(
                    #[trigger] tail[jj],
                ));
                lemma_groups_peel(tail, i - start + 1);
                assert(tail.take(i - start + 1) =~= sv.subrange(start as int, i + 1));
                assert(tail.skip(i - start + 1) =~= sv.skip(i + 1));
                let f = |pr: (usize, usize)| sv.subrange(pr.0 as int, pr.1 + 1);
                assert(groups@.push((start, i)).map_values(f) =~= groups@.map_values(f).push(
                    sv.subrange(start as int, i + 1),
                ));
                assert(groups@.map_values(f) + (seq![sv.subrange(start as int, i + 1)]
                    + spec_groups(sv.skip(i + 1))) =~= groups@.map_values(f).push(
                    sv.subrange(start as int, i + 1),
                ) + spec_groups(sv.skip(i + 1)));
                assert forall|k: int| 0 <= k < groups@.push((start, i)).len() implies (
                #[trigger] groups@.push((start, i))[k]).0 <= groups@.push((start, i))[k].1
                    && groups@.push((start, i))[k].1 < n by {
                    if k < groups@.len() {
                        assert(groups@.push((start, i))[k] == groups@[k]);
                    }
                }
            }
            groups.push((start, i));
            start = i + 1;
        }
        i += 1;
    }
    proof {
        if start < n {
            assert(is_continuation(sv[n - 1]));
            assert(false);
        }
        assert(spec_groups(sv.skip(n as int)) =~= Seq::<Seq<char>>::empty());
        assert(spec_groups(sv) =~= groups@.map_values(
            |pr: (usize, usize)| sv.subrange(pr.0 as int, pr.1 + 1),
        ));
    }
    let count: usize = groups.len();
    if count != 4 && count != 5 {
        return Err(VlqError::WrongFieldCount);
    }
    let ghost f = |pr: (usize, usize)| sv.subrange(pr.0 as int, pr.1 + 1);
    let g0 = groups[0];
    let g1 = groups[1];
    let g2 = groups[2];
    let g3 = groups[3];
    let a0 = decode_group(&vals, Ghost(sv), g0.0, g0.1);
    let a1 = decode_group(&vals, Ghost(sv), g1.0, g1.1);
    let a2 = decode_group(&vals, Ghost(sv), g2.0, g2.1);
    let a3 = decode_group(&vals, Ghost(sv), g3.0, g3.1);
    proof {
        assert(spec_groups(sv)[0] == f(groups@[0]));
        assert(spec_groups(sv)[1] == f(groups@[1]));
        assert(spec_groups(sv)[2] == f(groups@[2]));
        assert(spec_groups(sv)[3] == f(groups@[3]));
    }
    let res = [a0, a1, a2, a3];
    assert(res@[0] == a0 && res@[1] == a1 && res@[2] == a2 && res@[3] == a3);
    Ok(res)
}

} // verus!

