use vstd::prelude::*;
use vstd::arithmetic::power2::{
    pow2, lemma_pow2_pos, lemma_pow2_unfold, lemma_pow2_strictly_increases, lemma2_to64,
};
use vstd::arithmetic::div_mod::{lemma_fundamental_div_mod, lemma_mod_twice, lemma_small_mod};
use crate::bits::{
    bits_value, low_bits, zeros, lemma_low_bits_one, lemma_low_bits_len, lemma_low_bits_value, lemma_bits_value_push,
};
use crate::stream::{StreamError, StreamReader, StreamWriter};

verus! {

pub open spec fn abs(v: int) -> int {
    if v < 0 { -v } else { v }
}

/// Sum of the absolute gradients among the four causal neighbours.
pub open spec fn activity(a: u16, b: u16, c: u16, d: u16) -> int {
    abs(d - b) + abs(b - c) + abs(c - a)
}

/// `k` is the smallest non-negative integer with `3 * 2^k >= act`.
pub open spec fn is_rice_k(act: int, k: nat) -> bool {
    &&& 3 * pow2(k) >= act
    &&& k == 0 || 3 * pow2((k - 1) as nat) < act
}

/// Zigzag fold of a signed residual onto the non-negative integers.
pub open spec fn fold(x: int) -> nat {
    if x >= 0 { (2 * x) as nat } else { (-2 * x - 1) as nat }
}

/// Inverse of the fold on 32-bit words, with the word read as a signed integer
/// before its arithmetic shift: `(v >> 1) ^ sign_extend(v << 31)`.
pub open spec fn unfold(v: nat) -> int {
    let h: int = v as int / 2;
    let base: int = if v >= 0x8000_0000 { h - 0x8000_0000 } else { h };
    if v % 2 == 0 { base } else { -base - 1 }
}

/// The codeword of `x` under parameter `k`: the quotient of its fold in unary
/// (zero bits closed by a one bit), then the `k` low bits of the fold.
pub open spec fn rice_code(k: nat, x: int) -> Seq<bool> {
    zeros(fold(x) / pow2(k)).push(true) + low_bits(fold(x) % pow2(k), k)
}

/// Number of zero bits before the first one bit (or the whole length).
pub open spec fn zero_run(s: Seq<bool>) -> nat
    decreases s.len(),
{
    if s.len() == 0 || s[0] {
        0
    } else {
        1 + zero_run(s.skip(1))
    }
}

/// The residual that a decoder rebuilds from the unary count `q` and the
/// remainder `r`, on 32-bit words.
pub open spec fn rice_value(q: nat, r: nat, k: nat) -> int {
    unfold((((q % 0x1_0000_0000) * pow2(k) + r) % 0x1_0000_0000) as nat)
}

/// Whether `s` starts with a whole codeword for parameter `k`.
pub open spec fn has_codeword(s: Seq<bool>, k: nat) -> bool {
    zero_run(s) + 1 + k <= s.len()
}

/// The residual encoded by the codeword at the front of `s`.
pub open spec fn codeword_value(s: Seq<bool>, k: nat) -> int {
    let q = zero_run(s);
    rice_value(q, bits_value(s.subrange((q + 1) as int, (q + 1 + k) as int)), k)
}

/// Residuals that the fold handles on 32-bit words.
pub open spec fn residual_in_range(x: int) -> bool {
    -0x4000_0000 <= x < 0x4000_0000
}

proof fn lemma_zero_run_prefix(s: Seq<bool>, c: nat)
    requires
        c <= s.len(),
        forall|i: int| 0 <= i < c ==> !s[i],
    ensures
        zero_run(s) == c + zero_run(s.skip(c as int)),
    decreases c,
{
    if c == 0 {
        assert(s.skip(0) =~= s);
    } else {
        let t = s.skip(1);
        assert forall|i: int| 0 <= i < c - 1 implies !t[i] by {
            assert(t[i] == s[i + 1]);
        }
        lemma_zero_run_prefix(t, (c - 1) as nat);
        assert(t.skip(c - 1) =~= s.skip(c as int));
    }
}

fn pow2_u64(k: u32) -> (r: u64)
    requires
        k < 64,
    ensures
        r as nat == pow2(k as nat),
{
    let mut r: u64 = 1;
    let mut i: u32 = 0;
    proof {
        lemma2_to64();
    }
    while i < k
        invariant
            i <= k < 64,
            r as nat == pow2(i as nat),
        decreases k - i,
    {
        proof {
            lemma_pow2_unfold((i + 1) as nat);
            lemma2_to64();
            lemma_pow2_strictly_increases((i + 1) as nat, 64);
        }
        r = r * 2;
        i = i + 1;
    }
    r
}

/// The Rice parameter for the causal context `(a, b, c, d)`.
pub fn rice_compute_k(a: u16, b: u16, c: u16, d: u16) -> (k: u32)
    ensures
        is_rice_k(activity(a, b, c, d), k as nat),
        k <= 16,
{
    let db: i32 = d as i32 - b as i32;
    let bc: i32 = b as i32 - c as i32;
    let ca: i32 = c as i32 - a as i32;
    let activity_level: i32 = (if db < 0 { -db } else { db }) + (if bc < 0 { -bc } else { bc })
        + (if ca < 0 { -ca } else { ca });
    let mut k: u32 = 0;
    let mut p: i32 = 3;
    proof {
        lemma2_to64();
    }
    while p < activity_level
        invariant
            activity_level == activity(a, b, c, d),
            activity_level <= 3 * 65535,
            k <= 16,
            p == 3 * pow2(k as nat),
            k == 0 || 3 * pow2((k - 1) as nat) < activity_level,
        decreases 16 - k,
    {
        proof {
            lemma2_to64();
            if k >= 16 {
                if k > 16 {
                    lemma_pow2_strictly_increases(16, k as nat);
                }
                assert(false);
            }
            lemma_pow2_unfold((k + 1) as nat);
        }
        p = p * 2;
        k = k + 1;
    }
    k
}

/// Appends the Rice codeword of residual `x` under parameter `k`.
pub fn rice_encode_value(k: u32, x: i32, dest: &mut StreamWriter)
    requires
        old(dest).wf(),
        k < 32,
        residual_in_range(x as int),
    ensures
        final(dest).wf(),
        final(dest).bits() == old(dest).bits() + rice_code(k as nat, x as int),
        old(dest).bytes_view().is_prefix_of(final(dest).bytes_view()),
{
    let xi: i64 = x as i64;
    let folded: u64 = if xi >= 0 { (2 * xi) as u64 } else { (-1 - 2 * xi) as u64 };
    assert(folded as nat == fold(x as int) && folded < 0x8000_0000);
    let p: u64 = pow2_u64(k);
    proof {
        lemma_pow2_pos(k as nat);
    }
    let q: u64 = folded / p;
    let r: u64 = folded % p;
    proof {
        lemma_pow2_pos(k as nat);
        assert(q <= folded) by (nonlinear_arith)
            requires p >= 1, q == folded / p;
        lemma_low_bits_one(q as nat);
    }
    dest.write(1, (q + 1) as usize);
    dest.write(r, k as usize);
    assert(final(dest).bits() =~= old(dest).bits() + rice_code(k as nat, x as int));
}

/// Reads one Rice codeword under parameter `k` and returns the residual.
pub fn rice_decode_value(k: u32, source: &mut StreamReader) -> (r: Result<i32, StreamError>)
    requires
        old(source).wf(),
        k < 32,
    ensures
        final(source).wf(),
        final(source).source() == old(source).source(),
        match r {
            Ok(x) => has_codeword(old(source).remaining(), k as nat)
                && x as int == codeword_value(old(source).remaining(), k as nat)
                && final(source).position() == old(source).position() + zero_run(
                old(source).remaining(),
            ) + 1 + k,
            Err(e) => !has_codeword(old(source).remaining(), k as nat) && e
                == StreamError::UnexpectedEof,
        },
{
    let ghost s = source.remaining();
    let mut high: u32 = 0;
    let ghost mut cnt: int = 0;
    loop
        invariant_except_break
            source.position() == old(source).position() + cnt,
        invariant
            source.wf(),
            source.source() == old(source).source(),
            s == old(source).remaining(),
            0 <= cnt <= s.len(),
            forall|i: int| 0 <= i < cnt ==> !s[i],
            high as int == cnt % 0x1_0000_0000,
        ensures
            cnt < s.len(),
            s[cnt],
            source.position() == old(source).position() + cnt + 1,
        decreases s.len() - cnt,
    {
        proof {
            source.lemma_layout();
            assert(source.remaining() =~= s.skip(cnt as int));
            lemma_zero_run_prefix(s, cnt as nat);
        }
        let bit = match source.read(1) {
            Ok(b) => b,
            Err(e) => {
                return Err(e);
            },
        };
        proof {
            let t = s.skip(cnt as int).take(1);
            assert(t =~= Seq::<bool>::empty().push(s[cnt as int]));
            lemma_bits_value_push(Seq::<bool>::empty(), s[cnt as int]);
        }
        if bit != 0 {
            proof {
                assert(zero_run(s.skip(cnt as int)) == 0);
            }
            break;
        }
        high = if high == 0xffff_ffff { 0 } else { high + 1 };
        proof {
            cnt = cnt + 1;
        }
    }
    proof {
        lemma_zero_run_prefix(s, cnt as nat);
        assert(zero_run(s.skip(cnt as int)) == 0);
        source.lemma_layout();
        assert(source.remaining() =~= s.skip(cnt + 1));
    }
    let rest = match source.read(k as usize) {
        Ok(v) => v,
        Err(e) => {
            return Err(e);
        },
    };
    assert(s.skip(cnt + 1).take(k as int) =~= s.subrange(cnt + 1, cnt + 1 + k));
    let p: u64 = pow2_u64(k);
    proof {
        lemma2_to64();
        if k < 31 {
            lemma_pow2_strictly_increases(k as nat, 31);
        }
        lemma_low_bits_value(0, 0);
        assert(bits_value(s.subrange(cnt + 1, cnt + 1 + k)) < pow2(k as nat)) by {
            lemma_bits_value_bound(s.subrange(cnt + 1, cnt + 1 + k));
        }
        assert((high as nat) * (p as nat) <= 0xffff_ffff * 0x8000_0000) by (nonlinear_arith)
            requires high <= 0xffff_ffff, p <= 0x8000_0000;
    }
    let word: u64 = (high as u64 * p + rest) % 0x1_0000_0000;
    let h: i64 = (word / 2) as i64;
    let base: i64 = if word >= 0x8000_0000 { h - 0x8000_0000 } else { h };
    let x: i64 = if word % 2 == 0 { base } else { -base - 1 };
    Ok(x as i32)
}

proof fn lemma_bits_value_bound(s: Seq<bool>)
    ensures
        bits_value(s) < pow2(s.len()),
    decreases s.len(),
{
    if s.len() == 0 {
        lemma2_to64();
    } else {
        lemma_bits_value_bound(s.drop_last());
        lemma_pow2_unfold(s.len());
    }
}

/// Decoding the codeword of a residual `x`, whatever bits follow it, gives back `x`.
pub proof fn lemma_codeword_round_trip(k: nat, x: int, rest: Seq<bool>)
    requires
        k < 32,
        residual_in_range(x),
    ensures
        has_codeword(rice_code(k, x) + rest, k),
        codeword_value(rice_code(k, x) + rest, k) == x,
        zero_run(rice_code(k, x) + rest) == fold(x) / pow2(k),
{
    let f = fold(x);
    let p = pow2(k);
    lemma_pow2_pos(k);
    let q = f / p;
    let r = f % p;
    let s = rice_code(k, x) + rest;
    lemma_low_bits_len(r, k);
    assert forall|i: int| 0 <= i < q implies !s[i] by {
        assert(s[i] == zeros(q)[i]);
    }
    assert(s[q as int]);
    lemma_zero_run_prefix(s, q);
    assert(zero_run(s.skip(q as int)) == 0);
    assert(s.subrange((q + 1) as int, (q + 1 + k) as int) =~= low_bits(r, k));
    lemma_low_bits_value(r, k);
    lemma_mod_twice(f as int, p as int);
    lemma_fundamental_div_mod(f as int, p as int);
    assert(q <= f) by (nonlinear_arith)
        requires p >= 1, q == f / p;
    lemma_small_mod(q, 0x1_0000_0000);
    lemma_small_mod(f, 0x1_0000_0000);
    assert(q * p + r == f) by (nonlinear_arith)
        requires f == p * (f / p) + f % p, q == f / p, r == f % p;
}

/// The Rice parameter never decreases as the activity level grows.
pub proof fn lemma_k_monotone(act1: int, act2: int, k1: nat, k2: nat)
    requires
        act1 <= act2,
        is_rice_k(act1, k1),
        is_rice_k(act2, k2),
    ensures
        k1 <= k2,
{
    if k1 > k2 {
        if k2 < k1 - 1 {
            lemma_pow2_strictly_increases(k2, (k1 - 1) as nat);
        }
    }
}

/// A flat context (all four neighbours equal) has zero activity and selects `k == 0`.
pub proof fn lemma_k_flat(a: u16, k: nat)
    requires
        is_rice_k(activity(a, a, a, a), k),
    ensures
        activity(a, a, a, a) == 0,
        k == 0,
{
    if k > 0 {
        lemma_pow2_pos((k - 1) as nat);
    }
}

} // verus!
