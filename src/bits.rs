use vstd::prelude::*;
use vstd::arithmetic::power2::{pow2, lemma_pow2_pos, lemma_pow2_unfold, lemma2_to64};
use vstd::arithmetic::div_mod::{lemma_div_denominator, lemma_mod_breakdown};

verus! {

/// The bits of one byte, most significant first.
pub open spec fn byte_bits(b: u8) -> Seq<bool> {
    Seq::new(8, |i: int| (b >> ((7 - i) as u8)) & 1 == 1)
}

/// The bits of a byte sequence, each byte most significant bit first.
pub open spec fn bytes_bits(s: Seq<u8>) -> Seq<bool>
    decreases s.len(),
{
    if s.len() == 0 {
        Seq::empty()
    } else {
        bytes_bits(s.drop_last()) + byte_bits(s.last())
    }
}

/// The unsigned value of a bit sequence read most significant bit first.
pub open spec fn bits_value(s: Seq<bool>) -> nat
    decreases s.len(),
{
    if s.len() == 0 {
        0
    } else {
        2 * bits_value(s.drop_last()) + if s.last() { 1nat } else { 0nat }
    }
}

/// The low `n` bits of `v`, most significant first.
pub open spec fn low_bits(v: nat, n: nat) -> Seq<bool>
    decreases n,
{
    if n == 0 {
        Seq::empty()
    } else {
        low_bits(v / 2, (n - 1) as nat).push(v % 2 == 1)
    }
}

/// `n` zero bits.
pub open spec fn zeros(n: nat) -> Seq<bool> {
    Seq::new(n, |i: int| false)
}


pub proof fn lemma_bits_value_push(s: Seq<bool>, b: bool)
    ensures
        bits_value(s.push(b)) == 2 * bits_value(s) + if b { 1nat } else { 0nat },
{
    assert(s.push(b).drop_last() =~= s);
}

pub proof fn lemma_low_bits_len(v: nat, n: nat)
    ensures
        low_bits(v, n).len() == n,
    decreases n,
{
    if n > 0 {
        lemma_low_bits_len(v / 2, (n - 1) as nat);
    }
}

/// Reading back the low `n` bits of `v` gives `v` modulo `2^n`.
pub proof fn lemma_low_bits_value(v: nat, n: nat)
    ensures
        bits_value(low_bits(v, n)) == v % pow2(n),
    decreases n,
{
    if n == 0 {
        lemma2_to64();
    } else {
        let m = (n - 1) as nat;
        lemma_low_bits_value(v / 2, m);
        lemma_bits_value_push(low_bits(v / 2, m), v % 2 == 1);
        lemma_pow2_unfold(n);
        lemma_pow2_pos(m);
        // v % (2 * p) == 2 * ((v / 2) % p) + v % 2
        let p = pow2(m);
        lemma_mod_breakdown(v as int, 2, p as int);
    }
}

/// Bit `j` of the low `n` bits of `v`, counted from the most significant end.
pub proof fn lemma_low_bits_index(v: nat, n: nat, j: int)
    requires
        0 <= j < n,
    ensures
        low_bits(v, n).len() == n,
        low_bits(v, n)[j] == ((v / pow2((n - 1 - j) as nat)) % 2 == 1),
    decreases n,
{
    lemma_low_bits_len(v, n);
    let m = (n - 1) as nat;
    lemma_low_bits_len(v / 2, m);
    assert(low_bits(v, n) == low_bits(v / 2, m).push(v % 2 == 1));
    if j == m {
        lemma2_to64();
        assert(v / pow2(0) == v);
    } else {
        lemma_low_bits_index(v / 2, m, j);
        assert(low_bits(v, n) == low_bits(v / 2, m).push(v % 2 == 1));
        assert(low_bits(v, n)[j] == low_bits(v / 2, m)[j]);
        let e = (m - 1 - j) as nat;
        lemma_pow2_pos(e);
        lemma_div_denominator(v as int, 2, pow2(e) as int);
        lemma_pow2_unfold(e + 1);
        assert((e + 1) as nat == (n - 1 - j) as nat);
    }
}

/// Setting only the lowest of `n + 1` bits gives `n` zero bits and a one bit.
pub proof fn lemma_low_bits_one(n: nat)
    ensures
        low_bits(1, n + 1) == zeros(n).push(true),
{
    lemma_low_bits_zero(n);
    assert(low_bits(1, n + 1) == low_bits(0, n).push(true));
}

pub proof fn lemma_low_bits_zero(n: nat)
    ensures
        low_bits(0, n) == zeros(n),
    decreases n,
{
    if n > 0 {
        lemma_low_bits_zero((n - 1) as nat);
        assert(zeros((n - 1) as nat).push(false) =~= zeros(n));
    } else {
        assert(low_bits(0, 0) =~= zeros(0));
    }
}

pub proof fn lemma_bytes_bits_len(s: Seq<u8>)
    ensures
        bytes_bits(s).len() == 8 * s.len(),
    decreases s.len(),
{
    if s.len() > 0 {
        lemma_bytes_bits_len(s.drop_last());
    }
}

pub proof fn lemma_bytes_bits_push(s: Seq<u8>, b: u8)
    ensures
        bytes_bits(s.push(b)) == bytes_bits(s) + byte_bits(b),
{
    assert(s.push(b).drop_last() =~= s);
}

/// Bit `q` of byte `p` stands at index `8 * p + q` of the bit sequence.
pub proof fn lemma_bytes_bits_index(s: Seq<u8>, p: int, q: int)
    requires
        0 <= p < s.len(),
        0 <= q < 8,
    ensures
        bytes_bits(s).len() == 8 * s.len(),
        bytes_bits(s)[8 * p + q] == byte_bits(s[p])[q],
    decreases s.len(),
{
    lemma_bytes_bits_len(s);
    lemma_bytes_bits_len(s.drop_last());
    if p < s.len() - 1 {
        lemma_bytes_bits_index(s.drop_last(), p, q);
    }
}

pub proof fn lemma_bytes_bits_append(a: Seq<u8>, b: Seq<u8>)
    ensures
        bytes_bits(a + b) == bytes_bits(a) + bytes_bits(b),
    decreases b.len(),
{
    if b.len() == 0 {
        assert(a + b =~= a);
        assert(bytes_bits(a) + bytes_bits(b) =~= bytes_bits(a));
    } else {
        lemma_bytes_bits_append(a, b.drop_last());
        assert((a + b).drop_last() =~= a + b.drop_last());
        assert(bytes_bits(a) + bytes_bits(b.drop_last()) + byte_bits(b.last())
            =~= bytes_bits(a) + (bytes_bits(b.drop_last()) + byte_bits(b.last())));
    }
}

} // verus!
