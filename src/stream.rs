use vstd::prelude::*;
use vstd::arithmetic::power2::{pow2, lemma_pow2_pos, lemma_pow2_unfold, lemma_pow2_strictly_increases, lemma2_to64, lemma2_to64_rest};
use vstd::bits::lemma_u64_shr_is_div;
use crate::bits::{
    byte_bits, bytes_bits, bits_value, low_bits, zeros, lemma_bits_value_push,
    lemma_low_bits_index, lemma_low_bits_len, lemma_bytes_bits_len, lemma_bytes_bits_push,
    lemma_bytes_bits_index,
};

verus! {

/// Failure while reading a bit stream.
#[derive(Debug, Clone, Copy, PartialEq, Eq, Structural)]
pub enum StreamError {
    /// The source ran out of bytes while more bits were needed.
    UnexpectedEof,
}

proof fn lemma_push_bit_u8(acc: u8, n: u8, b: u8)
    requires
        n < 8,
        acc >> n == 0,
        b <= 1,
    ensures
        acc < 128,
        ((acc * 2 + b) as u8) >> ((n + 1) as u8) == 0,
        (((acc * 2 + b) as u8) >> 0u8) & 1 == b,
        forall|j: u8| j < n ==> (((acc * 2 + b) as u8) >> ((j + 1) as u8)) & 1 == (acc >> j) & 1,
{
    assert(acc < 128) by (bit_vector)
        requires n < 8, acc >> n == 0;
    assert(((acc * 2 + b) as u8) >> ((n + 1) as u8) == 0) by (bit_vector)
        requires n < 8, acc >> n == 0, b <= 1;
    assert((((acc * 2 + b) as u8) >> 0u8) & 1 == b) by (bit_vector)
        requires n < 8, acc >> n == 0, b <= 1;
    assert forall|j: u8| j < n implies (((acc * 2 + b) as u8) >> ((j + 1) as u8)) & 1 == (acc >> j) & 1 by {
        assert((((acc * 2 + b) as u8) >> ((j + 1) as u8)) & 1 == (acc >> j) & 1) by (bit_vector)
            requires j < n, n < 8, acc >> n == 0, b <= 1;
    }
}

/// Bit `s` of `v` (counted from the least significant end) as a division.
proof fn lemma_u64_bit(v: u64, s: u64)
    requires
        s < 64,
    ensures
        ((v >> s) & 1 == 1) == ((v as nat / pow2(s as nat)) % 2 == 1),
{
    lemma_u64_shr_is_div(v, s);
    let w = v >> s;
    assert(w & 1 == w % 2) by (bit_vector);
}

/// Packs bits, most significant first, into bytes appended to a buffer.
pub struct StreamWriter {
    bytes: Vec<u8>,
    acc: u8,
    nbits: u8,
}

impl StreamWriter {
    /// The writer's state is consistent: fewer than eight bits wait in the accumulator.
    pub closed spec fn wf(&self) -> bool {
        self.nbits < 8 && self.acc >> self.nbits == 0
    }

    /// The whole bytes emitted so far, including those the buffer held at the start.
    pub closed spec fn bytes_view(&self) -> Seq<u8> {
        self.bytes@
    }

    /// The bits written but not yet emitted as a whole byte.
    pub closed spec fn pending(&self) -> Seq<bool> {
        Seq::new(self.nbits as nat, |i: int| (self.acc >> ((self.nbits - 1 - i) as u8)) & 1 == 1)
    }

    /// Every bit of the stream so far: those of the emitted bytes, then the pending ones.
    pub closed spec fn bits(&self) -> Seq<bool> {
        bytes_bits(self.bytes@) + self.pending()
    }

    /// Fewer than eight bits are pending; all others are in whole bytes.
    pub proof fn lemma_layout(&self)
        requires
            self.wf(),
        ensures
            self.pending().len() < 8,
            self.bits().len() == 8 * self.bytes_view().len() + self.pending().len(),
            self.bits() == bytes_bits(self.bytes_view()) + self.pending(),
    {
        lemma_bytes_bits_len(self.bytes@);
    }

    /// A writer that appends to `bytes`.
    pub fn new(bytes: Vec<u8>) -> (r: StreamWriter)
        ensures
            r.wf(),
            r.bytes_view() == bytes@,
            r.pending().len() == 0,
            r.bits() == bytes_bits(bytes@),
    {
        let r = StreamWriter { bytes, acc: 0, nbits: 0 };
        assert(0u8 >> 0u8 == 0) by (bit_vector);
        assert(r.bits() =~= bytes_bits(bytes@));
        r
    }

    fn push_bit(&mut self, bit: bool)
        requires
            old(self).wf(),
        ensures
            final(self).wf(),
            final(self).bits() == old(self).bits().push(bit),
            final(self).pending().len() == (old(self).pending().len() + 1) % 8,
            old(self).bytes_view().is_prefix_of(final(self).bytes_view()),
    {
        let b: u8 = if bit { 1 } else { 0 };
        proof {
            lemma_push_bit_u8(self.acc, self.nbits, b);
        }
        let ghost old_pending = self.pending();
        let acc: u8 = self.acc * 2 + b;
        self.acc = acc;
        self.nbits = self.nbits + 1;
        assert(self.pending() =~= old_pending.push(bit));
        if self.nbits == 8 {
            let ghost old_bytes = self.bytes@;
            self.bytes.push(acc);
            proof {
                lemma_bytes_bits_push(old_bytes, acc);
                assert(byte_bits(acc) =~= old_pending.push(bit));
            }
            self.acc = 0;
            self.nbits = 0;
            assert(0u8 >> 0u8 == 0) by (bit_vector);
            assert(self.pending() =~= Seq::<bool>::empty());
            assert(self.bits() =~= bytes_bits(old_bytes) + old_pending.push(bit));
        }
        assert(self.bits() =~= old(self).bits().push(bit));
    }

    /// Appends the low `len` bits of `bits`, most significant first; a `len` beyond
    /// 64 is filled with leading zero bits.
    pub fn write(&mut self, bits: u64, len: usize)
        requires
            old(self).wf(),
        ensures
            final(self).wf(),
            final(self).bits() == old(self).bits() + low_bits(bits as nat, len as nat),
            old(self).bytes_view().is_prefix_of(final(self).bytes_view()),
    {
        let ghost target = low_bits(bits as nat, len as nat);
        proof {
            lemma_low_bits_len(bits as nat, len as nat);
        }
        let mut i: usize = len;
        while i > 0
            invariant
                i <= len,
                target == low_bits(bits as nat, len as nat),
                target.len() == len,
                self.wf(),
                self.bits() == old(self).bits() + target.take(len - i),
                old(self).bytes_view().is_prefix_of(self.bytes_view()),
            decreases i,
        {
            let s: usize = i - 1;
            let bit: bool = if s >= 64 {
                false
            } else {
                (bits >> (s as u64)) & 1 == 1
            };
            proof {
                let j: int = len - i;
                lemma_low_bits_index(bits as nat, len as nat, j);
                let e: nat = (len - 1 - j) as nat;
                assert(e == s as nat);
                assert(target[j] == ((bits as nat / pow2(e)) % 2 == 1));
                if s >= 64 {
                    lemma2_to64_rest();
                    if s > 64 {
                        lemma_pow2_strictly_increases(64, s as nat);
                    }
                    lemma_pow2_pos(s as nat);
                    assert(bits as nat / pow2(s as nat) == 0) by (nonlinear_arith)
                        requires bits as nat <= 0xffff_ffff_ffff_ffff, pow2(s as nat) > 0xffff_ffff_ffff_ffff;
                } else {
                    lemma_u64_bit(bits, s as u64);
                }
                assert(target[(len - i) as int] == ((bits as nat / pow2(s as nat)) % 2 == 1));
                assert(bit == ((bits as nat / pow2(s as nat)) % 2 == 1));
            }
            self.push_bit(bit);
            i = i - 1;
            assert(target.take(len - i) =~= target.take(len - i - 1).push(bit));
        }
        assert(target.take(len as int) =~= target);
    }

    /// Pads the pending bits with zero bits up to a whole byte and emits it.
    pub fn flush(&mut self)
        requires
            old(self).wf(),
        ensures
            final(self).wf(),
            final(self).pending().len() == 0,
            final(self).bits() == old(self).bits() + zeros(
                ((8 - old(self).pending().len()) % 8) as nat),
            old(self).bytes_view().is_prefix_of(final(self).bytes_view()),
    {
        let pad: u8 = (8 - self.nbits) % 8;
        let mut i: u8 = 0;
        while i < pad
            invariant
                self.wf(),
                i <= pad,
                pad == (8 - old(self).pending().len()) % 8,
                self.pending().len() == (old(self).pending().len() + i) % 8,
                self.bits() == old(self).bits() + zeros(i as nat),
                old(self).bytes_view().is_prefix_of(self.bytes_view()),
            decreases pad - i,
        {
            self.push_bit(false);
            assert(zeros(i as nat).push(false) =~= zeros((i + 1) as nat));
            i = i + 1;
        }
        assert(self.pending() =~= Seq::<bool>::empty());
    }

    /// Flushes and hands back the bytes.
    pub fn finish(self) -> (r: Vec<u8>)
        requires
            self.wf(),
        ensures
            self.bytes_view().is_prefix_of(r@),
            bytes_bits(r@) == self.bits() + zeros(((8 - self.pending().len()) % 8) as nat),
            8 * r@.len() == self.bits().len() + ((8 - self.pending().len()) % 8),
    {
        let mut w = self;
        w.flush();
        proof {
            w.lemma_layout();
            assert(w.bits() =~= bytes_bits(w.bytes@));
        }
        w.bytes
    }
}

/// Unpacks bits, most significant first, from a byte slice.
pub struct StreamReader<'a> {
    bytes: &'a [u8],
    byte: usize,
    bit: u8,
}

impl<'a> StreamReader<'a> {
    /// The reader's position lies within its source.
    pub closed spec fn wf(&self) -> bool {
        &&& self.bit < 8
        &&& self.byte <= self.bytes@.len()
        &&& self.byte == self.bytes@.len() ==> self.bit == 0
    }

    /// The bytes read from.
    pub closed spec fn source(&self) -> Seq<u8> {
        self.bytes@
    }

    /// How many bits have been consumed.
    pub closed spec fn position(&self) -> nat {
        (8 * self.byte + self.bit) as nat
    }

    /// The bits not consumed yet.
    pub open spec fn remaining(&self) -> Seq<bool> {
        bytes_bits(self.source()).skip(self.position() as int)
    }

    /// The position lies within the source's bits.
    pub proof fn lemma_layout(&self)
        requires
            self.wf(),
        ensures
            bytes_bits(self.source()).len() == 8 * self.source().len(),
            self.position() <= 8 * self.source().len(),
            self.remaining().len() == 8 * self.source().len() - self.position(),
    {
        lemma_bytes_bits_len(self.bytes@);
    }

    /// A reader at the first bit of `bytes`.
    pub fn new(bytes: &'a [u8]) -> (r: StreamReader<'a>)
        ensures
            r.wf(),
            r.source() == bytes@,
            r.position() == 0,
            r.remaining() == bytes_bits(bytes@),
    {
        let r = StreamReader { bytes, byte: 0, bit: 0 };
        assert(r.remaining() =~= bytes_bits(bytes@));
        r
    }

    fn read_bit(&mut self) -> (r: Result<bool, StreamError>)
        requires
            old(self).wf(),
        ensures
            final(self).wf(),
            final(self).source() == old(self).source(),
            match r {
                Ok(b) => old(self).remaining().len() > 0 && b == old(self).remaining()[0]
                    && final(self).position() == old(self).position() + 1,
                Err(e) => old(self).remaining().len() == 0 && e == StreamError::UnexpectedEof
                    && *final(self) == *old(self),
            },
    {
        proof {
            self.lemma_layout();
        }
        if self.byte >= self.bytes.len() {
            return Err(StreamError::UnexpectedEof);
        }
        let v: u8 = self.bytes[self.byte];
        let b: bool = (v >> (7 - self.bit)) & 1 == 1;
        proof {
            lemma_bytes_bits_index(self.bytes@, self.byte as int, self.bit as int);
        }
        if self.bit == 7 {
            self.byte = self.byte + 1;
            self.bit = 0;
        } else {
            self.bit = self.bit + 1;
        }
        Ok(b)
    }

    /// Consumes the next `n` bits and returns them as an unsigned value.
    pub fn read(&mut self, n: usize) -> (r: Result<u64, StreamError>)
        requires
            old(self).wf(),
            n <= 64,
        ensures
            final(self).wf(),
            final(self).source() == old(self).source(),
            match r {
                Ok(v) => n <= old(self).remaining().len()
                    && v as nat == bits_value(old(self).remaining().take(n as int))
                    && final(self).position() == old(self).position() + n,
                Err(e) => old(self).remaining().len() < n && e == StreamError::UnexpectedEof,
            },
    {
        let ghost start = self.remaining();
        let mut v: u64 = 0;
        let mut i: usize = 0;
        proof {
            lemma2_to64();
            self.lemma_layout();
        }
        while i < n
            invariant
                self.wf(),
                i <= n <= 64,
                self.source() == old(self).source(),
                start == old(self).remaining(),
                self.position() == old(self).position() + i,
                i <= start.len(),
                v as nat == bits_value(start.take(i as int)),
                (v as nat) < pow2(i as nat),
            decreases n - i,
        {
            proof {
                self.lemma_layout();
                assert(self.remaining() =~= start.skip(i as int));
            }
            let b = match self.read_bit() {
                Ok(b) => b,
                Err(e) => {
                    return Err(e);
                },
            };
            proof {
                lemma_pow2_unfold((i + 1) as nat);
                if i + 1 < 64 {
                    lemma_pow2_strictly_increases((i + 1) as nat, 64);
                }
                lemma2_to64_rest();
                lemma_bits_value_push(start.take(i as int), b);
                assert(start.take(i as int).push(b) =~= start.take(i + 1));
            }
            v = v * 2 + if b { 1u64 } else { 0u64 };
            i = i + 1;
        }
        proof {
            self.lemma_layout();
        }
        Ok(v)
    }

    /// Returns the next `n` bits as `read` would, without consuming them.
    pub fn shift(&mut self, n: usize) -> (r: Result<u64, StreamError>)
        requires
            old(self).wf(),
            n <= 64,
        ensures
            *final(self) == *old(self),
            match r {
                Ok(v) => n <= old(self).remaining().len()
                    && v as nat == bits_value(old(self).remaining().take(n as int)),
                Err(e) => old(self).remaining().len() < n && e == StreamError::UnexpectedEof,
            },
    {
        let mut probe = StreamReader { bytes: self.bytes, byte: self.byte, bit: self.bit };
        probe.read(n)
    }

    /// Skips the rest of a partly consumed byte.
    pub fn align(&mut self)
        requires
            old(self).wf(),
        ensures
            final(self).wf(),
            final(self).source() == old(self).source(),
            final(self).position() == old(self).position() + (8 - old(self).position() % 8) % 8,
            final(self).position() % 8 == 0,
    {
        if self.bit != 0 && self.byte < self.bytes.len() {
            self.byte = self.byte + 1;
            self.bit = 0;
        }
    }
}

} // verus!
