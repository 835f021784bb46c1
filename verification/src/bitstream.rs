//! Bit reader: most significant bit first within 16-bit little-endian words.
use vstd::arithmetic::power2::*;
use vstd::prelude::*;

verus! {

/// The byte that holds bit `i`: the bytes of each 16-bit word are taken high byte
/// first.
pub open spec fn byte_of_bit(i: nat) -> nat {
    if (i / 8) % 2 == 0 {
        i / 8 + 1
    } else {
        (i / 8 - 1) as nat
    }
}

/// Bit `i` of the stream. A word that is not wholly inside the data reads as zero.
pub open spec fn stream_bit(data: Seq<u8>, i: nat) -> nat {
    if (i / 16) * 2 + 1 < data.len() {
        ((data[byte_of_bit(i) as int] >> ((7 - i % 8) as u8)) & 1u8) as nat
    } else {
        0
    }
}

/// The `n` bits from bit `pos` on, as an unsigned number, first bit highest.
pub open spec fn field(data: Seq<u8>, pos: nat, n: nat) -> nat
    decreases n,
{
    if n == 0 {
        0
    } else {
        2 * field(data, pos, (n - 1) as nat) + stream_bit(data, (pos + n - 1) as nat)
    }
}

pub proof fn lemma_stream_bit(data: Seq<u8>, i: nat)
    ensures
        stream_bit(data, i) <= 1,
{
    let b = data[byte_of_bit(i) as int];
    let s = (7 - i % 8) as u8;
    assert((b >> s) & 1u8 <= 1) by (bit_vector);
}

pub proof fn lemma_field_bound(data: Seq<u8>, pos: nat, n: nat)
    ensures
        field(data, pos, n) < pow2(n),
    decreases n,
{
    if n == 0 {
        lemma2_to64();
    } else {
        lemma_field_bound(data, pos, (n - 1) as nat);
        lemma_stream_bit(data, (pos + n - 1) as nat);
        lemma_pow2_unfold(n);
    }
}

/// Bit `i` of the stream.
pub fn bit_at(data: &[u8], i: usize) -> (r: u8)
    ensures
        r == stream_bit(data@, i as nat),
        r <= 1,
{
    proof {
        lemma_stream_bit(data@, i as nat);
    }
    if (i / 16) * 2 + 1 < data.len() {
        let byte: usize = if (i / 8) % 2 == 0 {
            i / 8 + 1
        } else {
            i / 8 - 1
        };
        let shift: u8 = (7 - i % 8) as u8;
        (data[byte] >> shift) & 1u8
    } else {
        0
    }
}

/// A cursor over a byte buffer.
pub struct BitstreamReader<'a> {
    data: &'a [u8],
    pos: usize,
}

impl<'a> BitstreamReader<'a> {
    /// The bytes that are read.
    pub closed spec fn data(self) -> Seq<u8> {
        self.data@
    }

    /// The number of bits read so far.
    pub closed spec fn pos(self) -> nat {
        self.pos as nat
    }

    pub fn new(data: &'a [u8]) -> (r: Self)
        ensures
            r.data() == data@,
            r.pos() == 0,
    {
        BitstreamReader { data, pos: 0 }
    }

    fn read_bit(&mut self) -> (r: u64)
        requires
            old(self).pos() < usize::MAX,
        ensures
            final(self).data() == old(self).data(),
            final(self).pos() == old(self).pos() + 1,
            r == stream_bit(old(self).data(), old(self).pos()),
            r <= 1,
    {
        let i: usize = self.pos;
        self.pos = i + 1;
        bit_at(self.data, i) as u64
    }

    /// Reads `n` bits as an unsigned number.
    pub fn read_bits_u64(&mut self, n: u32) -> (r: u64)
        requires
            n <= 64,
            old(self).pos() + n <= usize::MAX,
        ensures
            final(self).data() == old(self).data(),
            final(self).pos() == old(self).pos() + n,
            r == field(old(self).data(), old(self).pos(), n as nat),
            r < pow2(n as nat),
    {
        let mut v: u64 = 0;
        let mut k: u32 = 0;
        while k < n
            invariant
                k <= n <= 64,
                old(self).pos() + n <= usize::MAX,
                self.data() == old(self).data(),
                self.pos() == old(self).pos() + k,
                v == field(old(self).data(), old(self).pos(), k as nat),
            decreases n - k,
        {
            proof {
                lemma_field_bound(old(self).data(), old(self).pos(), (k + 1) as nat);
                if k + 1 < 64 {
                    lemma_pow2_strictly_increases((k + 1) as nat, 64);
                }
                lemma2_to64();
            }
            let bit: u64 = self.read_bit();
            v = v * 2 + bit;
            k += 1;
        }
        proof {
            lemma_field_bound(old(self).data(), old(self).pos(), n as nat);
        }
        v
    }

    /// Reads up to 32 bits as an unsigned number.
    pub fn read_bits(&mut self, n: u32) -> (r: u32)
        requires
            n <= 32,
            old(self).pos() + n <= usize::MAX,
        ensures
            final(self).data() == old(self).data(),
            final(self).pos() == old(self).pos() + n,
            r == field(old(self).data(), old(self).pos(), n as nat),
            r < pow2(n as nat),
    {
        let v: u64 = self.read_bits_u64(n);
        proof {
            if n < 32 {
                lemma_pow2_strictly_increases(n as nat, 32);
            }
            lemma2_to64();
        }
        v as u32
    }
}

} // verus!
