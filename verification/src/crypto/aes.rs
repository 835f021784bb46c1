//! AES: key expansion and the inverse cipher.
use crate::crypto::aes_tables::{AES_INV_SBOX, AES_RCON, AES_SBOX};
use crate::error::{DecodeError, Fault};
use crate::text;
use vstd::prelude::*;
use vstd::string::*;

verus! {

/// Twice `a` in the field of 256 elements.
pub open spec fn xtime(a: u8) -> u8 {
    if a >= 0x80 {
        (a << 1u8) ^ 0x1b
    } else {
        a << 1u8
    }
}

/// The product in the field of 256 elements.
pub open spec fn gf(a: u8, b: u8) -> u8
    decreases b,
{
    if b == 0 {
        0
    } else {
        (if b % 2 == 1 {
            a
        } else {
            0
        }) ^ gf(xtime(a), b / 2)
    }
}

/// Two words added.
pub open spec fn xor_word(a: Seq<u8>, b: Seq<u8>) -> Seq<u8> {
    Seq::new(4, |i: int| a[i] ^ b[i])
}

/// A word turned by one byte.
pub open spec fn rot_word(w: Seq<u8>) -> Seq<u8> {
    seq![w[1], w[2], w[3], w[0]]
}

/// A word with each byte substituted.
pub open spec fn sub_word(w: Seq<u8>) -> Seq<u8> {
    Seq::new(4, |i: int| AES_SBOX@[w[i] as int])
}

/// The round constant with which word `i` begins a turn of the key.
pub open spec fn round_constant(n: int) -> Seq<u8> {
    seq![AES_RCON@[n - 1], 0, 0, 0]
}

/// What is added to the word one key length before word `i`.
pub open spec fn schedule_term(last: Seq<u8>, nk: int, i: int) -> Seq<u8> {
    if i % nk == 0 {
        xor_word(sub_word(rot_word(last)), round_constant(i / nk))
    } else if nk > 6 && i % nk == 4 {
        sub_word(last)
    } else {
        last
    }
}

/// Word `i` of the expanded key.
pub open spec fn key_word(key: Seq<u8>, i: int) -> Seq<u8>
    decreases i,
{
    let nk = (key.len() / 4) as int;
    if i < nk || nk <= 0 {
        key.subrange(4 * i, 4 * i + 4)
    } else {
        xor_word(key_word(key, i - nk), schedule_term(key_word(key, i - 1), nk, i))
    }
}

/// The key length is one that AES has.
pub open spec fn is_key_len(n: nat) -> bool {
    n == 16 || n == 24 || n == 32
}

/// The fault of a key of a length that AES does not have.
pub open spec fn key_fault(n: nat) -> Option<Fault> {
    if is_key_len(n) {
        None
    } else {
        Some(Fault::EncryptedDs2("unsupported AES key length "@ + text::decimal_of(n)))
    }
}

/// The fault of a block that is not one of AES.
pub open spec fn block_fault(n: nat) -> Option<Fault> {
    if n == 16 {
        None
    } else {
        Some(Fault::EncryptedDs2("AES block decrypt requires 16-byte input"@))
    }
}

/// The rounds for a key length.
pub open spec fn rounds_for(n: nat) -> nat {
    n / 4 + 6
}

/// The expanded key in a field of 256 bytes; what it does not fill is zero.
pub open spec fn expanded(key: Seq<u8>) -> Seq<u8> {
    Seq::new(
        256,
        |i: int|
            if i < 16 * (rounds_for(key.len()) + 1) {
                key_word(key, i / 4)[i % 4]
            } else {
                0
            },
    )
}

/// The round key `r` added to a block.
pub open spec fn with_round_key(block: Seq<u8>, keys: Seq<u8>, r: int) -> Seq<u8> {
    Seq::new(16, |i: int| block[i] ^ keys[16 * r + i])
}

/// Each byte replaced through the inverse substitution box.
pub open spec fn inv_sub(block: Seq<u8>) -> Seq<u8> {
    Seq::new(16, |i: int| AES_INV_SBOX@[block[i] as int])
}

/// Row `r` turned right by `r` columns. Byte `i` stands in row `i % 4`, column `i / 4`.
pub open spec fn inv_shift(block: Seq<u8>) -> Seq<u8> {
    Seq::new(16, |i: int| block[4 * ((i / 4 + 4 - i % 4) % 4) + i % 4])
}

/// Row `r` of a column multiplied by the inverse mixing matrix.
pub open spec fn inv_mix_row(s0: u8, s1: u8, s2: u8, s3: u8, r: int) -> u8 {
    if r == 0 {
        gf(s0, 14) ^ gf(s1, 11) ^ gf(s2, 13) ^ gf(s3, 9)
    } else if r == 1 {
        gf(s0, 9) ^ gf(s1, 14) ^ gf(s2, 11) ^ gf(s3, 13)
    } else if r == 2 {
        gf(s0, 13) ^ gf(s1, 9) ^ gf(s2, 14) ^ gf(s3, 11)
    } else {
        gf(s0, 11) ^ gf(s1, 13) ^ gf(s2, 9) ^ gf(s3, 14)
    }
}

/// Each column multiplied by the inverse mixing matrix.
pub open spec fn inv_mix(block: Seq<u8>) -> Seq<u8> {
    Seq::new(
        16,
        |i: int|
            inv_mix_row(
                block[4 * (i / 4)],
                block[4 * (i / 4) + 1],
                block[4 * (i / 4) + 2],
                block[4 * (i / 4) + 3],
                i % 4,
            ),
    )
}

/// The inner rounds of the inverse cipher, from round `r` down to 1.
pub open spec fn inner_rounds(block: Seq<u8>, keys: Seq<u8>, r: int) -> Seq<u8>
    decreases r,
{
    if r <= 0 {
        block
    } else {
        inner_rounds(inv_mix(with_round_key(inv_sub(inv_shift(block)), keys, r)), keys, r - 1)
    }
}

/// The inverse cipher with an expanded key.
pub open spec fn inv_cipher(block: Seq<u8>, keys: Seq<u8>, rounds: int) -> Seq<u8> {
    with_round_key(
        inv_sub(inv_shift(inner_rounds(with_round_key(block, keys, rounds), keys, rounds - 1))),
        keys,
        0,
    )
}

/// A block decrypted under a key.
pub open spec fn decrypted(key: Seq<u8>, block: Seq<u8>) -> Seq<u8> {
    inv_cipher(block, expanded(key), rounds_for(key.len()) as int)
}

/// The last round key of an expanded key.
pub open spec fn last_round_key(key: Seq<u8>) -> Seq<u8> {
    let r = rounds_for(key.len()) as int;
    expanded(key).subrange(16 * r, 16 * r + 16)
}

pub fn gf_mul(x: u8, y: u8) -> (r: u8)
    ensures
        r == gf(x, y),
{
    let mut a: u8 = x;
    let mut b: u8 = y;
    let mut result: u8 = 0;
    proof {
        let g = gf(x, y);
        assert(0u8 ^ g == g) by (bit_vector);
    }
    while b != 0
        invariant
            result ^ gf(a, b) == gf(x, y),
        decreases b,
    {
        proof {
            let g = gf(xtime(a), b / 2);
            assert(result ^ (a ^ g) == (result ^ a) ^ g) by (bit_vector);
            assert(result ^ (0u8 ^ g) == result ^ g) by (bit_vector);
        }
        if b % 2 == 1 {
            result = result ^ a;
        }
        a = if a >= 0x80 {
            (a << 1u8) ^ 0x1b
        } else {
            a << 1u8
        };
        b = b / 2;
    }
    proof {
        assert(result ^ 0u8 == result) by (bit_vector);
    }
    result
}

/// An expanded key.
#[derive(Clone, Copy)]
pub struct RoundKeys {
    bytes: [u8; 256],
    rounds: usize,
}

impl RoundKeys {
    /// The round keys, one after the other; the rest is zero.
    pub closed spec fn bytes(self) -> Seq<u8> {
        self.bytes@
    }

    /// The number of rounds.
    pub closed spec fn rounds(self) -> nat {
        self.rounds as nat
    }

    /// It is the expansion of the key.
    pub open spec fn expands(self, key: Seq<u8>) -> bool {
        &&& is_key_len(key.len())
        &&& self.bytes() == expanded(key)
        &&& self.rounds() == rounds_for(key.len())
    }

    /// Byte `i` of the round keys.
    pub fn byte(&self, i: usize) -> (r: u8)
        requires
            i < 256,
        ensures
            r == self.bytes()[i as int],
    {
        self.bytes[i]
    }

    /// The number of rounds.
    pub fn round_count(&self) -> (r: usize)
        ensures
            r == self.rounds(),
    {
        self.rounds
    }

    /// Expands a key of 16, 24 or 32 bytes.
    pub fn expand(key: &[u8]) -> (r: Result<RoundKeys, DecodeError>)
        ensures
            match r {
                Ok(keys) => keys.expands(key@),
                Err(e) => key_fault(key@.len()) == Some(e@),
            },
    {
        let len: usize = key.len();
        if len != 16 && len != 24 && len != 32 {
            let number: String = text::decimal(len);
            return Err(
                DecodeError::EncryptedDs2(
                    "unsupported AES key length ".to_string().concat(number.as_str()),
                ),
            );
        }
        let nk: usize = len / 4;
        let rounds: usize = nk + 6;
        let total: usize = 4 * (rounds + 1);
        let mut bytes: [u8; 256] = [0u8; 256];
        let mut i: usize = 0;
        while i < len
            invariant
                i <= len,
                len == key@.len() <= 32,
                forall|j: int|
                    0 <= j < 256 ==> #[trigger] bytes@[j] == (if j < i {
                        key@[j]
                    } else {
                        0
                    }),
            decreases len - i,
        {
            bytes[i] = key[i];
            i += 1;
        }
        proof {
            assert forall|j: int| 0 <= j < len implies #[trigger] bytes@[j] == key_word(
                key@,
                j / 4,
            )[j % 4] by {}
        }
        let mut w: usize = nk;
        while w < total
            invariant
                nk == 4 || nk == 6 || nk == 8,
                key@.len() == 4 * nk,
                rounds == nk + 6,
                total == 4 * (rounds + 1),
                nk <= w <= total,
                forall|j: int|
                    0 <= j < 4 * w ==> #[trigger] bytes@[j] == key_word(key@, j / 4)[j % 4],
                forall|j: int| 4 * w <= j < 256 ==> #[trigger] bytes@[j] == 0,
            decreases total - w,
        {
            let ghost last = key_word(key@, w - 1);
            let ghost back = key_word(key@, w - nk);
            let t0: u8 = bytes[4 * w - 4];
            let t1: u8 = bytes[4 * w - 3];
            let t2: u8 = bytes[4 * w - 2];
            let t3: u8 = bytes[4 * w - 1];
            assert(t0 == last[0] && t1 == last[1] && t2 == last[2] && t3 == last[3]);
            let term: [u8; 4] = if w % nk == 0 {
                assert(1 <= w as int / nk as int <= 10) by {
                    if nk == 4 {
                        assert(w as int / 4 <= 10);
                    } else if nk == 6 {
                        assert(w as int / 6 <= 10);
                    } else {
                        assert(w as int / 8 <= 10);
                    }
                }
                [
                    AES_SBOX[t1 as usize] ^ AES_RCON[w / nk - 1],
                    AES_SBOX[t2 as usize],
                    AES_SBOX[t3 as usize],
                    AES_SBOX[t0 as usize],
                ]
            } else if nk > 6 && w % nk == 4 {
                [
                    AES_SBOX[t0 as usize],
                    AES_SBOX[t1 as usize],
                    AES_SBOX[t2 as usize],
                    AES_SBOX[t3 as usize],
                ]
            } else {
                [t0, t1, t2, t3]
            };
            proof {
                lemma_xor_zero();
                assert(term@ =~= schedule_term(last, nk as int, w as int));
            }
            let ghost before = bytes@;
            let mut b: usize = 0;
            while b < 4
                invariant
                    b <= 4,
                    nk <= w < total <= 60,
                    0 < nk,
                    before.len() == 256,
                    back == key_word(key@, w - nk),
                    key@.len() == 4 * nk,
                    forall|j: int|
                        0 <= j < 4 * w ==> #[trigger] before[j] == key_word(key@, j / 4)[j % 4],
                    forall|j: int| 4 * w <= j < 256 ==> #[trigger] before[j] == 0,
                    forall|j: int|
                        0 <= j < 256 ==> #[trigger] bytes@[j] == (if 4 * w <= j < 4 * w + b {
                            back[j - 4 * w] ^ term@[j - 4 * w]
                        } else {
                            before[j]
                        }),
                decreases 4 - b,
            {
                let from: usize = 4 * (w - nk) + b;
                assert(bytes@[from as int] == before[from as int]);
                assert(before[from as int] == back[b as int]) by {
                    assert(from as int / 4 == w - nk);
                    assert(from as int % 4 == b);
                }
                bytes[4 * w + b] = bytes[from] ^ term[b];
                b += 1;
            }
            proof {
                assert forall|j: int| 0 <= j < 4 * (w + 1) implies #[trigger] bytes@[j]
                    == key_word(key@, j / 4)[j % 4] by {
                    if j >= 4 * w {
                        assert(j / 4 == w);
                        assert(j % 4 == j - 4 * w);
                        assert(key_word(key@, w as int) == xor_word(back, term@));
                    } else {
                        assert(bytes@[j] == before[j]);
                    }
                }
            }
            w += 1;
        }
        let keys: RoundKeys = RoundKeys { bytes, rounds };
        assert(keys.bytes() =~= expanded(key@));
        Ok(keys)
    }

    /// Decrypts one block of 16 bytes.
    pub fn decrypt_block(&self, ciphertext: &[u8]) -> (r: Result<[u8; 16], DecodeError>)
        requires
            1 <= self.rounds() <= 14,
        ensures
            match r {
                Ok(block) => {
                    &&& block_fault(ciphertext@.len()) is None
                    &&& block@ == inv_cipher(ciphertext@, self.bytes(), self.rounds() as int)
                },
                Err(e) => block_fault(ciphertext@.len()) == Some(e@),
            },
    {
        if ciphertext.len() != 16 {
            return Err(
                DecodeError::EncryptedDs2("AES block decrypt requires 16-byte input".to_string()),
            );
        }
        let mut block: [u8; 16] = [0u8; 16];
        let mut i: usize = 0;
        while i < 16
            invariant
                i <= 16,
                ciphertext@.len() == 16,
                forall|j: int| 0 <= j < i ==> #[trigger] block@[j] == ciphertext@[j],
            decreases 16 - i,
        {
            block[i] = ciphertext[i];
            i += 1;
        }
        assert(block@ =~= ciphertext@);
        self.add_round_key(&mut block, self.rounds);
        let ghost inner = inner_rounds(block@, self.bytes@, self.rounds - 1);
        let mut round: usize = self.rounds - 1;
        while round > 0
            invariant
                round < self.rounds <= 14,
                inner_rounds(block@, self.bytes@, round as int) == inner,
            decreases round,
        {
            inv_shift_rows(&mut block);
            inv_sub_bytes(&mut block);
            self.add_round_key(&mut block, round);
            inv_mix_columns(&mut block);
            round -= 1;
        }
        inv_shift_rows(&mut block);
        inv_sub_bytes(&mut block);
        self.add_round_key(&mut block, 0);
        Ok(block)
    }

    fn add_round_key(&self, block: &mut [u8; 16], round: usize)
        requires
            round <= 14,
        ensures
            final(block)@ == with_round_key(old(block)@, self.bytes(), round as int),
    {
        let mut i: usize = 0;
        while i < 16
            invariant
                i <= 16,
                round <= 14,
                forall|j: int|
                    0 <= j < 16 ==> #[trigger] block@[j] == (if j < i {
                        old(block)@[j] ^ self.bytes@[16 * round + j]
                    } else {
                        old(block)@[j]
                    }),
            decreases 16 - i,
        {
            block[i] = block[i] ^ self.bytes[16 * round + i];
            i += 1;
        }
        assert(block@ =~= with_round_key(old(block)@, self.bytes(), round as int));
    }
}

proof fn lemma_xor_zero()
    ensures
        forall|x: u8| #[trigger] (x ^ 0u8) == x,
{
    assert forall|x: u8| #[trigger] (x ^ 0u8) == x by {
        assert(x ^ 0u8 == x) by (bit_vector);
    }
}

fn inv_sub_bytes(block: &mut [u8; 16])
    ensures
        final(block)@ == inv_sub(old(block)@),
{
    let mut i: usize = 0;
    while i < 16
        invariant
            i <= 16,
            forall|j: int|
                0 <= j < 16 ==> #[trigger] block@[j] == (if j < i {
                    AES_INV_SBOX@[old(block)@[j] as int]
                } else {
                    old(block)@[j]
                }),
        decreases 16 - i,
    {
        block[i] = AES_INV_SBOX[block[i] as usize];
        i += 1;
    }
    assert(block@ =~= inv_sub(old(block)@));
}

fn inv_shift_rows(block: &mut [u8; 16])
    ensures
        final(block)@ == inv_shift(old(block)@),
{
    let tmp: [u8; 16] = *block;
    let mut i: usize = 0;
    while i < 16
        invariant
            i <= 16,
            tmp@ == old(block)@,
            forall|j: int|
                0 <= j < i ==> #[trigger] block@[j] == tmp@[4 * ((j / 4 + 4 - j % 4) % 4) + j % 4],
        decreases 16 - i,
    {
        block[i] = tmp[4 * ((i / 4 + 4 - i % 4) % 4) + i % 4];
        i += 1;
    }
    assert(block@ =~= inv_shift(old(block)@));
}

fn inv_mix_columns(block: &mut [u8; 16])
    ensures
        final(block)@ == inv_mix(old(block)@),
{
    let mut col: usize = 0;
    while col < 4
        invariant
            col <= 4,
            forall|j: int| 0 <= j < 4 * col ==> #[trigger] block@[j] == inv_mix(old(block)@)[j],
            forall|j: int| 4 * col <= j < 16 ==> #[trigger] block@[j] == old(block)@[j],
        decreases 4 - col,
    {
        let base: usize = 4 * col;
        let s0: u8 = block[base];
        let s1: u8 = block[base + 1];
        let s2: u8 = block[base + 2];
        let s3: u8 = block[base + 3];
        block[base] = gf_mul(s0, 14) ^ gf_mul(s1, 11) ^ gf_mul(s2, 13) ^ gf_mul(s3, 9);
        block[base + 1] = gf_mul(s0, 9) ^ gf_mul(s1, 14) ^ gf_mul(s2, 11) ^ gf_mul(s3, 13);
        block[base + 2] = gf_mul(s0, 13) ^ gf_mul(s1, 9) ^ gf_mul(s2, 14) ^ gf_mul(s3, 11);
        block[base + 3] = gf_mul(s0, 11) ^ gf_mul(s1, 13) ^ gf_mul(s2, 9) ^ gf_mul(s3, 14);
        proof {
            let goal = inv_mix(old(block)@);
            assert(goal[base as int] == inv_mix_row(s0, s1, s2, s3, 0));
            assert(goal[base + 1] == inv_mix_row(s0, s1, s2, s3, 1));
            assert(goal[base + 2] == inv_mix_row(s0, s1, s2, s3, 2));
            assert(goal[base + 3] == inv_mix_row(s0, s1, s2, s3, 3));
        }
        col += 1;
    }
    assert(block@ =~= inv_mix(old(block)@));
}

} // verus!
