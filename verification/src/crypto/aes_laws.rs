//! The inverse cipher undoes the cipher.
use crate::crypto::aes;
use crate::crypto::aes_tables::{AES_INV_SBOX, AES_RCON, AES_SBOX};
use vstd::prelude::*;

verus! {

/// Each byte replaced through the substitution box.
pub open spec fn sub_bytes(block: Seq<u8>) -> Seq<u8> {
    Seq::new(16, |i: int| AES_SBOX@[block[i] as int])
}

/// Row `r` turned left by `r` columns.
pub open spec fn shift_rows(block: Seq<u8>) -> Seq<u8> {
    Seq::new(16, |i: int| block[4 * ((i / 4 + i % 4) % 4) + i % 4])
}

/// Row `r` of a column multiplied by the mixing matrix.
pub open spec fn mix_row(s0: u8, s1: u8, s2: u8, s3: u8, r: int) -> u8 {
    if r == 0 {
        aes::gf(s0, 2) ^ aes::gf(s1, 3) ^ s2 ^ s3
    } else if r == 1 {
        s0 ^ aes::gf(s1, 2) ^ aes::gf(s2, 3) ^ s3
    } else if r == 2 {
        s0 ^ s1 ^ aes::gf(s2, 2) ^ aes::gf(s3, 3)
    } else {
        aes::gf(s0, 3) ^ s1 ^ s2 ^ aes::gf(s3, 2)
    }
}

/// Each column multiplied by the mixing matrix.
pub open spec fn mix_columns(block: Seq<u8>) -> Seq<u8> {
    Seq::new(
        16,
        |i: int|
            mix_row(
                block[4 * (i / 4)],
                block[4 * (i / 4) + 1],
                block[4 * (i / 4) + 2],
                block[4 * (i / 4) + 3],
                i % 4,
            ),
    )
}

/// The rounds 1 to `r` of the cipher.
pub open spec fn rounds(block: Seq<u8>, keys: Seq<u8>, r: int) -> Seq<u8>
    decreases r,
{
    if r <= 0 {
        block
    } else {
        aes::with_round_key(mix_columns(shift_rows(sub_bytes(rounds(block, keys, r - 1)))), keys, r)
    }
}

/// The cipher with an expanded key.
pub open spec fn cipher(block: Seq<u8>, keys: Seq<u8>, n: int) -> Seq<u8> {
    aes::with_round_key(
        shift_rows(sub_bytes(rounds(aes::with_round_key(block, keys, 0), keys, n - 1))),
        keys,
        n,
    )
}

/// A block encrypted under a key.
pub open spec fn encrypted(key: Seq<u8>, block: Seq<u8>) -> Seq<u8> {
    cipher(block, aes::expanded(key), aes::rounds_for(key.len()) as int)
}

spec fn inverse_below(n: int) -> bool
    decreases n,
{
    n <= 0 || (inverse_below(n - 1) && AES_INV_SBOX@[AES_SBOX@[n - 1] as int] == n - 1)
}

proof fn lemma_inverse_all()
    ensures
        inverse_below(256),
{
    reveal_with_fuel(inverse_below, 33);
    assert(inverse_below(32));
    assert(inverse_below(64));
    assert(inverse_below(96));
    assert(inverse_below(128));
    assert(inverse_below(160));
    assert(inverse_below(192));
    assert(inverse_below(224));
}

proof fn lemma_inverse(x: u8, n: int)
    requires
        inverse_below(n),
        x < n <= 256,
    ensures
        AES_INV_SBOX@[AES_SBOX@[x as int] as int] == x,
    decreases n,
{
    if x < n - 1 {
        lemma_inverse(x, n - 1);
    }
}

proof fn lemma_sub(block: Seq<u8>)
    requires
        block.len() == 16,
    ensures
        aes::inv_sub(sub_bytes(block)) == block,
{
    lemma_inverse_all();
    assert forall|i: int| 0 <= i < 16 implies #[trigger] aes::inv_sub(sub_bytes(block))[i]
        == block[i] by {
        lemma_inverse(block[i], 256);
    }
    assert(aes::inv_sub(sub_bytes(block)) =~= block);
}

proof fn lemma_shift(block: Seq<u8>)
    requires
        block.len() == 16,
    ensures
        aes::inv_shift(shift_rows(block)) == block,
{
    assert forall|i: int| 0 <= i < 16 implies #[trigger] aes::inv_shift(shift_rows(block))[i]
        == block[i] by {
        let j = 4 * ((i / 4 + 4 - i % 4) % 4) + i % 4;
        assert(j / 4 == (i / 4 + 4 - i % 4) % 4);
        assert(j % 4 == i % 4);
        assert((j / 4 + j % 4) % 4 == i / 4);
    }
    assert(aes::inv_shift(shift_rows(block)) =~= block);
}

proof fn lemma_round_key(block: Seq<u8>, keys: Seq<u8>, r: int)
    requires
        block.len() == 16,
    ensures
        aes::with_round_key(aes::with_round_key(block, keys, r), keys, r) == block,
{
    assert forall|i: int| 0 <= i < 16 implies #[trigger] aes::with_round_key(
        aes::with_round_key(block, keys, r),
        keys,
        r,
    )[i] == block[i] by {
        let b = block[i];
        let k = keys[16 * r + i];
        assert((b ^ k) ^ k == b) by (bit_vector);
    }
    assert(aes::with_round_key(aes::with_round_key(block, keys, r), keys, r) =~= block);
}

/// Products with the small factors that mixing uses, as sums of doublings.
proof fn lemma_products(a: u8)
    ensures
        aes::gf(a, 2) == aes::xtime(a),
        aes::gf(a, 3) == a ^ aes::xtime(a),
        aes::gf(a, 9) == a ^ aes::xtime(aes::xtime(aes::xtime(a))),
        aes::gf(a, 11) == a ^ (aes::xtime(a) ^ aes::xtime(aes::xtime(aes::xtime(a)))),
        aes::gf(a, 13) == a ^ (aes::xtime(aes::xtime(a)) ^ aes::xtime(
            aes::xtime(aes::xtime(a)),
        )),
        aes::gf(a, 14) == aes::xtime(a) ^ (aes::xtime(aes::xtime(a)) ^ aes::xtime(
            aes::xtime(aes::xtime(a)),
        )),
{
    reveal_with_fuel(aes::gf, 5);
    assert forall|x: u8| #[trigger] (x ^ 0u8) == x by {
        assert(x ^ 0u8 == x) by (bit_vector);
    }
    assert forall|x: u8| #[trigger] (0u8 ^ x) == x by {
        assert(0u8 ^ x == x) by (bit_vector);
    }
}

/// The first row of a mixed column; the others are the same with the column turned.
spec fn first_row(p: u8, q: u8, r: u8, t: u8) -> u8 {
    aes::xtime(p) ^ (q ^ aes::xtime(q)) ^ r ^ t
}

/// Doubling distributes over sums.
proof fn lemma_xtime_sum(a: u8, b: u8)
    ensures
        aes::xtime(a ^ b) == aes::xtime(a) ^ aes::xtime(b),
{
    assert(aes::xtime(a ^ b) == aes::xtime(a) ^ aes::xtime(b)) by (bit_vector);
}

proof fn lemma_first_row(p: u8, q: u8, r: u8, t: u8)
    ensures
        aes::xtime(first_row(p, q, r, t)) == first_row(
            aes::xtime(p),
            aes::xtime(q),
            aes::xtime(r),
            aes::xtime(t),
        ),
{
    let p1 = aes::xtime(p);
    let q1 = aes::xtime(q);
    lemma_xtime_sum(p1 ^ (q ^ q1) ^ r, t);
    lemma_xtime_sum(p1 ^ (q ^ q1), r);
    lemma_xtime_sum(p1, q ^ q1);
    lemma_xtime_sum(q, q1);
}

/// A mixed column, and one row of it mixed back.
proof fn lemma_back(p: u8, q: u8, r: u8, t: u8)
    ensures
        aes::gf(first_row(p, q, r, t), 14) ^ aes::gf(first_row(q, r, t, p), 11) ^ aes::gf(
            first_row(r, t, p, q),
            13,
        ) ^ aes::gf(first_row(t, p, q, r), 9) == p,
{
    let p1 = aes::xtime(p);
    let q1 = aes::xtime(q);
    let r1 = aes::xtime(r);
    let t1 = aes::xtime(t);
    let p2 = aes::xtime(p1);
    let q2 = aes::xtime(q1);
    let r2 = aes::xtime(r1);
    let t2 = aes::xtime(t1);
    let p3 = aes::xtime(p2);
    let q3 = aes::xtime(q2);
    let r3 = aes::xtime(r2);
    let t3 = aes::xtime(t2);
    let p4 = aes::xtime(p3);
    let q4 = aes::xtime(q3);
    let r4 = aes::xtime(r3);
    let t4 = aes::xtime(t3);
    lemma_first_row(p, q, r, t);
    lemma_first_row(p1, q1, r1, t1);
    lemma_first_row(p2, q2, r2, t2);
    lemma_first_row(q, r, t, p);
    lemma_first_row(q1, r1, t1, p1);
    lemma_first_row(q2, r2, t2, p2);
    lemma_first_row(r, t, p, q);
    lemma_first_row(r1, t1, p1, q1);
    lemma_first_row(r2, t2, p2, q2);
    lemma_first_row(t, p, q, r);
    lemma_first_row(t1, p1, q1, r1);
    lemma_first_row(t2, p2, q2, r2);
    lemma_products(first_row(p, q, r, t));
    lemma_products(first_row(q, r, t, p));
    lemma_products(first_row(r, t, p, q));
    lemma_products(first_row(t, p, q, r));
    let a1 = p2 ^ (q1 ^ q2) ^ r1 ^ t1;
    let a2 = p3 ^ (q2 ^ q3) ^ r2 ^ t2;
    let a3 = p4 ^ (q3 ^ q4) ^ r3 ^ t3;
    let b0 = q1 ^ (r ^ r1) ^ t ^ p;
    let b1 = q2 ^ (r1 ^ r2) ^ t1 ^ p1;
    let b3 = q4 ^ (r3 ^ r4) ^ t3 ^ p3;
    let c0 = r1 ^ (t ^ t1) ^ p ^ q;
    let c2 = r3 ^ (t2 ^ t3) ^ p2 ^ q2;
    let c3 = r4 ^ (t3 ^ t4) ^ p3 ^ q3;
    let d0 = t1 ^ (p ^ p1) ^ q ^ r;
    let d3 = t4 ^ (p3 ^ p4) ^ q3 ^ r3;
    assert((a1 ^ (a2 ^ a3)) ^ (b0 ^ (b1 ^ b3)) ^ (c0 ^ (c2 ^ c3)) ^ (d0 ^ d3) == p) by (bit_vector)
        requires
            a1 == p2 ^ (q1 ^ q2) ^ r1 ^ t1,
            a2 == p3 ^ (q2 ^ q3) ^ r2 ^ t2,
            a3 == p4 ^ (q3 ^ q4) ^ r3 ^ t3,
            b0 == q1 ^ (r ^ r1) ^ t ^ p,
            b1 == q2 ^ (r1 ^ r2) ^ t1 ^ p1,
            b3 == q4 ^ (r3 ^ r4) ^ t3 ^ p3,
            c0 == r1 ^ (t ^ t1) ^ p ^ q,
            c2 == r3 ^ (t2 ^ t3) ^ p2 ^ q2,
            c3 == r4 ^ (t3 ^ t4) ^ p3 ^ q3,
            d0 == t1 ^ (p ^ p1) ^ q ^ r,
            d3 == t4 ^ (p3 ^ p4) ^ q3 ^ r3,
    ;
}

/// The order of four summands does not matter.
proof fn lemma_turn(a: u8, b: u8, c: u8, d: u8)
    ensures
        a ^ b ^ c ^ d == b ^ c ^ d ^ a,
        a ^ b ^ c ^ d == c ^ d ^ a ^ b,
        a ^ b ^ c ^ d == d ^ a ^ b ^ c,
{
    assert(a ^ b ^ c ^ d == b ^ c ^ d ^ a && a ^ b ^ c ^ d == c ^ d ^ a ^ b && a ^ b ^ c ^ d == d
        ^ a ^ b ^ c) by (bit_vector);
}

proof fn lemma_mix_column(s0: u8, s1: u8, s2: u8, s3: u8)
    ensures
        ({
            let m0 = mix_row(s0, s1, s2, s3, 0);
            let m1 = mix_row(s0, s1, s2, s3, 1);
            let m2 = mix_row(s0, s1, s2, s3, 2);
            let m3 = mix_row(s0, s1, s2, s3, 3);
            &&& aes::inv_mix_row(m0, m1, m2, m3, 0) == s0
            &&& aes::inv_mix_row(m0, m1, m2, m3, 1) == s1
            &&& aes::inv_mix_row(m0, m1, m2, m3, 2) == s2
            &&& aes::inv_mix_row(m0, m1, m2, m3, 3) == s3
        }),
{
    lemma_products(s0);
    lemma_products(s1);
    lemma_products(s2);
    lemma_products(s3);
    let m0 = first_row(s0, s1, s2, s3);
    let m1 = first_row(s1, s2, s3, s0);
    let m2 = first_row(s2, s3, s0, s1);
    let m3 = first_row(s3, s0, s1, s2);
    lemma_turn(s0, aes::gf(s1, 2), aes::gf(s2, 3), s3);
    lemma_turn(s0, s1, aes::gf(s2, 2), aes::gf(s3, 3));
    lemma_turn(aes::gf(s0, 3), s1, s2, aes::gf(s3, 2));
    assert(mix_row(s0, s1, s2, s3, 0) == m0);
    assert(mix_row(s0, s1, s2, s3, 1) == m1);
    assert(mix_row(s0, s1, s2, s3, 2) == m2);
    assert(mix_row(s0, s1, s2, s3, 3) == m3);
    lemma_back(s0, s1, s2, s3);
    lemma_back(s1, s2, s3, s0);
    lemma_back(s2, s3, s0, s1);
    lemma_back(s3, s0, s1, s2);
    lemma_turn(aes::gf(m0, 9), aes::gf(m1, 14), aes::gf(m2, 11), aes::gf(m3, 13));
    lemma_turn(aes::gf(m0, 13), aes::gf(m1, 9), aes::gf(m2, 14), aes::gf(m3, 11));
    lemma_turn(aes::gf(m0, 11), aes::gf(m1, 13), aes::gf(m2, 9), aes::gf(m3, 14));
}

proof fn lemma_mix(block: Seq<u8>)
    requires
        block.len() == 16,
    ensures
        aes::inv_mix(mix_columns(block)) == block,
{
    let mixed = mix_columns(block);
    assert forall|i: int| 0 <= i < 16 implies #[trigger] aes::inv_mix(mixed)[i] == block[i] by {
        let c = 4 * (i / 4);
        lemma_mix_column(block[c], block[c + 1], block[c + 2], block[c + 3]);
        assert(c / 4 == i / 4 && (c + 1) / 4 == i / 4 && (c + 2) / 4 == i / 4 && (c + 3) / 4 == i
            / 4);
        assert(mixed[c] == mix_row(block[c], block[c + 1], block[c + 2], block[c + 3], 0));
        assert(mixed[c + 1] == mix_row(block[c], block[c + 1], block[c + 2], block[c + 3], 1));
        assert(mixed[c + 2] == mix_row(block[c], block[c + 1], block[c + 2], block[c + 3], 2));
        assert(mixed[c + 3] == mix_row(block[c], block[c + 1], block[c + 2], block[c + 3], 3));
    }
    assert(aes::inv_mix(mixed) =~= block);
}

proof fn lemma_rounds_len(block: Seq<u8>, keys: Seq<u8>, r: int)
    requires
        block.len() == 16,
    ensures
        rounds(block, keys, r).len() == 16,
{
}

proof fn lemma_inner_rounds(block: Seq<u8>, keys: Seq<u8>, r: int)
    requires
        block.len() == 16,
        0 <= r,
    ensures
        aes::inner_rounds(shift_rows(sub_bytes(rounds(block, keys, r))), keys, r) == shift_rows(
            sub_bytes(block),
        ),
    decreases r,
{
    if r > 0 {
        let here = rounds(block, keys, r);
        let before = rounds(block, keys, r - 1);
        lemma_rounds_len(block, keys, r);
        lemma_rounds_len(block, keys, r - 1);
        lemma_shift(sub_bytes(here));
        lemma_sub(here);
        lemma_round_key(mix_columns(shift_rows(sub_bytes(before))), keys, r);
        lemma_mix(shift_rows(sub_bytes(before)));
        lemma_inner_rounds(block, keys, r - 1);
    }
}

/// Decryption undoes encryption: whatever the key and the block, the block comes back.
pub proof fn law_decryption_undoes_encryption(key: Seq<u8>, block: Seq<u8>)
    requires
        aes::is_key_len(key.len()),
        block.len() == 16,
    ensures
        aes::decrypted(key, encrypted(key, block)) == block,
{
    let keys = aes::expanded(key);
    let n = aes::rounds_for(key.len()) as int;
    let start = aes::with_round_key(block, keys, 0);
    let last = rounds(start, keys, n - 1);
    lemma_rounds_len(start, keys, n - 1);
    lemma_round_key(shift_rows(sub_bytes(last)), keys, n);
    lemma_inner_rounds(start, keys, n - 1);
    lemma_shift(sub_bytes(start));
    lemma_sub(start);
    lemma_round_key(block, keys, 0);
}

/// The key schedule. The first words are the key; every later word, added to the word one
/// key length before it, gives the word before it: turned by a byte, substituted and with
/// the round constant added where a key length is full, and only substituted half a key
/// length later if the key is the longest.
pub proof fn law_key_schedule(key: Seq<u8>, i: int, b: int)
    requires
        aes::is_key_len(key.len()),
        0 <= i < 60,
        0 <= b < 4,
    ensures
        ({
            let nk = key.len() as int / 4;
            let w = aes::key_word(key, i);
            let last = aes::key_word(key, i - 1);
            let sum = w[b] ^ aes::key_word(key, i - nk)[b];
            &&& w.len() == 4
            &&& i < nk ==> w[b] == key[4 * i + b]
            &&& i >= nk && i % nk == 0 ==> sum == AES_SBOX@[last[(b + 1) % 4] as int] ^ (if b
                == 0 {
                AES_RCON@[i / nk - 1]
            } else {
                0
            })
            &&& i >= nk && key.len() == 32 && i % 8 == 4 ==> sum == AES_SBOX@[last[b] as int]
            &&& i >= nk && i % nk != 0 && !(key.len() == 32 && i % 8 == 4) ==> sum == last[b]
        }),
{
    let nk = key.len() as int / 4;
    let last = aes::key_word(key, i - 1);
    lemma_word_len(key, i);
    if i >= nk {
        lemma_word_len(key, i - 1);
        lemma_word_len(key, i - nk);
        let x = aes::key_word(key, i - nk)[b];
        let t = aes::schedule_term(last, nk, i)[b];
        assert((x ^ t) ^ x == t) by (bit_vector);
    }
}

proof fn lemma_word_len(key: Seq<u8>, i: int)
    requires
        aes::is_key_len(key.len()),
        0 <= i,
    ensures
        aes::key_word(key, i).len() == 4,
{
}

/// The round constants are the powers of two in the field.
pub proof fn law_round_constants_double(n: int)
    requires
        0 < n < 10,
    ensures
        AES_RCON@[0] == 1,
        AES_RCON@[n] == aes::xtime(AES_RCON@[n - 1]),
{
    let a = AES_RCON@[n - 1];
    assert(a == 0x01 || a == 0x02 || a == 0x04 || a == 0x08 || a == 0x10 || a == 0x20 || a == 0x40
        || a == 0x80 || a == 0x1b);
    assert(0x01u8 << 1u8 == 0x02 && 0x02u8 << 1u8 == 0x04 && 0x04u8 << 1u8 == 0x08 && 0x08u8 << 1u8
        == 0x10 && 0x10u8 << 1u8 == 0x20 && 0x20u8 << 1u8 == 0x40 && 0x40u8 << 1u8 == 0x80 && (
    0x80u8 << 1u8) ^ 0x1bu8 == 0x1b && 0x1bu8 << 1u8 == 0x36) by (bit_vector);
}

/// An expanded key is its words one after another, a round key and one more for every
/// round: 10, 12 or 14 rounds by the length of the key. What is left of 256 bytes is zero.
pub proof fn law_expanded_keys(key: Seq<u8>, i: int)
    requires
        aes::is_key_len(key.len()),
        0 <= i < 256,
    ensures
        key.len() == 16 ==> aes::rounds_for(key.len()) == 10,
        key.len() == 24 ==> aes::rounds_for(key.len()) == 12,
        key.len() == 32 ==> aes::rounds_for(key.len()) == 14,
        aes::expanded(key).len() == 256,
        i < 16 + 16 * aes::rounds_for(key.len()) ==> aes::expanded(key)[i] == aes::key_word(
            key,
            i / 4,
        )[i % 4],
        i >= 16 + 16 * aes::rounds_for(key.len()) ==> aes::expanded(key)[i] == 0,
        i < 16 ==> aes::last_round_key(key)[i] == aes::expanded(key)[16 * aes::rounds_for(key.len())
            + i],
        i < 16 ==> aes::last_round_key(key).len() == 16,
{
}

/// A round key is added bit by bit.
pub proof fn law_round_keys_are_added(block: Seq<u8>, keys: Seq<u8>, r: int, i: int)
    requires
        0 <= i < 16,
    ensures
        aes::with_round_key(block, keys, r).len() == 16,
        aes::with_round_key(block, keys, r)[i] ^ block[i] == keys[16 * r + i],
{
    let b = block[i];
    let k = keys[16 * r + i];
    assert((b ^ k) ^ b == k) by (bit_vector);
}

/// Products in the field: one changes nothing, doubling one factor or the other is the
/// same, sums multiply term by term, and twice a number is its bits moved up, less 0x11b
/// where they leave the byte.
pub proof fn law_products_in_the_field(a: u8, b: u8, c: u8)
    ensures
        aes::gf(a, 0) == 0,
        aes::gf(a, 1) == a,
        c < 128 ==> aes::gf(a, (2 * c) as u8) == aes::gf(aes::xtime(a), c),
        aes::gf(a ^ b, c) == aes::gf(a, c) ^ aes::gf(b, c),
        a < 128 ==> aes::xtime(a) == 2 * a,
        a >= 128 ==> aes::xtime(a) == ((2 * a - 256) as u8) ^ 0x1b,
    decreases c,
{
    reveal_with_fuel(aes::gf, 3);
    assert(a ^ 0u8 == a) by (bit_vector);
    assert(a < 128 ==> a << 1u8 == 2 * a) by (bit_vector);
    assert(a >= 128 ==> a << 1u8 == 2 * a - 256) by (bit_vector);
    if c < 128 && c > 0 {
        let g = aes::gf(aes::xtime(a), c);
        assert(0u8 ^ g == g) by (bit_vector);
    }
    lemma_gf_sum(a, b, c);
}

proof fn lemma_gf_sum(a: u8, b: u8, c: u8)
    ensures
        aes::gf(a ^ b, c) == aes::gf(a, c) ^ aes::gf(b, c),
    decreases c,
{
    if c == 0 {
        assert(0u8 ^ 0u8 == 0u8) by (bit_vector);
    } else {
        lemma_xtime_sum(a, b);
        lemma_gf_sum(aes::xtime(a), aes::xtime(b), c / 2);
        let x = aes::gf(aes::xtime(a), c / 2);
        let y = aes::gf(aes::xtime(b), c / 2);
        assert((a ^ b) ^ (x ^ y) == (a ^ x) ^ (b ^ y)) by (bit_vector);
        assert(0u8 ^ (x ^ y) == (0u8 ^ x) ^ (0u8 ^ y)) by (bit_vector);
    }
}

} // verus!
