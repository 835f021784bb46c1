//! Numbers written as bits, one after another, each in a width of its own: what the
//! packets of a recorder hold, and what unpacking them has to give back.
use crate::bitstream;
use vstd::arithmetic::power2::*;
use vstd::prelude::*;

verus! {

/// The `n` lowest binary digits of a number, highest first.
pub open spec fn digits(v: nat, n: nat) -> Seq<nat>
    decreases n,
{
    if n == 0 {
        Seq::empty()
    } else {
        digits(v / 2, (n - 1) as nat).push(v % 2)
    }
}

/// Numbers written one after another, each with as many digits as its width says.
pub open spec fn written(values: Seq<nat>, widths: Seq<nat>) -> Seq<nat>
    decreases values.len(),
{
    if values.len() == 0 {
        Seq::empty()
    } else {
        written(values.drop_last(), widths.drop_last()) + digits(values.last(), widths.last())
    }
}

/// Where number `k` starts: behind all the numbers before it.
pub open spec fn start(widths: Seq<nat>, k: int) -> nat
    decreases k,
{
    if k <= 0 {
        0
    } else {
        start(widths, k - 1) + widths[k - 1]
    }
}

/// Each number fits its width.
pub open spec fn fit(values: Seq<nat>, widths: Seq<nat>) -> bool {
    &&& values.len() == widths.len()
    &&& forall|k: int| 0 <= k < values.len() ==> #[trigger] values[k] < pow2(widths[k])
}

/// Word `w` of a byte string, low byte first.
pub open spec fn word(data: Seq<u8>, w: int) -> int {
    data[2 * w] + 256 * data[2 * w + 1]
}

/// A byte string holds bits in 16-bit words, the highest bit of each word first.
pub open spec fn in_words(data: Seq<u8>, bits: Seq<nat>) -> bool {
    forall|i: int|
        0 <= i < bits.len() ==> 2 * (i / 16) + 1 < data.len() && #[trigger] bits[i] == (word(
            data,
            i / 16,
        ) / pow2((15 - i % 16) as nat) as int) % 2
}

pub proof fn lemma_digits_len(v: nat, n: nat)
    ensures
        digits(v, n).len() == n,
    decreases n,
{
    if n > 0 {
        lemma_digits_len(v / 2, (n - 1) as nat);
    }
}

proof fn lemma_written_len(values: Seq<nat>, widths: Seq<nat>)
    requires
        values.len() == widths.len(),
    ensures
        written(values, widths).len() == start(widths, widths.len() as int),
    decreases values.len(),
{
    if values.len() > 0 {
        let n = widths.len() as int;
        lemma_written_len(values.drop_last(), widths.drop_last());
        lemma_digits_len(values.last(), widths.last());
        lemma_start_prefix(widths, n - 1);
    }
}

proof fn lemma_start_prefix(widths: Seq<nat>, k: int)
    requires
        0 <= k < widths.len(),
    ensures
        start(widths.drop_last(), k) == start(widths, k),
    decreases k,
{
    if k > 0 {
        lemma_start_prefix(widths, k - 1);
    }
}

/// The digits of number `k` stand where it starts.
pub proof fn lemma_written_at(values: Seq<nat>, widths: Seq<nat>, k: int)
    requires
        values.len() == widths.len(),
        0 <= k < values.len(),
    ensures
        digits(values[k], widths[k]).len() == widths[k],
        start(widths, k) + widths[k] <= written(values, widths).len(),
        forall|i: int|
            0 <= i < widths[k] ==> #[trigger] digits(values[k], widths[k])[i] == written(
                values,
                widths,
            )[start(widths, k) + i],
    decreases values.len(),
{
    let n = widths.len() as int;
    lemma_digits_len(values[k], widths[k]);
    lemma_written_len(values, widths);
    lemma_written_len(values.drop_last(), widths.drop_last());
    lemma_start_prefix(widths, k);
    lemma_start_prefix(widths, n - 1);
    if k < n - 1 {
        lemma_written_at(values.drop_last(), widths.drop_last(), k);
        assert forall|i: int| 0 <= i < widths[k] implies #[trigger] digits(
            values[k],
            widths[k],
        )[i] == written(values, widths)[start(widths, k) + i] by {
            assert(digits(values.drop_last()[k], widths.drop_last()[k])[i] == written(
                values.drop_last(),
                widths.drop_last(),
            )[start(widths.drop_last(), k) + i]);
        }
    }
}

proof fn lemma_byte_bit(b: u8, shift: u8)
    requires
        shift < 8,
    ensures
        (b >> shift) & 1u8 == (b as nat / pow2(shift as nat)) % 2,
{
    vstd::bits::lemma_u8_shr_is_div(b, shift);
    let x = b >> shift;
    assert(x & 1u8 == x % 2) by (bit_vector);
}

/// The upper eight bits of a word are those of its high byte, the others those of its low
/// byte.
proof fn lemma_word_bit(lo: int, hi: int, s: nat)
    requires
        0 <= lo < 256,
        0 <= hi < 256,
        s < 16,
    ensures
        s >= 8 ==> (lo + 256 * hi) / pow2(s) as int == hi / pow2((s - 8) as nat) as int,
        s < 8 ==> ((lo + 256 * hi) / pow2(s) as int) % 2 == (lo / pow2(s) as int) % 2,
{
    lemma2_to64();
    lemma_pow2_pos(s);
    let w = lo + 256 * hi;
    if s >= 8 {
        let t = (s - 8) as nat;
        lemma_pow2_pos(t);
        lemma_pow2_adds(8, t);
        vstd::arithmetic::div_mod::lemma_div_denominator(w, 256, pow2(t) as int);
    } else {
        let t = (7 - s) as nat;
        lemma_pow2_adds(s, (8 - s) as nat);
        lemma_pow2_unfold((8 - s) as nat);
        let p = pow2(s) as int;
        let q = pow2(t) as int;
        assert(256 * hi == (2 * (q * hi)) * p) by (nonlinear_arith)
            requires
                256 == p * (2 * q),
        ;
        vstd::arithmetic::div_mod::lemma_hoist_over_denominator(lo, 2 * (q * hi), pow2(s));
    }
}

/// The bits of a byte string come from its 16-bit words in order, the bytes of each word
/// low one first, the bits of each word highest one first. Past the last whole word there
/// are only zeros.
pub proof fn law_bits_come_from_words(data: Seq<u8>, i: nat)
    ensures
        2 * (i / 16) + 1 < data.len() ==> bitstream::stream_bit(data, i) == (word(
            data,
            (i / 16) as int,
        ) / pow2((15 - i % 16) as nat) as int) % 2,
        2 * (i / 16) + 1 >= data.len() ==> bitstream::stream_bit(data, i) == 0,
{
    lemma2_to64();
    if 2 * (i / 16) + 1 < data.len() {
        let lo = data[2 * (i / 16) as int];
        let hi = data[2 * (i / 16) as int + 1];
        let j = i % 16;
        assert(i / 8 == 2 * (i / 16) + j / 8);
        assert(i % 8 == j % 8);
        lemma_word_bit(lo as int, hi as int, (15 - j) as nat);
        if j < 8 {
            lemma_byte_bit(hi, (7 - j) as u8);
        } else {
            lemma_byte_bit(lo, (15 - j) as u8);
        }
    }
}

proof fn lemma_field_of_digits(data: Seq<u8>, pos: nat, v: nat, n: nat)
    requires
        v < pow2(n),
        forall|i: int|
            0 <= i < n ==> #[trigger] digits(v, n)[i] == bitstream::stream_bit(
                data,
                (pos + i) as nat,
            ),
    ensures
        bitstream::field(data, pos, n) == v,
    decreases n,
{
    if n == 0 {
        lemma2_to64();
    } else {
        lemma_pow2_unfold(n);
        lemma_digits_len(v / 2, (n - 1) as nat);
        assert forall|i: int| 0 <= i < n - 1 implies #[trigger] digits(v / 2, (n - 1) as nat)[i]
            == bitstream::stream_bit(data, (pos + i) as nat) by {
            assert(digits(v, n)[i] == digits(v / 2, (n - 1) as nat)[i]);
        }
        lemma_field_of_digits(data, pos, v / 2, (n - 1) as nat);
        assert(digits(v, n)[n - 1] == v % 2);
    }
}

/// Reading the bits of number `k` of those written gives that number.
pub proof fn law_reading_undoes_writing(
    values: Seq<nat>,
    widths: Seq<nat>,
    data: Seq<u8>,
    k: int,
)
    requires
        fit(values, widths),
        in_words(data, written(values, widths)),
        0 <= k < values.len(),
    ensures
        bitstream::field(data, start(widths, k), widths[k]) == values[k],
{
    let all = written(values, widths);
    let at = start(widths, k);
    lemma_written_at(values, widths, k);
    assert forall|i: int| 0 <= i < widths[k] implies #[trigger] digits(values[k], widths[k])[i]
        == bitstream::stream_bit(data, (at + i) as nat) by {
        assert(all[at + i] == (word(data, (at + i) / 16) / pow2((15 - (at + i) % 16) as nat) as int)
            % 2);
        law_bits_come_from_words(data, (at + i) as nat);
    }
    lemma_field_of_digits(data, at, values[k], widths[k]);
}

/// A field is made of its parts: the number of the first bits, moved up by the width of
/// the rest, and the number of the rest; and it fits its width.
pub proof fn law_fields_are_made_of_parts(data: Seq<u8>, pos: nat, a: nat, b: nat)
    ensures
        bitstream::field(data, pos, a + b) == bitstream::field(data, pos, a) * pow2(b)
            + bitstream::field(data, pos + a, b),
        bitstream::field(data, pos, a) < pow2(a),
    decreases b,
{
    bitstream::lemma_field_bound(data, pos, a);
    let first = bitstream::field(data, pos, a) as int;
    if b == 0 {
        lemma2_to64();
        assert(first * 1 == first);
    } else {
        law_fields_are_made_of_parts(data, pos, a, (b - 1) as nat);
        lemma_pow2_unfold(b);
        let half = pow2((b - 1) as nat) as int;
        assert(first * (2 * half) == 2 * (first * half)) by (nonlinear_arith);
        assert((a + b - 1) as nat == a + (b - 1) as nat);
        assert((pos + a + b - 1) as nat == ((pos + a) + b - 1) as nat);
    }
}

} // verus!
