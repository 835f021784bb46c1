//! What holds of Grundig frames from the demuxer to the decoder.
use crate::bitstream;
use crate::bytes;
use crate::codec::common;
use crate::codec::ds2_laws;
use crate::codec::grundig_sp;
use crate::codec::grundig_sp::{GrundigFrame, GrundigSubframe};
use crate::codec::pulses;
use crate::codec::writing;
use crate::demux::framing;
use crate::demux::grundig;
use crate::tables::dss_sp::C72_BINOMIALS;
use vstd::arithmetic::power2::*;
use vstd::prelude::*;

verus! {

proof fn lemma_packed(v: u8, b0: u8, b1: u8, b2: u8, b3: u8, b4: u8, b5: u8, b6: u8, b7: u8)
    requires
        b0 <= 1 && b1 <= 1 && b2 <= 1 && b3 <= 1 && b4 <= 1 && b5 <= 1 && b6 <= 1 && b7 <= 1,
        v == 128 * b0 + 64 * b1 + 32 * b2 + 16 * b3 + 8 * b4 + 4 * b5 + 2 * b6 + b7,
    ensures
        (v >> 7u8) & 1u8 == b0,
        (v >> 6u8) & 1u8 == b1,
        (v >> 5u8) & 1u8 == b2,
        (v >> 4u8) & 1u8 == b3,
        (v >> 3u8) & 1u8 == b4,
        (v >> 2u8) & 1u8 == b5,
        (v >> 1u8) & 1u8 == b6,
        (v >> 0u8) & 1u8 == b7,
{
    assert((v >> 7u8) & 1u8 == b0 && (v >> 6u8) & 1u8 == b1 && (v >> 5u8) & 1u8 == b2 && (v >> 4u8)
        & 1u8 == b3 && (v >> 3u8) & 1u8 == b4 && (v >> 2u8) & 1u8 == b5 && (v >> 1u8) & 1u8 == b6
        && (v >> 0u8) & 1u8 == b7) by (bit_vector)
        requires
            b0 <= 1 && b1 <= 1 && b2 <= 1 && b3 <= 1 && b4 <= 1 && b5 <= 1 && b6 <= 1 && b7 <= 1,
            v == 128 * b0 + 64 * b1 + 32 * b2 + 16 * b3 + 8 * b4 + 4 * b5 + 2 * b6 + b7,
    ;
}

proof fn lemma_frame_bit_small(blocks: Seq<Seq<u8>>, bi: int, pos: int, j: int)
    ensures
        grundig::frame_bit(blocks, bi, pos, j) <= 1,
{
    if j < grundig::own_bits(pos) {
        bitstream::lemma_stream_bit(framing::payload(blocks[bi]), (pos + j) as nat);
    } else {
        bitstream::lemma_stream_bit(
            framing::payload(blocks[bi + 1]),
            (j - grundig::own_bits(pos)) as nat,
        );
    }
}

/// The decoder reads from a frame the bits that the demuxer took from the blocks.
pub proof fn law_decoder_reads_the_demuxed_bits(
    blocks: Seq<Seq<u8>>,
    bi: int,
    pos: int,
    j: int,
)
    requires
        0 <= j < 328,
    ensures
        grundig_sp::frame_bits(grundig::frame(blocks, bi, pos))[j] == grundig::frame_bit(
            blocks,
            bi,
            pos,
            j,
        ),
{
    let k = j / 8;
    assert forall|i: int| #[trigger] grundig::frame_bit(blocks, bi, pos, i) <= 1 by {
        lemma_frame_bit_small(blocks, bi, pos, i);
    }
    let v = grundig::frame_byte(blocks, bi, pos, k);
    let b0 = grundig::frame_bit(blocks, bi, pos, 8 * k) as u8;
    let b1 = grundig::frame_bit(blocks, bi, pos, 8 * k + 1) as u8;
    let b2 = grundig::frame_bit(blocks, bi, pos, 8 * k + 2) as u8;
    let b3 = grundig::frame_bit(blocks, bi, pos, 8 * k + 3) as u8;
    let b4 = grundig::frame_bit(blocks, bi, pos, 8 * k + 4) as u8;
    let b5 = grundig::frame_bit(blocks, bi, pos, 8 * k + 5) as u8;
    let b6 = grundig::frame_bit(blocks, bi, pos, 8 * k + 6) as u8;
    let b7 = grundig::frame_bit(blocks, bi, pos, 8 * k + 7) as u8;
    lemma_packed(v, b0, b1, b2, b3, b4, b5, b6, b7);
    assert(grundig::frame(blocks, bi, pos)[k] == v);
    assert(j == 8 * k + j % 8);
}

proof fn lemma_byte_of_bits(v: u8)
    ensures
        v == 128 * ((v >> 7u8) & 1u8) + 64 * ((v >> 6u8) & 1u8) + 32 * ((v >> 5u8) & 1u8) + 16 * ((v
            >> 4u8) & 1u8) + 8 * ((v >> 3u8) & 1u8) + 4 * ((v >> 2u8) & 1u8) + 2 * ((v >> 1u8)
            & 1u8) + ((v >> 0u8) & 1u8),
{
    assert(v == 128 * ((v >> 7u8) & 1u8) + 64 * ((v >> 6u8) & 1u8) + 32 * ((v >> 5u8) & 1u8) + 16
        * ((v >> 4u8) & 1u8) + 8 * ((v >> 3u8) & 1u8) + 4 * ((v >> 2u8) & 1u8) + 2 * ((v >> 1u8)
        & 1u8) + ((v >> 0u8) & 1u8)) by (bit_vector);
}

/// Packing the bits of a frame of 41 bytes gives the frame back.
pub proof fn law_packing_undoes_unpacking(frame: Seq<u8>)
    requires
        frame.len() == 41,
    ensures
        grundig::packed(grundig_sp::frame_bits(frame)) == frame,
{
    let bits = grundig_sp::frame_bits(frame);
    assert forall|k: int| 0 <= k < 41 implies #[trigger] grundig::packed(bits)[k] == frame[k] by {
        lemma_byte_of_bits(frame[k]);
        assert forall|i: int| 0 <= i < 8 implies #[trigger] bits[8 * k + i] == (frame[k] >> ((7
            - i) as u8)) & 1u8 by {
            assert((8 * k + i) / 8 == k && (8 * k + i) % 8 == i);
        }
        assert(bits[8 * k + 0] == (frame[k] >> 7u8) & 1u8);
    }
    assert(grundig::packed(bits) =~= frame);
}

/// Unpacking packed bits gives them back, with zeros for those that were missing.
pub proof fn law_unpacking_undoes_packing(bits: Seq<u8>, j: int)
    requires
        grundig_sp::are_bits(bits),
        0 <= j < 328,
    ensures
        grundig_sp::frame_bits(grundig::packed(bits))[j] == bytes::padded(bits, j),
{
    let k = j / 8;
    assert forall|i: int| #[trigger] bytes::padded(bits, i) <= 1 by {
        if 0 <= i < bits.len() {
            assert(bits[i] <= 1);
        }
    }
    lemma_packed(
        grundig::packed(bits)[k],
        bytes::padded(bits, 8 * k),
        bytes::padded(bits, 8 * k + 1),
        bytes::padded(bits, 8 * k + 2),
        bytes::padded(bits, 8 * k + 3),
        bytes::padded(bits, 8 * k + 4),
        bytes::padded(bits, 8 * k + 5),
        bytes::padded(bits, 8 * k + 6),
        bytes::padded(bits, 8 * k + 7),
    );
    assert(j == 8 * k + j % 8);
}

/// A frame counts as 41 bytes: a shorter one as if zeros followed, a longer one as if it
/// ended there.
pub proof fn law_frames_count_as_41_bytes(frame: Seq<u8>)
    ensures
        grundig_sp::frame_bits(frame) == grundig_sp::frame_bits(
            Seq::new(41, |i: int| bytes::padded(frame, i)),
        ),
{
    let whole = Seq::new(41, |i: int| bytes::padded(frame, i));
    assert forall|i: int| 0 <= i < 328 implies grundig_sp::frame_bit(frame, i)
        == grundig_sp::frame_bit(whole, i) by {
        let shift = (7 - i % 8) as u8;
        assert(0 <= i / 8 < 41);
        assert((0u8 >> shift) & 1u8 == 0) by (bit_vector);
    }
    assert(grundig_sp::frame_bits(frame) =~= grundig_sp::frame_bits(whole));
}

/// Resampling the first samples of a recording gives the beginning of resampling all of
/// it: every output sample that reads them alone, and no other.
pub proof fn law_resampling_a_beginning(first: nat, len: nat)
    requires
        first <= len,
    ensures
        grundig_sp::resampled_len(first) <= grundig_sp::resampled_len(len),
        forall|n: int|
            0 <= n < grundig_sp::resampled_len(len) ==> (n < grundig_sp::resampled_len(first)
                <==> (#[trigger] grundig_sp::resample_step(n)).0 < 0xce + first),
{
}

/// The bits of a frame come byte by byte, the highest bit of each byte first.
pub proof fn law_bits_come_from_bytes(frame: Seq<u8>, j: int, k: int)
    requires
        0 <= j < 41,
        0 <= k < 8,
    ensures
        j < frame.len() ==> grundig_sp::frame_bits(frame)[8 * j + k] == (frame[j] as nat / pow2(
            (7 - k) as nat,
        )) % 2,
        j >= frame.len() ==> grundig_sp::frame_bits(frame)[8 * j + k] == 0,
{
    assert((8 * j + k) / 8 == j && (8 * j + k) % 8 == k);
    if j < frame.len() {
        let b = frame[j];
        let shift = (7 - k) as u8;
        vstd::bits::lemma_u8_shr_is_div(b, shift);
        let x = b >> shift;
        assert(x & 1u8 == x % 2) by (bit_vector);
    }
}

/// No two codebook indices below `C(72, 7)` stand for the same pulses: the seven positions
/// are descending, below 72, and the sum of their binomials is the index. Any higher index
/// stands for the seven last places.
pub proof fn law_codebook_indices_stand_for_their_pulses(index: nat)
    ensures
        index < 1473109704 ==> common::seven_coded_as(grundig_sp::places(index), index),
        index >= 1473109704 ==> grundig_sp::places(index) == seq![
            71nat,
            70nat,
            69nat,
            68nat,
            67nat,
            66nat,
            65nat,
        ],
{
    pulses::lemma_c72();
    assert(C72_BINOMIALS@[6] == common::binom(72, 7));
    if index < 1473109704 {
        common::law_seven_positions_code_their_number(index);
    } else {
        common::law_highest_number_codes_the_highest_positions(71, 71, 7);
        assert(grundig_sp::places(index) =~= seq![
            71nat,
            70nat,
            69nat,
            68nat,
            67nat,
            66nat,
            65nat,
        ]);
    }
}

/// The widths of the numbers in a frame: 14 reflection indices in given widths; for each of
/// four subframes a pitch gain index, a codebook index, a lead gain index and seven
/// amplitudes; and the pitch number.
pub open spec fn frame_widths(widths: Seq<usize>) -> Seq<nat> {
    Seq::new(
        55,
        |k: int|
            if k < 14 {
                widths[k] as nat
            } else {
                ds2_laws::sp_widths()[k]
            },
    )
}

proof fn lemma_start(widths: Seq<usize>, k: int)
    requires
        0 <= k <= 54,
    ensures
        k <= 14 ==> writing::start(frame_widths(widths), k) == grundig_sp::refl_start(
            widths,
            k as nat,
        ),
        k > 14 ==> writing::start(frame_widths(widths), k) - grundig_sp::refl_start(widths, 14)
            == writing::start(ds2_laws::sp_widths(), k) - 52,
    decreases k,
{
    if k > 0 {
        lemma_start(widths, k - 1);
        ds2_laws::lemma_sp_start(14);
    }
}

/// Where number `m` of a subframe starts, and its width.
proof fn lemma_number_at(widths: Seq<usize>, sf: int, m: int)
    requires
        0 <= sf < 4,
        0 <= m < 10,
    ensures
        writing::start(frame_widths(widths), 14 + 10 * sf + m) == grundig_sp::refl_start(widths, 14)
            + 63 * sf + (if m == 0 {
            0
        } else if m == 1 {
            5
        } else if m == 2 {
            36
        } else {
            42 + 3 * (m - 3)
        }),
        frame_widths(widths)[14 + 10 * sf + m] == (if m == 0 {
            5nat
        } else if m == 1 {
            31
        } else if m == 2 {
            6
        } else {
            3
        }),
{
    let k = 10 * sf + m;
    assert(k / 10 == sf && k % 10 == m);
    lemma_start(widths, 14 + k);
    ds2_laws::lemma_sp_start(14 + k);
}

proof fn lemma_value_of_digits(bits: Seq<u8>, pos: nat, v: nat, n: nat)
    requires
        v < pow2(n),
        forall|i: int|
            0 <= i < n ==> #[trigger] writing::digits(v, n)[i] == bytes::padded(bits, pos + i),
    ensures
        grundig_sp::bits_value(bits, pos, n) == v,
    decreases n,
{
    if n == 0 {
        lemma2_to64();
    } else {
        lemma_pow2_unfold(n);
        writing::lemma_digits_len(v / 2, (n - 1) as nat);
        assert forall|i: int| 0 <= i < n - 1 implies #[trigger] writing::digits(
            v / 2,
            (n - 1) as nat,
        )[i] == bytes::padded(bits, pos + i) by {
            assert(writing::digits(v, n)[i] == writing::digits(v / 2, (n - 1) as nat)[i]);
        }
        lemma_value_of_digits(bits, pos, v / 2, (n - 1) as nat);
        assert(writing::digits(v, n)[n - 1] == v % 2);
    }
}

/// The bits begin with those written.
pub open spec fn begin_with(bits: Seq<u8>, all: Seq<nat>) -> bool {
    &&& all.len() <= bits.len()
    &&& forall|i: int| 0 <= i < all.len() ==> #[trigger] bits[i] == all[i]
}

/// Every number is read back where it was written.
spec fn reads(values: Seq<nat>, widths: Seq<nat>, bits: Seq<u8>) -> bool {
    forall|k: int|
        0 <= k < values.len() ==> #[trigger] values[k] == grundig_sp::bits_value(
            bits,
            writing::start(widths, k),
            widths[k],
        )
}

proof fn lemma_reads(values: Seq<nat>, widths: Seq<nat>, bits: Seq<u8>)
    requires
        writing::fit(values, widths),
        begin_with(bits, writing::written(values, widths)),
    ensures
        reads(values, widths, bits),
{
    let all = writing::written(values, widths);
    assert forall|k: int| 0 <= k < values.len() implies #[trigger] values[k]
        == grundig_sp::bits_value(bits, writing::start(widths, k), widths[k]) by {
        let at = writing::start(widths, k);
        writing::lemma_written_at(values, widths, k);
        assert forall|i: int| 0 <= i < widths[k] implies #[trigger] writing::digits(
            values[k],
            widths[k],
        )[i] == bytes::padded(bits, at + i) by {
            assert(bits[at + i] == all[at + i]);
        }
        lemma_value_of_digits(bits, at, values[k], widths[k]);
    }
}

/// The subframe holds what was written of it.
pub open spec fn holds(s: GrundigSubframe, values: Seq<nat>, sf: int) -> bool {
    &&& s.gain == values[14 + 10 * sf]
    &&& ds2_laws::nats(s.positions@) == grundig_sp::places(values[15 + 10 * sf])
    &&& s.lead == values[16 + 10 * sf]
    &&& forall|k: int| 0 <= k < 7 ==> #[trigger] s.pulses@[k] == values[17 + 10 * sf + k]
    &&& s.lag == grundig_sp::lag(values[54], sf)
}

proof fn lemma_holds(
    values: Seq<nat>,
    widths: Seq<usize>,
    bits: Seq<u8>,
    s: GrundigSubframe,
    sf: int,
)
    requires
        values.len() == 55,
        reads(values, frame_widths(widths), bits),
        0 <= sf < 4,
        grundig_sp::describes_subframe(s, bits, widths, sf as nat),
    ensures
        holds(s, values, sf),
{
    let start = (grundig_sp::refl_start(widths, 14) + 63 * sf) as nat;
    lemma_number_at(widths, sf, 0);
    lemma_number_at(widths, sf, 1);
    lemma_number_at(widths, sf, 2);
    assert(values[14 + 10 * sf] == grundig_sp::bits_value(bits, start, 5));
    assert(values[15 + 10 * sf] == grundig_sp::bits_value(bits, start + 5, 31));
    assert(values[16 + 10 * sf] == grundig_sp::bits_value(bits, start + 36, 6));
    common::lemma_positions_bound(grundig_sp::clamped_index(values[15 + 10 * sf]), 71, 7);
    assert(ds2_laws::nats(s.positions@) =~= grundig_sp::places(values[15 + 10 * sf]));
    assert forall|k: int| 0 <= k < 7 implies #[trigger] s.pulses@[k] == values[17 + 10 * sf
        + k] by {
        lemma_number_at(widths, sf, 3 + k);
        assert(values[17 + 10 * sf + k] == grundig_sp::bits_value(
            bits,
            (start + 42 + 3 * k) as nat,
            3,
        ));
    }
    lemma_start(widths, 54);
    ds2_laws::lemma_sp_start(54);
    assert(frame_widths(widths)[54] == 24);
    assert(values[54] == grundig_sp::pitch_number(bits, widths));
}

/// Unpacking a Grundig frame undoes writing it: the frame holds the numbers in the order in
/// which they were written, and the pulses of each subframe stand where the codebook index
/// written says.
pub proof fn law_unpacking_undoes_writing(
    values: Seq<nat>,
    widths: Seq<usize>,
    bits: Seq<u8>,
    f: GrundigFrame,
)
    requires
        widths.len() == 14,
        writing::fit(values, frame_widths(widths)),
        begin_with(bits, writing::written(values, frame_widths(widths))),
        grundig_sp::describes(f, bits, widths),
    ensures
        forall|i: int|
            0 <= i < 14 && values[i] <= usize::MAX ==> #[trigger] f.refl@[i] == values[i],
        f.subframes@.len() == 4,
        forall|sf: int| 0 <= sf < 4 ==> holds(#[trigger] f.subframes@[sf], values, sf),
{
    lemma_reads(values, frame_widths(widths), bits);
    lemma_frame(values, widths, bits, f);
}

#[verifier::rlimit(40)]
proof fn lemma_frame(values: Seq<nat>, widths: Seq<usize>, bits: Seq<u8>, f: GrundigFrame)
    requires
        values.len() == 55,
        reads(values, frame_widths(widths), bits),
        grundig_sp::describes(f, bits, widths),
    ensures
        forall|i: int|
            0 <= i < 14 && values[i] <= usize::MAX ==> #[trigger] f.refl@[i] == values[i],
        forall|sf: int| 0 <= sf < 4 ==> holds(#[trigger] f.subframes@[sf], values, sf),
{
    assert forall|i: int| 0 <= i < 14 && values[i] <= usize::MAX implies #[trigger] f.refl@[i]
        == values[i] by {
        lemma_start(widths, i);
    }
    assert forall|sf: int| 0 <= sf < 4 implies holds(#[trigger] f.subframes@[sf], values, sf) by {
        lemma_holds(values, widths, bits, f.subframes@[sf], sf);
    }
}

/// A lag moved into the window that the next one can be coded in: from 23 below it on, and
/// inside 36..=139.
pub open spec fn window(lag: int) -> int {
    if lag - 23 < 36 {
        36
    } else if lag - 23 > 139 {
        139
    } else {
        lag - 23
    }
}

/// The pitch lags of a Grundig frame undo writing their codes into one number, the first in
/// base 151 and the others in base 48: the first lag is the first code from 36 on, each
/// later one its code from the start of its window on. Of the last code only its remainder
/// in base 48 counts.
pub proof fn law_lags_undo_writing(a: nat, b: nat, c: nat, d: nat)
    requires
        a < 151,
        b < 48,
        c < 48,
    ensures
        ({
            let n = a + 151 * (b + 48 * (c + 48 * d));
            &&& grundig_sp::lag(n, 0) == 36 + a
            &&& grundig_sp::lag(n, 1) == b + window(grundig_sp::lag(n, 0) as int)
            &&& grundig_sp::lag(n, 2) == c + window(grundig_sp::lag(n, 1) as int)
            &&& grundig_sp::lag(n, 3) == d % 48 + window(grundig_sp::lag(n, 2) as int)
        }),
{
    let n = a + 151 * (b + 48 * (c + 48 * d));
    assert(n / 151 == b + 48 * (c + 48 * d));
    assert(n / 151 / 48 == c + 48 * d);
    assert(n / 151 / 48 / 48 == d);
    reveal_with_fuel(grundig_sp::lag, 4);
}

/// The excitation repeats at the pitch lag: sample `j` is kept one lag back, counted from
/// the end of the history, and where the lag is shorter than that, it is the sample that
/// the one a lag earlier repeats.
pub proof fn law_excitation_repeats_at_the_lag(lag: int, j: int)
    requires
        36 <= lag <= 186,
        0 <= j < 72,
    ensures
        j < lag ==> grundig_sp::source_of(lag, j) - 187 == j - lag,
        j >= lag ==> grundig_sp::source_of(lag, j) == grundig_sp::source_of(lag, j - lag),
{
    ds2_laws::lemma_repeats(lag, j);
}

/// The noise generator is a linear congruence modulo 0x10000 with the factor 0x209 and the
/// increment 0x103; its samples are its states as signed 16-bit numbers.
pub proof fn law_noise_is_a_linear_congruence(state: int)
    ensures
        0 <= grundig_sp::noise_after(state) < 0x10000,
        (grundig_sp::noise_after(state) - 521 * state - 259) % 65536 == 0,
        0 <= state < 0x10000 ==> -0x8000 <= grundig_sp::noise_sample(state) < 0x8000,
        (grundig_sp::noise_sample(state) - state) % 65536 == 0,
{
    let x = state * 0x209 + 0x103;
    let q = x / 65536;
    assert(grundig_sp::noise_after(state) - 521 * state - 259 == -65536 * q);
    assert((-65536 * q) % 65536 == 0);
}

/// Resampling makes four samples of three: output `n` stands at three quarters of its
/// number, the whole part counted in input samples behind 0xce zeros and the rest in
/// quarters; and there is an output for every place before the end of the input.
pub proof fn law_resampling_makes_four_of_three(n: int, len: nat)
    requires
        0 <= n,
    ensures
        ({
            let (pos, phase) = grundig_sp::resample_step(n);
            &&& 4 * (pos - 0xce) + phase == 3 * n
            &&& 0 <= phase < 4
        }),
        n < grundig_sp::resampled_len(len) <==> 3 * n < 4 * len,
{
}

} // verus!
