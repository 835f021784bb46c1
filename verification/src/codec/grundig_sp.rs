//! Grundig DSS frames: what their 328 bits say, and which samples their synthesis reads.
//!
//! 14 reflection indices, then for each of 4 subframes of 72 samples a pitch gain, a
//! codebook index for 7 pulse positions and the pulse amplitudes, and last the four pitch
//! lags in one number.
use crate::bytes;
use crate::codec::common;
use vstd::arithmetic::power2::*;
use vstd::prelude::*;

verus! {

/// Bits per frame.
pub const FRAME_BITS: usize = 328;

/// Bytes per frame.
pub const FRAME_BYTES: usize = 41;

/// Subframes per frame.
pub const SUB: usize = 4;

/// Samples per subframe.
pub const SUBLEN: usize = 72;

/// Reflection coefficients per frame.
pub const ORDER: usize = 14;

/// The highest codebook index: there are 1473109704 ways to place 7 pulses.
pub const LAST_INDEX: u64 = 0x57cddec7;

/// Zero samples before the first one when resampling.
pub const RESAMPLE_HISTORY: usize = 0xce;

/// Bit `i` of a frame, most significant first; missing bits are zero.
pub open spec fn frame_bit(frame: Seq<u8>, i: int) -> u8 {
    if i / 8 < frame.len() {
        (frame[i / 8] >> ((7 - i % 8) as u8)) & 1u8
    } else {
        0
    }
}

/// The `n` bits from `pos` on as a number, first bit highest; missing bits are zero.
pub open spec fn bits_value(bits: Seq<u8>, pos: nat, n: nat) -> nat
    decreases n,
{
    if n == 0 {
        0
    } else {
        2 * bits_value(bits, pos, (n - 1) as nat) + bytes::padded(bits, pos + n - 1) as nat
    }
}

/// Every bit is zero or one.
pub open spec fn are_bits(bits: Seq<u8>) -> bool {
    forall|i: int| 0 <= i < bits.len() ==> #[trigger] bits[i] <= 1
}

/// The bits of a frame.
pub open spec fn frame_bits(frame: Seq<u8>) -> Seq<u8> {
    Seq::new(328, |i: int| frame_bit(frame, i))
}

/// Unpacks a frame into its bits.
pub fn unpack_bits(frame: &[u8]) -> (bits: Vec<u8>)
    ensures
        bits@ == frame_bits(frame@),
        are_bits(bits@),
{
    let mut bits: Vec<u8> = Vec::new();
    let mut i: usize = 0;
    while i < FRAME_BITS
        invariant
            i <= 328,
            bits@.len() == i,
            forall|j: int|
                0 <= j < i ==> #[trigger] bits@[j] == frame_bit(frame@, j) && bits@[j] <= 1,
        decreases 328 - i,
    {
        let bit: u8 = if i / 8 < frame.len() {
            let byte: u8 = frame[i / 8];
            let shift: u8 = (7 - i % 8) as u8;
            assert((byte >> shift) & 1u8 <= 1) by (bit_vector);
            (byte >> shift) & 1u8
        } else {
            0
        };
        bits.push(bit);
        i += 1;
    }
    assert(bits@ =~= frame_bits(frame@));
    bits
}

proof fn lemma_bits_value(bits: Seq<u8>, pos: nat, n: nat)
    requires
        are_bits(bits),
    ensures
        bits_value(bits, pos, n) < pow2(n),
    decreases n,
{
    if n == 0 {
        lemma2_to64();
    } else {
        lemma_bits_value(bits, pos, (n - 1) as nat);
        lemma_pow2_unfold(n);
        assert(bytes::padded(bits, pos + n - 1) <= 1);
    }
}

/// A cursor over the bits of a frame.
pub struct FrameReader<'a> {
    b: &'a [u8],
    i: usize,
}

impl<'a> FrameReader<'a> {
    /// The bits that are read.
    pub closed spec fn bits(self) -> Seq<u8> {
        self.b@
    }

    /// The number of bits read so far.
    pub closed spec fn pos(self) -> nat {
        self.i as nat
    }

    pub fn new(b: &'a [u8]) -> (r: Self)
        ensures
            r.bits() == b@,
            r.pos() == 0,
    {
        FrameReader { b, i: 0 }
    }

    /// Reads `n` bits as a number.
    pub fn read(&mut self, n: usize) -> (r: u64)
        requires
            n <= 63,
            are_bits(old(self).bits()),
            old(self).pos() + n <= usize::MAX,
        ensures
            final(self).bits() == old(self).bits(),
            final(self).pos() == old(self).pos() + n,
            r == bits_value(old(self).bits(), old(self).pos(), n as nat),
            r < pow2(n as nat),
    {
        let mut v: u64 = 0;
        let mut k: usize = 0;
        while k < n
            invariant
                k <= n <= 63,
                old(self).pos() + n <= usize::MAX,
                are_bits(self.bits()),
                self.bits() == old(self).bits(),
                self.pos() == old(self).pos() + k,
                v == bits_value(old(self).bits(), old(self).pos(), k as nat),
            decreases n - k,
        {
            proof {
                lemma_bits_value(old(self).bits(), old(self).pos(), (k + 1) as nat);
                lemma_pow2_strictly_increases((k + 1) as nat, 64);
                lemma2_to64();
            }
            let bit: u8 = if self.i < self.b.len() {
                self.b[self.i]
            } else {
                0
            };
            v = 2 * v + bit as u64;
            self.i = self.i + 1;
            k += 1;
        }
        proof {
            lemma_bits_value(old(self).bits(), old(self).pos(), n as nat);
        }
        v
    }
}

/// Where reflection index `i` starts, for given index widths.
pub open spec fn refl_start(widths: Seq<usize>, i: nat) -> nat
    decreases i,
{
    if i == 0 {
        0
    } else {
        refl_start(widths, (i - 1) as nat) + widths[i - 1] as nat
    }
}

/// Where the parameters of a subframe start.
pub open spec fn subframe_start(widths: Seq<usize>, sf: nat) -> nat {
    refl_start(widths, 14) + 63 * sf
}

/// The number that holds the four pitch lags.
pub open spec fn pitch_number(bits: Seq<u8>, widths: Seq<usize>) -> nat {
    bits_value(bits, subframe_start(widths, 4), 24)
}

/// The lag code of a subframe: the lowest digit in base 151, the next three in base 48.
pub open spec fn lag_code(number: nat, sf: int) -> nat {
    if sf == 0 {
        number % 151
    } else if sf == 1 {
        (number / 151) % 48
    } else if sf == 2 {
        (number / 151 / 48) % 48
    } else {
        (number / 151 / 48 / 48) % 48
    }
}

/// The pitch lag of a subframe: the first from 36 on, each later one in a window around
/// the one before.
pub open spec fn lag(number: nat, sf: int) -> nat
    decreases sf,
{
    if sf <= 0 {
        36 + lag_code(number, 0)
    } else {
        lag_code(number, sf) + common::pitch_base(lag(number, sf - 1))
    }
}

/// Every pitch lag lies between 36 and 186.
pub proof fn law_lags_stay_in_range(number: nat, sf: int)
    requires
        0 <= sf < 4,
    ensures
        36 <= lag(number, sf) <= 186,
    decreases sf,
{
    if sf > 0 {
        law_lags_stay_in_range(number, sf - 1);
    }
}

/// The parameters of one subframe.
pub struct GrundigSubframe {
    /// Index into the pitch gains.
    pub gain: usize,
    /// The pitch lag in samples.
    pub lag: usize,
    /// Index into the lead gains.
    pub lead: usize,
    /// Indices into the pulse amplitudes.
    pub pulses: [usize; 7],
    /// The positions of the pulses.
    pub positions: Vec<usize>,
}

/// The parameters of one frame.
pub struct GrundigFrame {
    /// Indices into the codebooks of the reflection coefficients.
    pub refl: [usize; 14],
    /// The subframes in order.
    pub subframes: Vec<GrundigSubframe>,
}

/// The codebook index that is decoded: one that is too high counts as the highest.
pub open spec fn clamped_index(index: nat) -> nat {
    if index > 0x57cddec7 {
        0x57cddec7
    } else {
        index
    }
}

/// The subframe holds what the frame says of it.
pub open spec fn describes_subframe(
    s: GrundigSubframe,
    bits: Seq<u8>,
    widths: Seq<usize>,
    sf: nat,
) -> bool {
    let start = subframe_start(widths, sf);
    let at = places(bits_value(bits, start + 5, 31));
    &&& s.gain == bits_value(bits, start, 5)
    &&& s.lag == lag(pitch_number(bits, widths), sf as int)
    &&& s.lead == bits_value(bits, start + 36, 6)
    &&& forall|k: int|
        0 <= k < 7 ==> #[trigger] s.pulses@[k] == bits_value(
            bits,
            (start + 42 + 3 * k) as nat,
            3,
        )
    &&& s.positions@.len() == 7
    &&& forall|k: int| 0 <= k < 7 ==> #[trigger] s.positions@[k] == at[k]
}

/// The parameters are in the ranges of their tables.
pub open spec fn subframe_in_range(s: GrundigSubframe) -> bool {
    &&& s.gain < 32
    &&& 36 <= s.lag <= 186
    &&& s.lead < 64
    &&& forall|k: int| 0 <= k < 7 ==> #[trigger] s.pulses@[k] < 8
    &&& s.positions@.len() == 7
    &&& forall|k: int| 0 <= k < 7 ==> #[trigger] s.positions@[k] < 72
}

/// The frame holds what its bits say.
pub open spec fn describes(f: GrundigFrame, bits: Seq<u8>, widths: Seq<usize>) -> bool {
    &&& forall|i: int|
        0 <= i < 14 ==> #[trigger] f.refl@[i] == bits_value(
            bits,
            refl_start(widths, i as nat),
            widths[i] as nat,
        ) as usize
    &&& f.subframes@.len() == 4
    &&& forall|sf: int|
        0 <= sf < 4 ==> describes_subframe(#[trigger] f.subframes@[sf], bits, widths, sf as nat)
}

proof fn lemma_refl_start_bound(widths: Seq<usize>, i: nat)
    requires
        widths.len() == 14,
        i <= 14,
        forall|j: int| 0 <= j < 14 ==> #[trigger] widths[j] <= 63,
    ensures
        refl_start(widths, i) <= 63 * i,
    decreases i,
{
    if i > 0 {
        lemma_refl_start_bound(widths, (i - 1) as nat);
        assert(widths[i - 1] <= 63);
    }
}

/// The positions that a codebook index stands for.
pub open spec fn places(index: nat) -> Seq<nat> {
    common::positions(clamped_index(index), 71, 7)
}

/// The positions that a codebook index stands for.
pub fn pulse_positions(index: u64) -> (positions: Vec<usize>)
    ensures
        positions@.len() == 7,
        forall|k: int|
            0 <= k < 7 ==> #[trigger] positions@[k] == places(index as nat)[k] && positions@[k] < 72,
{
    let clamped: u64 = if index > LAST_INDEX {
        LAST_INDEX
    } else {
        index
    };
    proof {
        common::lemma_positions_bound(clamped as nat, 71, 7);
    }
    common::decode_combinatorial_index(clamped, SUBLEN, 7)
}

/// Reads the parameters of a frame from its bits, for given widths of the reflection
/// indices.
pub fn unpack_frame(bits: &[u8], widths: &[usize; 14]) -> (r: GrundigFrame)
    requires
        are_bits(bits@),
        forall|j: int| 0 <= j < 14 ==> #[trigger] widths@[j] <= 63,
    ensures
        describes(r, bits@, widths@),
        forall|sf: int| 0 <= sf < 4 ==> subframe_in_range(#[trigger] r.subframes@[sf]),
{
    let mut reader: FrameReader = FrameReader::new(bits);
    let mut refl: [usize; 14] = [0usize; 14];
    let mut i: usize = 0;
    proof {
        lemma2_to64();
        lemma_refl_start_bound(widths@, 14);
    }
    while i < ORDER
        invariant
            i <= 14,
                are_bits(bits@),
            reader.bits() == bits@,
            reader.pos() == refl_start(widths@, i as nat),
            forall|j: int| 0 <= j < 14 ==> #[trigger] widths@[j] <= 63,
            forall|j: int|
                0 <= j < i ==> #[trigger] refl@[j] == bits_value(
                    bits@,
                    refl_start(widths@, j as nat),
                    widths@[j] as nat,
                ) as usize,
        decreases 14 - i,
    {
        proof {
            lemma_refl_start_bound(widths@, i as nat);
        }
        let width: usize = widths[i];
        refl[i] = reader.read(width) as usize;
        i += 1;
        assert(refl_start(widths@, i as nat) == refl_start(widths@, (i - 1) as nat) + widths@[i - 1]
            as nat);
    }
    let ghost number = pitch_number(bits@, widths@);
    let mut subframes: Vec<GrundigSubframe> = Vec::new();
    let mut sf: usize = 0;
    while sf < SUB
        invariant
            sf <= 4,
                are_bits(bits@),
            pow2(3) == 8,
            pow2(5) == 32,
            pow2(6) == 64,
            pow2(31) == 0x80000000,
            refl_start(widths@, 14) <= 63 * 14,
            reader.bits() == bits@,
            reader.pos() == subframe_start(widths@, sf as nat),
            subframes@.len() == sf,
            forall|j: int|
                0 <= j < sf ==> {
                    let s = #[trigger] subframes@[j];
                    let start = subframe_start(widths@, j as nat);
                    let at = places(bits_value(bits@, start + 5, 31));
                    &&& s.gain == bits_value(bits@, start, 5)
                    &&& s.gain < 32
                    &&& s.lead == bits_value(bits@, start + 36, 6)
                    &&& s.lead < 64
                    &&& forall|k: int|
                        0 <= k < 7 ==> #[trigger] s.pulses@[k] == bits_value(
                            bits@,
                            (start + 42 + 3 * k) as nat,
                            3,
                        ) && s.pulses@[k] < 8
                    &&& s.positions@.len() == 7
                    &&& forall|k: int|
                        0 <= k < 7 ==> #[trigger] s.positions@[k] == at[k] && s.positions@[k] < 72
                },
        decreases 4 - sf,
    {
        let ghost start = subframe_start(widths@, sf as nat);
        let gain: usize = reader.read(5) as usize;
        let index: u64 = reader.read(31);
        let lead: usize = reader.read(6) as usize;
        let mut pulses: [usize; 7] = [0usize; 7];
        let mut k: usize = 0;
        while k < 7
            invariant
                k <= 7,
                sf < 4,
                        are_bits(bits@),
                pow2(3) == 8,
                refl_start(widths@, 14) <= 63 * 14,
                start == subframe_start(widths@, sf as nat),
                reader.bits() == bits@,
                reader.pos() == start + 42 + 3 * k,
                forall|j: int|
                    0 <= j < k ==> #[trigger] pulses@[j] == bits_value(
                        bits@,
                        (start + 42 + 3 * j) as nat,
                        3,
                    ) && pulses@[j] < 8,
            decreases 7 - k,
        {
            pulses[k] = reader.read(3) as usize;
            k += 1;
        }
        let positions: Vec<usize> = pulse_positions(index);
        subframes.push(GrundigSubframe { gain, lag: 0, lead, pulses, positions });
        sf += 1;
    }
    let mut rest: u64 = reader.read(24);
    assert(rest == number);
    let mut lags: [usize; 4] = [0usize; 4];
    lags[0] = (rest % 151) as usize + 36;
    rest = rest / 151;
    lags[1] = (rest % 48) as usize + common::pitch_window_start(lags[0]);
    rest = rest / 48;
    lags[2] = (rest % 48) as usize + common::pitch_window_start(lags[1]);
    rest = rest / 48;
    lags[3] = (rest % 48) as usize + common::pitch_window_start(lags[2]);
    proof {
        reveal_with_fuel(lag, 4);
        law_lags_stay_in_range(number, 0);
        law_lags_stay_in_range(number, 1);
        law_lags_stay_in_range(number, 2);
        law_lags_stay_in_range(number, 3);
    }
    let ghost read = subframes@;
    let mut sf: usize = 0;
    while sf < SUB
        invariant
            sf <= 4,
            subframes@.len() == 4,
            read.len() == 4,
            forall|j: int|
                0 <= j < 4 ==> #[trigger] subframes@[j] == (GrundigSubframe {
                    lag: if j < sf {
                        lags@[j]
                    } else {
                        read[j].lag
                    },
                    ..read[j]
                }),
        decreases 4 - sf,
    {
        subframes[sf].lag = lags[sf];
        sf += 1;
    }
    proof {
        assert forall|j: int| 0 <= j < 4 implies subframe_in_range(#[trigger] subframes@[j])
            && describes_subframe(subframes@[j], bits@, widths@, j as nat) by {
            let s = read[j];
            assert(subframes@[j].pulses == s.pulses);
            assert(subframes@[j].positions == s.positions);
            assert(lags@[j] == lag(number, j));
        }
    }
    GrundigFrame { refl, subframes }
}

/// Where the history of 187 samples holds the one that sample `j` of a subframe repeats:
/// one lag back, or more where the lag is shorter than the subframe.
pub open spec fn source_of(lag: int, j: int) -> int {
    187 - lag + j % lag
}

/// The kept excitation sample that sample `j` of a subframe repeats: one lag back, or
/// more where the lag is shorter than the subframe. The history holds 187 samples.
pub fn history_source(lag: usize, j: usize) -> (r: usize)
    requires
        36 <= lag <= 186,
        j < 72,
    ensures
        r == source_of(lag as int, j as int),
        r < 187,
{
    187 - lag + j % lag
}

/// The next state of the noise generator.
pub open spec fn noise_after(state: int) -> int {
    (state * 0x209 + 0x103) % 0x10000
}

/// The sample that a state of the noise generator stands for.
pub open spec fn noise_sample(state: int) -> int {
    if state >= 0x8000 {
        state - 0x10000
    } else {
        state
    }
}

/// The next state and sample of the noise generator.
pub fn next_noise(state: u16) -> (r: (u16, i32))
    ensures
        r.0 == noise_after(state as int),
        r.1 == noise_sample(noise_after(state as int)),
{
    let next: u32 = (state as u32 * 0x209 + 0x103) % 0x10000;
    let sample: i32 = if next >= 0x8000 {
        next as i32 - 0x10000
    } else {
        next as i32
    };
    (next as u16, sample)
}

/// Where output sample `n` of the resampler reads: the newest input sample, counted with
/// the zeros before the first one, and the phase of the filter.
pub open spec fn resample_step(n: int) -> (int, int) {
    (0xce + 3 * n / 4, 3 * n % 4)
}

/// How many samples the resampler makes of `len`: four for every three, rounded up.
pub open spec fn resampled_len(len: nat) -> nat {
    (4 * len + 2) / 3
}

/// Where each output sample of the resampler reads.
pub fn resample_plan(len: usize) -> (plan: Vec<(usize, usize)>)
    requires
        4 * len + 0x1000 <= usize::MAX,
    ensures
        plan@.len() == resampled_len(len as nat),
        forall|n: int|
            0 <= n < plan@.len() ==> (#[trigger] plan@[n]).0 == resample_step(n).0 && plan@[n].1
                == resample_step(n).1 && plan@[n].0 < 0xce + len && plan@[n].1 < 4,
{
    let mut plan: Vec<(usize, usize)> = Vec::new();
    let mut phase: usize = 0;
    let mut pos: usize = RESAMPLE_HISTORY;
    let end: usize = RESAMPLE_HISTORY + len;
    let ghost mut n: int = 0;
    while pos < end
        invariant
            end == 0xce + len,
            4 * len + 0x1000 <= usize::MAX,
            n == plan@.len(),
            pos == resample_step(n).0,
            phase == resample_step(n).1,
            n <= resampled_len(len as nat),
            forall|n: int|
                0 <= n < plan@.len() ==> (#[trigger] plan@[n]).0 == resample_step(n).0
                    && plan@[n].1 == resample_step(n).1 && plan@[n].0 < 0xce + len && plan@[n].1
                    < 4,
        decreases 4 * len - 3 * n + 4,
    {
        plan.push((pos, phase));
        phase = phase + 3;
        if phase > 3 {
            let advance: usize = phase / 4;
            pos = pos + advance;
            phase = phase - 4 * advance;
        }
        proof {
            n = n + 1;
        }
    }
    plan
}

} // verus!
