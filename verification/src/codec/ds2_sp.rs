//! DS2 SP frames: what their 328 bits say.
//!
//! 14 reflection indices, then for each of 4 subframes of 72 samples a pitch gain, a
//! codebook index for 7 pulse positions, a gain and the pulse amplitudes, and last the
//! four pitch lags in one number.
use crate::bitstream;
use crate::bitstream::BitstreamReader;
use crate::codec::common;
use vstd::arithmetic::power2::*;
use vstd::prelude::*;

verus! {

/// Reflection coefficients per frame.
pub const SP_COEFFS: usize = 14;

/// Subframes per frame.
pub const SP_SUBFRAMES: usize = 4;

/// Samples per subframe.
pub const SP_SUBFRAME_SIZE: usize = 72;

/// Pulses per subframe.
pub const SP_PULSES: usize = 7;

/// Samples of excitation that are kept for the pitch.
pub const SP_MEMORY: usize = 258;

/// The bits of each reflection index.
pub const SP_BIT_ALLOC: [u32; 14] = [5, 5, 4, 4, 4, 4, 4, 4, 3, 3, 3, 3, 3, 3];

/// Where reflection index `i` starts in a frame.
pub open spec fn refl_start(i: nat) -> nat
    decreases i,
{
    if i == 0 {
        0
    } else {
        refl_start((i - 1) as nat) + SP_BIT_ALLOC@[i - 1] as nat
    }
}

/// Where a subframe starts in a frame.
pub open spec fn subframe_start(sf: nat) -> nat {
    52 + 63 * sf
}

/// The lag code of a subframe: a digit in base 151, two in base 48, and what is left, at
/// most 47.
pub open spec fn lag_code(number: nat, sf: int) -> nat {
    if sf == 0 {
        number % 151
    } else if sf == 1 {
        (number / 151) % 48
    } else if sf == 2 {
        (number / 151 / 48) % 48
    } else if number / 151 / 48 / 48 < 47 {
        number / 151 / 48 / 48
    } else {
        47
    }
}

/// The lowest lag that can follow a lag.
pub open spec fn window_base(prev: nat) -> nat {
    if prev > 163 {
        140
    } else if prev >= 59 {
        (prev - 23) as nat
    } else {
        36
    }
}

/// The pitch lag of a subframe.
pub open spec fn lag(number: nat, sf: int) -> nat
    decreases sf,
{
    if sf <= 0 {
        36 + lag_code(number, 0)
    } else {
        lag_code(number, sf) + window_base(lag(number, sf - 1))
    }
}

/// Every pitch lag lies between 36 and 187.
pub proof fn law_lags_stay_in_range(number: nat, sf: int)
    requires
        0 <= sf < 4,
    ensures
        36 <= lag(number, sf) <= 187,
    decreases sf,
{
    if sf > 0 {
        law_lags_stay_in_range(number, sf - 1);
    }
}

fn next_lag(code: usize, prev: usize) -> (r: usize)
    requires
        code < 48,
    ensures
        r == code + window_base(prev as nat),
{
    if prev > 163 {
        code + 140
    } else if prev >= 59 {
        code + (prev - 23)
    } else {
        code + 36
    }
}

/// Decodes the four pitch lags.
pub fn decode_combined_pitch(number: u32) -> (lags: [usize; 4])
    ensures
        forall|sf: int|
            0 <= sf < 4 ==> #[trigger] lags@[sf] == lag(number as nat, sf) && 36 <= lags@[sf]
                <= 187,
{
    let first: usize = (number % 151) as usize + 36;
    let rest: u32 = number / 151;
    let second: usize = next_lag((rest % 48) as usize, first);
    let rest: u32 = rest / 48;
    let third: usize = next_lag((rest % 48) as usize, second);
    let rest: u32 = rest / 48;
    let code: usize = if rest < 47 {
        rest as usize
    } else {
        47
    };
    let fourth: usize = next_lag(code, third);
    proof {
        reveal_with_fuel(lag, 4);
        law_lags_stay_in_range(number as nat, 0);
        law_lags_stay_in_range(number as nat, 1);
        law_lags_stay_in_range(number as nat, 2);
        law_lags_stay_in_range(number as nat, 3);
    }
    [first, second, third, fourth]
}

/// The parameters of one subframe.
pub struct SpSubframe {
    /// The pitch lag in samples.
    pub pitch: usize,
    /// Index into the pitch gains.
    pub pitch_gain: usize,
    /// Index into the excitation gains.
    pub gain: usize,
    /// Indices into the pulse amplitudes.
    pub pulses: [usize; 7],
    /// The positions of the pulses.
    pub positions: Vec<usize>,
}

/// The parameters of one frame.
pub struct SpFrame {
    /// Indices into the codebooks of the reflection coefficients.
    pub refl: [usize; 14],
    /// The subframes in order.
    pub subframes: Vec<SpSubframe>,
}

/// But for the pitch, the subframe holds what the frame says of it.
pub open spec fn describes_subframe(s: SpSubframe, frame: Seq<u8>, sf: nat) -> bool {
    let start = subframe_start(sf);
    let places = common::positions(bitstream::field(frame, start + 5, 31), 71, 7);
    &&& s.pitch_gain == bitstream::field(frame, start, 5)
    &&& s.gain == bitstream::field(frame, start + 36, 6)
    &&& forall|k: int|
        0 <= k < 7 ==> #[trigger] s.pulses@[k] == bitstream::field(
            frame,
            (start + 42 + 3 * k) as nat,
            3,
        )
    &&& s.positions@.len() == 7
    &&& forall|k: int| 0 <= k < 7 ==> #[trigger] s.positions@[k] == places[k]
}

/// But for the pitch, the parameters are in the ranges of their tables.
pub open spec fn subframe_in_range(s: SpSubframe) -> bool {
    &&& s.pitch_gain < 32
    &&& s.gain < 64
    &&& forall|k: int| 0 <= k < 7 ==> #[trigger] s.pulses@[k] < 8
    &&& s.positions@.len() == 7
    &&& forall|k: int| 0 <= k < 7 ==> #[trigger] s.positions@[k] < 72
}

/// The frame holds what a packet says.
pub open spec fn describes(f: SpFrame, packet: Seq<u8>) -> bool {
    &&& forall|i: int|
        0 <= i < 14 ==> #[trigger] f.refl@[i] == bitstream::field(
            packet,
            refl_start(i as nat),
            SP_BIT_ALLOC@[i] as nat,
        )
    &&& f.subframes@.len() == 4
    &&& forall|sf: int|
        0 <= sf < 4 ==> describes_subframe(#[trigger] f.subframes@[sf], packet, sf as nat)
            && f.subframes@[sf].pitch == lag(bitstream::field(packet, 304, 24), sf)
}

proof fn lemma_refl_start_bound(i: nat)
    requires
        i <= 14,
    ensures
        refl_start(i) <= 5 * i,
    decreases i,
{
    if i > 0 {
        lemma_refl_start_bound((i - 1) as nat);
    }
}

/// Reads the parameters of a subframe; the pitch, which comes later, is left at zero.
fn unpack_subframe(reader: &mut BitstreamReader, Ghost(sf): Ghost<nat>) -> (s: SpSubframe)
    requires
        sf < 4,
        old(reader).pos() == subframe_start(sf),
    ensures
        final(reader).data() == old(reader).data(),
        final(reader).pos() == subframe_start(sf + 1),
        describes_subframe(s, old(reader).data(), sf),
        subframe_in_range(s),
{
    proof {
        lemma2_to64();
    }
    let ghost data = reader.data();
    let pitch_gain: usize = reader.read_bits(5) as usize;
    let index: u64 = reader.read_bits_u64(31);
    let gain: usize = reader.read_bits(6) as usize;
    let mut pulses: [usize; 7] = [0usize; 7];
    let mut k: usize = 0;
    while k < SP_PULSES
        invariant
            k <= 7,
            sf < 4,
            pow2(3) == 8,
            reader.data() == data,
            reader.pos() == subframe_start(sf) + 42 + 3 * k,
            forall|j: int|
                0 <= j < k ==> #[trigger] pulses@[j] == bitstream::field(
                    data,
                    (subframe_start(sf) + 42 + 3 * j) as nat,
                    3,
                ) && pulses@[j] < 8,
        decreases 7 - k,
    {
        pulses[k] = reader.read_bits(3) as usize;
        k += 1;
    }
    let positions: Vec<usize> = common::decode_combinatorial_index(
        index,
        SP_SUBFRAME_SIZE,
        SP_PULSES,
    );
    proof {
        common::lemma_positions_bound(index as nat, 71, 7);
    }
    SpSubframe { pitch: 0, pitch_gain, gain, pulses, positions }
}

/// Reads the parameters of a packet. Missing words read as zero.
pub fn unpack_frame(packet: &[u8]) -> (r: SpFrame)
    ensures
        describes(r, packet@),
        forall|i: int|
            0 <= i < 14 ==> #[trigger] r.refl@[i] < pow2(SP_BIT_ALLOC@[i] as nat),
        forall|sf: int|
            0 <= sf < 4 ==> subframe_in_range(#[trigger] r.subframes@[sf]) && 36
                <= r.subframes@[sf].pitch <= 187,
{
    let mut reader: BitstreamReader = BitstreamReader::new(packet);
    let mut refl: [usize; 14] = [0usize; 14];
    let mut i: usize = 0;
    while i < SP_COEFFS
        invariant
            i <= 14,
            reader.data() == packet@,
            reader.pos() == refl_start(i as nat),
            forall|j: int|
                0 <= j < i ==> #[trigger] refl@[j] == bitstream::field(
                    packet@,
                    refl_start(j as nat),
                    SP_BIT_ALLOC@[j] as nat,
                ) && refl@[j] < pow2(SP_BIT_ALLOC@[j] as nat),
        decreases 14 - i,
    {
        proof {
            lemma_refl_start_bound(i as nat);
        }
        let width: u32 = SP_BIT_ALLOC[i];
        refl[i] = reader.read_bits(width) as usize;
        i += 1;
        assert(refl_start(i as nat) == refl_start((i - 1) as nat) + SP_BIT_ALLOC@[i - 1] as nat);
    }
    assert(refl_start(14) == 52) by {
        reveal_with_fuel(refl_start, 15);
    }
    let mut subframes: Vec<SpSubframe> = Vec::new();
    let mut sf: usize = 0;
    while sf < SP_SUBFRAMES
        invariant
            sf <= 4,
            reader.data() == packet@,
            reader.pos() == subframe_start(sf as nat),
            subframes@.len() == sf,
            forall|j: int|
                0 <= j < sf ==> describes_subframe(#[trigger] subframes@[j], packet@, j as nat)
                    && subframe_in_range(subframes@[j]),
        decreases 4 - sf,
    {
        let s: SpSubframe = unpack_subframe(&mut reader, Ghost(sf as nat));
        subframes.push(s);
        sf += 1;
    }
    let lags: [usize; 4] = decode_combined_pitch(reader.read_bits(24));
    let ghost read = subframes@;
    let mut sf: usize = 0;
    while sf < SP_SUBFRAMES
        invariant
            sf <= 4,
            subframes@.len() == 4,
            read.len() == 4,
            forall|j: int|
                0 <= j < 4 ==> #[trigger] subframes@[j] == (SpSubframe {
                    pitch: if j < sf {
                        lags@[j]
                    } else {
                        read[j].pitch
                    },
                    ..read[j]
                }),
        decreases 4 - sf,
    {
        subframes[sf].pitch = lags[sf];
        sf += 1;
    }
    proof {
        assert forall|j: int| 0 <= j < 4 implies {
            let s = #[trigger] subframes@[j];
            &&& describes_subframe(s, packet@, j as nat)
            &&& subframe_in_range(s)
            &&& s.pitch == lag(bitstream::field(packet@, 304, 24), j)
            &&& 36 <= s.pitch <= 187
        } by {
            assert(describes_subframe(read[j], packet@, j as nat));
            assert(subframes@[j].pulses == read[j].pulses);
            assert(subframes@[j].positions == read[j].positions);
            assert(lags@[j] == lag(bitstream::field(packet@, 304, 24), j));
        }
    }
    SpFrame { refl, subframes }
}

/// Where the 258 kept excitation samples hold the one that sample `i` of a subframe
/// repeats: one lag back, or more where the lag is shorter than the subframe.
pub open spec fn source_of(pitch: int, i: int) -> int {
    258 - pitch + i % pitch
}

/// The kept excitation sample that sample `i` of a subframe repeats: one lag back, or
/// more where the lag is shorter than the subframe.
pub fn adaptive_source(pitch: usize, i: usize) -> (r: usize)
    requires
        36 <= pitch <= 187,
        i < 72,
    ensures
        r == source_of(pitch as int, i as int),
        r < 258,
{
    SP_MEMORY - pitch + i % pitch
}

} // verus!
