//! DS2 QP frames: what their 448 bits say.
//!
//! 16 reflection indices, then for each of 4 subframes of 64 samples a pitch, its gain, a
//! codebook index for 11 pulse positions, a gain, and the pulse amplitudes.
use crate::bitstream;
use crate::bitstream::BitstreamReader;
use crate::bytes;
use crate::codec::common;
use crate::demux::ds2;
use vstd::arithmetic::power2::*;
use vstd::prelude::*;

verus! {

/// Reflection coefficients per frame.
pub const QP_COEFFS: usize = 16;

/// Subframes per frame.
pub const QP_SUBFRAMES: usize = 4;

/// Samples per subframe.
pub const QP_SUBFRAME_SIZE: usize = 64;

/// Pulses per subframe.
pub const QP_PULSES: usize = 11;

/// The shortest pitch lag.
pub const QP_MIN_PITCH: usize = 45;

/// Samples of excitation that are kept for the pitch.
pub const QP_MEMORY: usize = 364;

/// The bits of each reflection index.
pub const REFL_BIT_ALLOC: [u32; 16] = [7, 7, 6, 6, 5, 5, 5, 5, 5, 4, 4, 4, 4, 3, 3, 3];

/// Where reflection index `i` starts in a frame.
pub open spec fn refl_start(i: nat) -> nat
    decreases i,
{
    if i == 0 {
        0
    } else {
        refl_start((i - 1) as nat) + REFL_BIT_ALLOC@[i - 1] as nat
    }
}

/// Where a subframe starts in a frame.
pub open spec fn subframe_start(sf: nat) -> nat {
    76 + 93 * sf
}

/// Reflection index `i`.
pub open spec fn refl_index(frame: Seq<u8>, i: nat) -> nat {
    bitstream::field(frame, refl_start(i), REFL_BIT_ALLOC@[i as int] as nat)
}

/// The codebook index of a subframe.
pub open spec fn codebook_index(frame: Seq<u8>, sf: nat) -> nat {
    bitstream::field(frame, subframe_start(sf) + 14, 40)
}

/// The parameters of one subframe.
pub struct QpSubframe {
    /// The pitch lag in samples.
    pub pitch: usize,
    /// Index into the pitch gains.
    pub pitch_gain: usize,
    /// Index into the excitation gains.
    pub gain: usize,
    /// Indices into the pulse amplitudes.
    pub pulses: [usize; 11],
    /// The positions of the pulses.
    pub positions: Vec<usize>,
}

/// The parameters of one frame.
pub struct QpFrame {
    /// Indices into the codebooks of the reflection coefficients.
    pub refl: [usize; 16],
    /// The subframes in order.
    pub subframes: Vec<QpSubframe>,
}

/// The subframe holds what the frame says of it.
pub open spec fn describes_subframe(s: QpSubframe, frame: Seq<u8>, sf: nat) -> bool {
    let start = subframe_start(sf);
    let places = common::positions(codebook_index(frame, sf), 63, 11);
    &&& s.pitch == 45 + bitstream::field(frame, start, 8)
    &&& s.pitch_gain == bitstream::field(frame, start + 8, 6)
    &&& s.gain == bitstream::field(frame, start + 54, 6)
    &&& forall|k: int|
        0 <= k < 11 ==> #[trigger] s.pulses@[k] == bitstream::field(
            frame,
            (start + 60 + 3 * k) as nat,
            3,
        )
    &&& s.positions@.len() == 11
    &&& forall|k: int| 0 <= k < 11 ==> #[trigger] s.positions@[k] == places[k]
}

/// The frame holds what its 448 bits say.
pub open spec fn describes(f: QpFrame, frame: Seq<u8>) -> bool {
    &&& forall|i: int| 0 <= i < 16 ==> #[trigger] f.refl@[i] == refl_index(frame, i as nat)
    &&& f.subframes@.len() == 4
    &&& forall|sf: int|
        0 <= sf < 4 ==> describes_subframe(#[trigger] f.subframes@[sf], frame, sf as nat)
}

/// The parameters are in the ranges of their tables.
pub open spec fn in_range(f: QpFrame) -> bool {
    &&& forall|i: int| 0 <= i < 16 ==> #[trigger] f.refl@[i] < pow2(REFL_BIT_ALLOC@[i] as nat)
    &&& forall|sf: int|
        0 <= sf < f.subframes@.len() ==> {
            let s = #[trigger] f.subframes@[sf];
            &&& 45 <= s.pitch <= 300
            &&& s.pitch_gain < 64
            &&& s.gain < 64
            &&& forall|k: int| 0 <= k < 11 ==> #[trigger] s.pulses@[k] < 8
            &&& s.positions@.len() == 11
            &&& forall|k: int| 0 <= k < 11 ==> #[trigger] s.positions@[k] < 64
        }
}

proof fn lemma_refl_start()
    ensures
        refl_start(16) == 76,
        forall|i: nat| i <= 16 ==> #[trigger] refl_start(i) <= 7 * i,
        forall|i: int| 0 <= i < 16 ==> 3 <= #[trigger] REFL_BIT_ALLOC@[i] <= 7,
{
    reveal_with_fuel(refl_start, 17);
    assert forall|i: nat| i <= 16 implies #[trigger] refl_start(i) <= 7 * i by {
        lemma_refl_start_bound(i);
    }
}

proof fn lemma_refl_start_bound(i: nat)
    requires
        i <= 16,
    ensures
        refl_start(i) <= 7 * i,
    decreases i,
{
    if i > 0 {
        lemma_refl_start_bound((i - 1) as nat);
    }
}

fn unpack_subframe(reader: &mut BitstreamReader, Ghost(sf): Ghost<nat>) -> (s: QpSubframe)
    requires
        sf < 4,
        old(reader).pos() == subframe_start(sf),
    ensures
        final(reader).data() == old(reader).data(),
        final(reader).pos() == subframe_start(sf + 1),
        describes_subframe(s, old(reader).data(), sf),
        45 <= s.pitch <= 300,
        s.pitch_gain < 64,
        s.gain < 64,
        forall|k: int| 0 <= k < 11 ==> #[trigger] s.pulses@[k] < 8,
        forall|k: int| 0 <= k < 11 ==> #[trigger] s.positions@[k] < 64,
{
    proof {
        lemma2_to64();
    }
    let ghost data = reader.data();
    let pitch: usize = reader.read_bits(8) as usize + QP_MIN_PITCH;
    let pitch_gain: usize = reader.read_bits(6) as usize;
    let index: u64 = reader.read_bits_u64(40);
    let gain: usize = reader.read_bits(6) as usize;
    let mut pulses: [usize; 11] = [0usize; 11];
    let mut k: usize = 0;
    while k < QP_PULSES
        invariant
            k <= 11,
            sf < 4,
            pow2(3) == 8,
            reader.data() == data,
            reader.pos() == subframe_start(sf) + 60 + 3 * k,
            forall|j: int|
                0 <= j < k ==> #[trigger] pulses@[j] == bitstream::field(
                    data,
                    (subframe_start(sf) + 60 + 3 * j) as nat,
                    3,
                ) && pulses@[j] < 8,
        decreases 11 - k,
    {
        pulses[k] = reader.read_bits(3) as usize;
        k += 1;
    }
    let positions: Vec<usize> = common::decode_combinatorial_index(
        index,
        QP_SUBFRAME_SIZE,
        QP_PULSES,
    );
    proof {
        common::lemma_positions_bound(index as nat, 63, 11);
    }
    QpSubframe { pitch, pitch_gain, gain, pulses, positions }
}

/// Reads the parameters of a frame of 56 bytes. Missing words read as zero.
pub fn unpack_frame(frame: &[u8]) -> (r: QpFrame)
    ensures
        in_range(r),
        describes(r, frame@),
{
    let mut reader: BitstreamReader = BitstreamReader::new(frame);
    let mut refl: [usize; 16] = [0usize; 16];
    let mut i: usize = 0;
    proof {
        lemma_refl_start();
    }
    while i < QP_COEFFS
        invariant
            i <= 16,
            reader.data() == frame@,
            reader.pos() == refl_start(i as nat),
            forall|i: nat| i <= 16 ==> #[trigger] refl_start(i) <= 7 * i,
            forall|i: int| 0 <= i < 16 ==> 3 <= #[trigger] REFL_BIT_ALLOC@[i] <= 7,
            forall|j: int|
                0 <= j < i ==> #[trigger] refl@[j] == refl_index(frame@, j as nat) && refl@[j]
                    < pow2(REFL_BIT_ALLOC@[j] as nat),
        decreases 16 - i,
    {
        assert(refl_start(i as nat) <= 7 * i);
        let width: u32 = REFL_BIT_ALLOC[i];
        refl[i] = reader.read_bits(width) as usize;
        i += 1;
        assert(refl_start(i as nat) == refl_start((i - 1) as nat) + REFL_BIT_ALLOC@[i - 1] as nat);
    }
    let mut subframes: Vec<QpSubframe> = Vec::new();
    let mut sf: usize = 0;
    while sf < QP_SUBFRAMES
        invariant
            sf <= 4,
            reader.data() == frame@,
            reader.pos() == subframe_start(sf as nat),
            subframes@.len() == sf,
            forall|j: int|
                0 <= j < sf ==> describes_subframe(#[trigger] subframes@[j], frame@, j as nat),
            forall|j: int|
                0 <= j < sf ==> {
                    let s = #[trigger] subframes@[j];
                    &&& 45 <= s.pitch <= 300
                    &&& s.pitch_gain < 64
                    &&& s.gain < 64
                    &&& forall|k: int| 0 <= k < 11 ==> #[trigger] s.pulses@[k] < 8
                    &&& s.positions@.len() == 11
                    &&& forall|k: int| 0 <= k < 11 ==> #[trigger] s.positions@[k] < 64
                },
        decreases 4 - sf,
    {
        let s: QpSubframe = unpack_subframe(&mut reader, Ghost(sf as nat));
        subframes.push(s);
        sf += 1;
    }
    QpFrame { refl, subframes }
}

/// Where the 364 kept excitation samples hold the one that sample `i` of a subframe
/// repeats: one lag back, or more where the lag is shorter than the subframe.
pub open spec fn source_of(pitch: int, i: int) -> int {
    364 - pitch + i % pitch
}

/// The kept excitation sample that sample `i` of a subframe repeats: one lag back, or
/// more where the lag is shorter than the subframe.
pub fn adaptive_source(pitch: usize, i: usize) -> (r: usize)
    requires
        45 <= pitch <= 300,
        i < 64,
    ensures
        r == source_of(pitch as int, i as int),
        r < 364,
{
    proof {
        if i < pitch {
            vstd::arithmetic::div_mod::lemma_small_mod(i as nat, pitch as nat);
        }
    }
    QP_MEMORY - pitch + if pitch < QP_SUBFRAME_SIZE {
        i % pitch
    } else {
        i
    }
}

/// Byte `j` of frame `i` of a stream. A word that is not wholly inside reads as zero.
pub open spec fn repacked_byte(stream: Seq<u8>, i: int, j: int) -> u8 {
    let at = 56 * i + j;
    if at - at % 2 + 1 < stream.len() {
        stream[at]
    } else {
        0
    }
}

/// Frame `i` of a stream.
pub open spec fn repacked(stream: Seq<u8>, i: int) -> Seq<u8> {
    Seq::new(56, |j: int| repacked_byte(stream, i, j))
}

/// Cuts a stream into frames of 56 bytes.
pub fn split_frames(stream: &[u8], total_frames: usize) -> (frames: Vec<Vec<u8>>)
    requires
        56 * total_frames <= usize::MAX,
    ensures
        bytes::contents(frames@) == Seq::new(
            total_frames as nat,
            |i: int| repacked(stream@, i),
        ),
{
    let mut frames: Vec<Vec<u8>> = Vec::new();
    let mut i: usize = 0;
    while i < total_frames
        invariant
            i <= total_frames,
            56 * total_frames <= usize::MAX,
            frames@.len() == i,
            forall|k: int| 0 <= k < i ==> (#[trigger] frames@[k])@ == repacked(stream@, k),
        decreases total_frames - i,
    {
        let mut frame: Vec<u8> = Vec::new();
        let mut j: usize = 0;
        while j < 56
            invariant
                j <= 56,
                i < total_frames,
                56 * total_frames <= usize::MAX,
                frame@.len() == j,
                forall|k: int| 0 <= k < j ==> #[trigger] frame@[k] == repacked_byte(
                    stream@,
                    i as int,
                    k,
                ),
            decreases 56 - j,
        {
            assert(56 * i + 56 <= 56 * total_frames);
            let at: usize = 56 * i + j;
            let byte: u8 = if stream.len() > 0 && at - at % 2 < stream.len() - 1 {
                stream[at]
            } else {
                0
            };
            frame.push(byte);
            j += 1;
        }
        assert(frame@ =~= repacked(stream@, i as int));
        frames.push(frame);
        i += 1;
    }
    assert(bytes::contents(frames@) =~= Seq::new(
        total_frames as nat,
        |i: int| repacked(stream@, i),
    ));
    frames
}

/// The frames of a stream of whole words are those that the demuxer cuts.
pub proof fn law_frames_are_the_demuxed_ones(stream: Seq<u8>, total: nat)
    requires
        stream.len() % 2 == 0,
    ensures
        Seq::new(total, |i: int| repacked(stream, i)) == ds2::qp_frames(
            stream,
            total,
        ),
{
    assert forall|i: int| 0 <= i < total implies repacked(stream, i)
        == #[trigger] ds2::qp_frame(stream, i) by {
        assert(repacked(stream, i) =~= ds2::qp_frame(stream, i));
    }
    assert(Seq::new(total, |i: int| repacked(stream, i)) =~= ds2::qp_frames(
        stream,
        total,
    ));
}

} // verus!
