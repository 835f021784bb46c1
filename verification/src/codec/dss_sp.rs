//! DSS SP decoder in Q15 integer arithmetic.
//!
//! A frame of 328 bits holds 14 reflection coefficients, four subframes and a pitch
//! field. Each subframe excites a cascade of filters with a pitch contribution and
//! seven pulses; noise modulation follows, and a sinc filter turns the 288 samples at
//! 12000 Hz into 264 samples at 11025 Hz.
use crate::bitstream;
use crate::bitstream::BitstreamReader;
use crate::codec::common;
use crate::codec::pulses;
use crate::codec::pulses::PulseMode;
use crate::codec::q15;
use crate::codec::q15::SUBFRAME_SIZE;
use crate::tables::dss_sp::{
    ADAPTIVE_GAIN, BINARY_DECREASING, FILTER_CB, FIXED_CB_GAIN, PULSE_VAL, SINC, UNC_DECREASING,
};
use vstd::arithmetic::power2::*;
use vstd::prelude::*;

verus! {

/// Subframes per frame.
pub const SUBFRAMES: usize = 4;

/// Samples per decoded frame.
pub const OUTPUT_SAMPLES: usize = 264;

// ---------------------------------------------------------------- frame layout

/// Bit offset of reflection coefficient index `i`.
pub open spec fn filter_bit(i: int) -> nat {
    if i < 2 {
        (5 * i) as nat
    } else if i < 8 {
        (10 + 4 * (i - 2)) as nat
    } else {
        (34 + 3 * (i - 8)) as nat
    }
}

/// Width of reflection coefficient index `i`.
pub open spec fn filter_width(i: int) -> nat {
    if i < 2 {
        5
    } else if i < 8 {
        4
    } else {
        3
    }
}

/// Reflection coefficient `i` of a packet.
pub open spec fn reflection(pkt: Seq<u8>, i: int) -> int {
    FILTER_CB@[i]@[bitstream::field(pkt, filter_bit(i), filter_width(i)) as int] as int
}

/// The 14 reflection coefficients of a packet.
pub open spec fn reflections(pkt: Seq<u8>) -> Seq<int> {
    Seq::new(14, |i: int| reflection(pkt, i))
}

/// Bit offset of subframe `j`.
pub open spec fn subframe_bit(j: int) -> nat {
    (52 + 63 * j) as nat
}

/// The combinatorial pulse index of subframe `j`.
pub open spec fn combined_pulses(pkt: Seq<u8>, j: int) -> nat {
    bitstream::field(pkt, subframe_bit(j) + 5, 31)
}

/// The 24-bit pitch field.
pub open spec fn combined_pitch(pkt: Seq<u8>) -> nat {
    bitstream::field(pkt, 304, 24)
}

/// The difference code of subframe `j` in a pitch field.
pub open spec fn pitch_delta(c: nat, j: int) -> nat {
    if j == 1 {
        (c / 151) % 48
    } else if j == 2 {
        (c / 151 / 48) % 48
    } else if c / 151 / 48 / 48 > 47 {
        47
    } else {
        c / 151 / 48 / 48
    }
}

/// The pitch lag of subframe `j`.
pub open spec fn pitch_lag(c: nat, j: int) -> nat
    decreases j,
{
    if j <= 0 {
        c % 151 + 36
    } else {
        pitch_delta(c, j) + common::pitch_base(pitch_lag(c, j - 1))
    }
}

/// Every pitch lag lies between 36 and 186.
pub proof fn law_pitch_lags_stay_in_range(c: nat, j: int)
    ensures
        36 <= pitch_lag(c, j) <= 186,
    decreases j,
{
    if j > 0 {
        law_pitch_lags_stay_in_range(c, j - 1);
    }
}

/// The first packet of a stream says whether it is a combinatorial stream.
pub open spec fn is_comb_stream(pkt: Seq<u8>) -> bool {
    pkt[0] & 0x80 != 0 && pkt[0] & 1 != 0
}

/// The stream flag after a packet.
pub open spec fn comb_after(s: SpState, pkt: Seq<u8>) -> bool {
    if s.frames == 0 {
        is_comb_stream(pkt)
    } else {
        s.comb_stream
    }
}

/// A packet is repacked unless its stream is combinatorial and bit 7 of its second
/// byte is clear.
pub open spec fn is_repacked(comb: bool, pkt: Seq<u8>) -> bool {
    comb ==> (pkt[1] >> 7) & 1 != 0
}

/// The pulse mode before subframe `j`.
pub open spec fn mode_before(pkt: Seq<u8>, repack: bool, mode: PulseMode, j: int) -> PulseMode
    decreases j,
{
    if j <= 0 {
        mode
    } else {
        pulses::routed(
            combined_pulses(pkt, j - 1),
            repack,
            mode_before(pkt, repack, mode, j - 1),
        ).1
    }
}

/// What drives one subframe.
pub struct Drive {
    /// Pitch lag.
    pub lag: nat,
    /// Gain of the pitch contribution (Q11).
    pub gain: int,
    /// Pulse positions.
    pub at: Seq<nat>,
    /// Pulse heights.
    pub heights: Seq<int>,
}

/// The height of pulse `i` of subframe `j`.
pub open spec fn pulse_height(pkt: Seq<u8>, j: int, i: int) -> int {
    let gain = FIXED_CB_GAIN@[bitstream::field(pkt, subframe_bit(j) + 36, 6) as int] as int;
    let amp = PULSE_VAL@[bitstream::field(
        pkt,
        (subframe_bit(j) + 42 + 3 * i) as nat,
        3,
    ) as int] as int;
    (gain * amp + 0x4000) / 32768
}

/// The drive of subframe `j` of a packet.
pub open spec fn drive(pkt: Seq<u8>, repack: bool, mode: PulseMode, j: int) -> Drive {
    Drive {
        lag: pitch_lag(combined_pitch(pkt), j),
        gain: ADAPTIVE_GAIN@[bitstream::field(pkt, subframe_bit(j), 5) as int] as int,
        at: pulses::routed(
            combined_pulses(pkt, j),
            repack,
            mode_before(pkt, repack, mode, j),
        ).0,
        heights: Seq::new(7, |i: int| pulse_height(pkt, j, i)),
    }
}

// ---------------------------------------------------------------- coefficients

/// Coefficient `i` before clipping, in the step that adds reflection `k` as
/// coefficient `a + 1`.
pub open spec fn levinson_raw(f: Seq<int>, a: int, k: int, i: int) -> int {
    q15::formula_of(f[i], k, f[a + 1 - i])
}

/// One step of the recursion from reflection to filter coefficients.
pub open spec fn levinson_step(f: Seq<int>, a: int, k: int, d: int) -> Seq<int> {
    Seq::new(
        15,
        |i: int|
            if i == a + 1 {
                k / d
            } else if 1 <= i <= a {
                q15::clip16_of(levinson_raw(f, a, k, i))
            } else {
                f[i]
            },
    )
}

/// The filter coefficients after `n` reflections; `one` stands for unity.
pub open spec fn levinson(refl: Seq<int>, one: int, d: int, n: nat) -> Seq<int>
    decreases n,
{
    if n == 0 {
        Seq::new(
            15,
            |i: int|
                if i == 0 {
                    one
                } else {
                    0
                },
        )
    } else {
        levinson_step(levinson(refl, one, d, (n - 1) as nat), n - 1, refl[n - 1], d)
    }
}

/// A value outside the 16-bit range.
pub open spec fn overflows(x: int) -> bool {
    x < -32768 || x > 32767
}

/// Some coefficient leaves the 16-bit range in step `a`.
pub open spec fn step_overflows(f: Seq<int>, a: int, k: int) -> bool {
    exists|i: int| 1 <= i <= a && overflows(#[trigger] levinson_raw(f, a, k, i))
}

/// Some coefficient leaves the 16-bit range in one of the first `n` steps.
pub open spec fn levinson_overflows(refl: Seq<int>, one: int, d: int, n: nat) -> bool
    decreases n,
{
    n > 0 && (levinson_overflows(refl, one, d, (n - 1) as nat) || step_overflows(
        levinson(refl, one, d, (n - 1) as nat),
        n - 1,
        refl[n - 1],
    ))
}

/// The full precision does not do for the coefficients of a frame.
pub open spec fn halved(refl: Seq<int>) -> bool {
    levinson_overflows(refl, 0x2000, 4, 14)
}

/// The filter of a frame: at half precision if the full one overflows.
pub open spec fn frame_filter(refl: Seq<int>) -> Seq<int> {
    if halved(refl) {
        levinson(refl, 0x1000, 8, 14)
    } else {
        levinson(refl, 0x2000, 4, 14)
    }
}

// ---------------------------------------------------------------- excitation

/// The pitch contribution: the history repeated at the pitch lag, times the gain.
pub open spec fn adaptive(history: Seq<int>, lag: nat, gain: int) -> Seq<int> {
    Seq::new(72, |i: int| q15::clip_sinc_pcm_of((gain * history[lag - i % (lag as int)]) / 2048))
}

/// The excitation with the first `n` pulses added.
pub open spec fn with_pulses(x: Seq<int>, at: Seq<nat>, heights: Seq<int>, n: int) -> Seq<int>
    decreases n,
{
    if n <= 0 {
        x
    } else {
        let y = with_pulses(x, at, heights, n - 1);
        let p = at[n - 1] as int;
        y.update(p, y[p] + heights[n - 1])
    }
}

/// The history with a new excitation in front, latest sample at entry 1.
pub open spec fn history_after(history: Seq<int>, x: Seq<int>) -> Seq<int> {
    Seq::new(
        187,
        |i: int|
            if i == 0 {
                history[0]
            } else if i <= 72 {
                x[72 - i]
            } else {
                history[i - 72]
            },
    )
}

// ---------------------------------------------------------------- synthesis

/// The filter memories that pass from one subframe to the next.
pub struct SynthState {
    /// Excitation history.
    pub history: Seq<int>,
    /// Memory of the first recursive filter.
    pub err2: Seq<int>,
    /// Memory of the moving-average filter.
    pub audio: Seq<int>,
    /// Memory of the second recursive filter.
    pub err1: Seq<int>,
    /// Last value of the noise envelope.
    pub noise: int,
}

/// The sum of the magnitudes of the first `n` samples.
pub open spec fn abs_sum(x: Seq<int>, n: int) -> int
    decreases n,
{
    if n <= 0 {
        0
    } else {
        abs_sum(x, n - 1) + q15::magnitude(x[n - 1])
    }
}

/// One, or-ed with the magnitudes of the first `n` samples.
pub open spec fn abs_or(x: Seq<int>, n: int) -> u32
    decreases n,
{
    if n <= 0 {
        1
    } else {
        abs_or(x, n - 1) | (q15::magnitude(x[n - 1]) as u32)
    }
}

/// How often a number must be doubled to exceed `0x4000`.
pub open spec fn doublings(v: nat) -> nat
    decreases 0x8001 - v,
{
    if v == 0 || v > 0x4000 {
        0
    } else {
        doublings(2 * v) + 1
    }
}

/// The number of bits by which a subframe is scaled up.
pub open spec fn headroom(x: Seq<int>) -> int {
    doublings(abs_or(x, 72) as nat) as int
}

/// A subframe through the two weighted filters, scaled up by its headroom.
pub open spec fn filtered(x: Seq<int>, f: Seq<int>, d: int, audio: Seq<int>, err1: Seq<int>) -> Seq<
    int,
> {
    let nb = headroom(x);
    q15::all_pole(
        q15::weighted(f, UNC_DECREASING@),
        d,
        q15::scaled(err1, nb),
        q15::all_zero(
            q15::weighted(f, BINARY_DECREASING@),
            d,
            q15::scaled(audio, nb),
            q15::scaled(x, nb - 3),
        ),
        72,
    )
}

/// The spectral tilt: half of the first reflection, if that is negative.
pub open spec fn tilt_of(refl0: int) -> int {
    if refl0 / 2 >= 0 {
        0
    } else {
        refl0 / 2
    }
}

/// Each sample with the tilt times the sample before it.
pub open spec fn tilted(z: Seq<int>, tilt: int, before: int) -> Seq<int> {
    Seq::new(
        72,
        |i: int|
            q15::clip_sinc_pcm_of(
                q15::formula_of(
                    z[i],
                    tilt,
                    if i == 0 {
                        before
                    } else {
                        z[i - 1]
                    },
                ),
            ),
    )
}

/// The ratio of two energies (Q11); the second counts as at least 0x40.
pub open spec fn energy_ratio(vsum_1: int, vsum_2: int) -> int {
    (vsum_1 * 2048) / (if vsum_2 < 0x40 {
        0x40
    } else {
        vsum_2
    })
}

/// The first `n` values of the noise envelope.
pub open spec fn envelope(bias: int, start: int, n: nat) -> Seq<int>
    decreases n,
{
    if n == 0 {
        Seq::empty()
    } else {
        let e = envelope(bias, start, (n - 1) as nat);
        let prev = if n == 1 {
            start
        } else {
            e[n - 2]
        };
        e.push(q15::clip_sinc_pcm_of((bias + 32358 * prev) / 32768))
    }
}

/// The clip of the output: it differs for repacked packets.
pub open spec fn output_clip(repack: bool, x: int) -> int {
    if repack {
        q15::clip_sinc_pcm_of(x)
    } else {
        q15::clip16_of(x)
    }
}

/// The subframe before noise modulation, scaled down again.
pub open spec fn modulated_input(
    x: Seq<int>,
    f: Seq<int>,
    d: int,
    refl0: int,
    audio: Seq<int>,
    err1: Seq<int>,
) -> Seq<int> {
    let nb = headroom(x);
    q15::scaled(
        tilted(
            filtered(x, f, d, audio, err1),
            tilt_of(refl0),
            q15::scaled(err1, nb)[1],
        ),
        -nb,
    )
}

/// The noise envelope of a subframe.
pub open spec fn subframe_envelope(x: Seq<int>, w: Seq<int>, noise: int) -> Seq<int> {
    let sum = abs_sum(x, 72);
    let vsum_1 = if sum > 0xFFFFF {
        0xFFFFF
    } else {
        sum
    };
    let t = energy_ratio(vsum_1, abs_sum(w, 72));
    envelope(((409 * t) / 32768) * 32768, noise, 72)
}

/// The output of a subframe.
pub open spec fn subframe_output(w: Seq<int>, e: Seq<int>, repack: bool) -> Seq<int> {
    Seq::new(72, |i: int| output_clip(repack, (w[i] * e[i]) / 2048))
}

/// One subframe: the filter memories afterwards and the 72 samples.
#[verifier::opaque]
pub open spec fn subframe(
    s: SynthState,
    f: Seq<int>,
    d: int,
    refl0: int,
    repack: bool,
    dr: Drive,
) -> (SynthState, Seq<int>) {
    let exc = with_pulses(adaptive(s.history, dr.lag, dr.gain), dr.at, dr.heights, 7);
    let x = q15::all_pole(f, d, s.err2, exc, 72);
    let nb = headroom(x);
    let w = modulated_input(x, f, d, refl0, s.audio, s.err1);
    let e = subframe_envelope(x, w, s.noise);
    (
        SynthState {
            history: history_after(s.history, exc),
            err2: q15::memory(x, s.err2),
            audio: q15::scaled(q15::inputs_after(q15::scaled(x, nb - 3)), -nb),
            err1: q15::scaled(
                q15::memory(filtered(x, f, d, s.audio, s.err1), q15::scaled(s.err1, nb)),
                -nb,
            ),
            noise: e[71],
        },
        subframe_output(w, e, repack),
    )
}

/// The first `n` subframes of a packet: the memories afterwards and all samples.
pub open spec fn subframes(
    s: SynthState,
    pkt: Seq<u8>,
    repack: bool,
    mode: PulseMode,
    n: nat,
) -> (SynthState, Seq<int>)
    decreases n,
{
    if n == 0 {
        (s, Seq::empty())
    } else {
        let before = subframes(s, pkt, repack, mode, (n - 1) as nat);
        let refl = reflections(pkt);
        let now = subframe(
            before.0,
            frame_filter(refl),
            q15::divisor(halved(refl)),
            refl[0],
            repack,
            drive(pkt, repack, mode, n - 1),
        );
        (now.0, before.1 + now.1)
    }
}

// ---------------------------------------------------------------- resampling

/// The sum of the first `n` taps of output sample `k` of the sinc filter. Sample `k`
/// is interpolated in phase `k % 11` at input `6 + k + k / 11`.
pub open spec fn sinc_sum(x: Seq<int>, k: int, n: int) -> int
    decreases n,
{
    if n <= 0 {
        0
    } else {
        sinc_sum(x, k, n - 1) + x[6 + k + k / 11 - (n - 1)] * SINC@[k % 11 + (n - 1) * 11]
    }
}

/// Output sample `k`.
pub open spec fn resampled_at(x: Seq<int>, repack: bool, k: int) -> int {
    output_clip(repack, sinc_sum(x, k, 6) / 32768)
}

// ---------------------------------------------------------------- the decoder

/// The state of a decoder.
pub struct SpState {
    /// The filter memories.
    pub synth: SynthState,
    /// The last six samples before resampling.
    pub tail: Seq<int>,
    /// The pulse mode.
    pub mode: PulseMode,
    /// The stream flag of the first packet.
    pub comb_stream: bool,
    /// Packets decoded so far.
    pub frames: nat,
}

/// The state of a new decoder.
pub open spec fn initial_state() -> SpState {
    SpState {
        synth: SynthState {
            history: Seq::new(187, |i: int| 0int),
            err2: Seq::new(15, |i: int| 0int),
            audio: Seq::new(15, |i: int| 0int),
            err1: Seq::new(15, |i: int| 0int),
            noise: 0,
        },
        tail: Seq::new(6, |i: int| 0int),
        mode: PulseMode { table_decode: true, table_latch: false },
        comb_stream: false,
        frames: 0,
    }
}

/// The ranges in which the filter memories stay.
pub open spec fn synth_bounded(s: SynthState) -> bool {
    &&& s.history.len() == 187
    &&& s.err2.len() == 15
    &&& s.audio.len() == 15
    &&& s.err1.len() == 15
    &&& q15::within(s.history, 0x4_0000)
    &&& q15::within(s.err2, 32768)
    &&& q15::within(s.audio, 32768)
    &&& q15::within(s.err1, 32768)
    &&& 0 <= s.noise <= 32767
}

/// The ranges in which the state of a decoder stays.
pub open spec fn bounded(s: SpState) -> bool {
    &&& synth_bounded(s.synth)
    &&& s.tail.len() == 6
    &&& q15::within(s.tail, 32768)
}

/// The packet has the bytes that decide how it is routed.
pub open spec fn routable(s: SpState, pkt: Seq<u8>) -> bool {
    &&& s.frames == 0 ==> pkt.len() >= 1
    &&& comb_after(s, pkt) ==> pkt.len() >= 2
}

/// The samples before resampling: the kept tail and the four subframes.
pub open spec fn frame_samples(s: SpState, pkt: Seq<u8>) -> Seq<int> {
    let repack = is_repacked(comb_after(s, pkt), pkt);
    s.tail + subframes(s.synth, pkt, repack, s.mode, 4).1
}

/// The state after a packet.
pub open spec fn state_after(s: SpState, pkt: Seq<u8>) -> SpState {
    let comb = comb_after(s, pkt);
    let repack = is_repacked(comb, pkt);
    SpState {
        synth: subframes(s.synth, pkt, repack, s.mode, 4).0,
        tail: frame_samples(s, pkt).subrange(288, 294),
        mode: mode_before(pkt, repack, s.mode, 4),
        comb_stream: comb,
        frames: s.frames + 1,
    }
}

/// The samples of a packet.
pub open spec fn frame_output(s: SpState, pkt: Seq<u8>) -> Seq<int> {
    let repack = is_repacked(comb_after(s, pkt), pkt);
    Seq::new(264, |k: int| resampled_at(frame_samples(s, pkt), repack, k))
}

// ---------------------------------------------------------------- unpacking

/// The parameters of one subframe.
struct SubframeParams {
    adaptive_gain: usize,
    gain: usize,
    pulse_val: [usize; 7],
    pulse_pos: [usize; 7],
}

/// The parameters of a frame.
struct FrameParams {
    filter_idx: [usize; 14],
    subframes: Vec<SubframeParams>,
    pitch_lag: [usize; 4],
}

/// The parameters of a subframe are those that the packet holds.
spec fn is_subframe_of(
    sf: SubframeParams,
    pkt: Seq<u8>,
    repack: bool,
    mode: PulseMode,
    j: int,
) -> bool {
    &&& sf.adaptive_gain == bitstream::field(pkt, subframe_bit(j), 5)
    &&& sf.adaptive_gain < 32
    &&& sf.gain == bitstream::field(pkt, subframe_bit(j) + 36, 6)
    &&& sf.gain < 64
    &&& forall|i: int|
        0 <= i < 7 ==> #[trigger] sf.pulse_val@[i] == bitstream::field(
            pkt,
            (subframe_bit(j) + 42 + 3 * i) as nat,
            3,
        ) && sf.pulse_val@[i] < 8
    &&& forall|i: int|
        0 <= i < 7 ==> #[trigger] sf.pulse_pos@[i] == drive(pkt, repack, mode, j).at[i]
            && sf.pulse_pos@[i] < 72
}

/// The parameters of a frame are those that the packet holds.
spec fn is_frame_of(p: FrameParams, pkt: Seq<u8>, repack: bool, mode: PulseMode) -> bool {
    &&& forall|i: int|
        0 <= i < 14 ==> #[trigger] p.filter_idx@[i] == bitstream::field(
            pkt,
            filter_bit(i),
            filter_width(i),
        ) && p.filter_idx@[i] < 32
    &&& p.subframes@.len() == 4
    &&& forall|j: int|
        0 <= j < 4 ==> #[trigger] is_subframe_of(p.subframes@[j], pkt, repack, mode, j)
    &&& forall|j: int|
        0 <= j < 4 ==> #[trigger] p.pitch_lag@[j] == pitch_lag(combined_pitch(pkt), j)
}

/// Reads one subframe.
fn unpack_subframe(
    reader: &mut BitstreamReader,
    repack: bool,
    mode: &mut PulseMode,
    Ghost(j): Ghost<int>,
    Ghost(mode0): Ghost<PulseMode>,
) -> (sf: SubframeParams)
    requires
        0 <= j < 4,
        old(reader).pos() == subframe_bit(j),
        *old(mode) == mode_before(old(reader).data(), repack, mode0, j),
    ensures
        final(reader).data() == old(reader).data(),
        final(reader).pos() == subframe_bit(j + 1),
        is_subframe_of(sf, old(reader).data(), repack, mode0, j),
        *final(mode) == mode_before(old(reader).data(), repack, mode0, j + 1),
{
    let ghost pkt = reader.data();
    let adaptive_gain: usize = reader.read_bits(5) as usize;
    let combined: u32 = reader.read_bits(31);
    let gain: usize = reader.read_bits(6) as usize;
    proof {
        lemma2_to64();
    }
    let mut pulse_val: [usize; 7] = [0usize; 7];
    let mut i: usize = 0;
    while i < 7
        invariant
            i <= 7,
            0 <= j < 4,
            pkt == reader.data(),
            reader.pos() == subframe_bit(j) + 42 + 3 * i,
            pow2(3) == 8,
            forall|k: int|
                0 <= k < i ==> #[trigger] pulse_val@[k] == bitstream::field(
                    pkt,
                    (subframe_bit(j) + 42 + 3 * k) as nat,
                    3,
                ) && pulse_val@[k] < 8,
        decreases 7 - i,
    {
        pulse_val[i] = reader.read_bits(3) as usize;
        i += 1;
    }
    let pulse_pos: [usize; 7] = pulses::decode_pulse_positions(combined, repack, mode);
    SubframeParams { adaptive_gain, gain, pulse_val, pulse_pos }
}

/// Reads the parameters of a frame.
fn unpack_coeffs(pkt: &[u8], repack: bool, mode: &mut PulseMode) -> (p: FrameParams)
    ensures
        is_frame_of(p, pkt@, repack, *old(mode)),
        *final(mode) == mode_before(pkt@, repack, *old(mode), 4),
{
    let ghost mode0 = *mode;
    let mut reader = BitstreamReader::new(pkt);
    let mut filter_idx: [usize; 14] = [0usize; 14];
    let mut i: usize = 0;
    proof {
        lemma2_to64();
    }
    while i < 14
        invariant
            i <= 14,
            reader.data() == pkt@,
            i < 14 ==> reader.pos() == filter_bit(i as int),
            i == 14 ==> reader.pos() == 52,
            pow2(3) == 8,
            pow2(4) == 16,
            pow2(5) == 32,
            forall|k: int|
                0 <= k < i ==> #[trigger] filter_idx@[k] == bitstream::field(
                    pkt@,
                    filter_bit(k),
                    filter_width(k),
                ) && filter_idx@[k] < 32,
        decreases 14 - i,
    {
        let width: u32 = if i < 2 {
            5
        } else if i < 8 {
            4
        } else {
            3
        };
        filter_idx[i] = reader.read_bits(width) as usize;
        i += 1;
    }

    let mut subframes: Vec<SubframeParams> = Vec::new();
    let mut j: usize = 0;
    while j < SUBFRAMES
        invariant
            j <= 4,
            reader.data() == pkt@,
            reader.pos() == subframe_bit(j as int),
            *mode == mode_before(pkt@, repack, mode0, j as int),
            subframes@.len() == j,
            forall|k: int|
                0 <= k < j ==> #[trigger] is_subframe_of(subframes@[k], pkt@, repack, mode0, k),
        decreases 4 - j,
    {
        let sf = unpack_subframe(&mut reader, repack, mode, Ghost(j as int), Ghost(mode0));
        subframes.push(sf);
        j += 1;
    }

    let pitch: u32 = reader.read_bits(24);
    let ghost c = combined_pitch(pkt@);
    let mut lag: [usize; 4] = [0usize; 4];
    lag[0] = (pitch % 151 + 36) as usize;
    let mut cp: u32 = pitch / 151;
    lag[1] = (cp % 48) as usize;
    cp = cp / 48;
    lag[2] = (cp % 48) as usize;
    cp = cp / 48;
    lag[3] = if cp > 47 {
        47
    } else {
        cp as usize
    };
    let mut s: usize = 1;
    while s < SUBFRAMES
        invariant
            1 <= s <= 4,
            forall|k: int| 0 <= k < s ==> #[trigger] lag@[k] == pitch_lag(c, k),
            forall|k: int| s <= k < 4 ==> #[trigger] lag@[k] == pitch_delta(c, k),
        decreases 4 - s,
    {
        proof {
            law_pitch_lags_stay_in_range(c, s - 1);
            assert(lag@[s - 1] == pitch_lag(c, s - 1));
            assert(lag@[s as int] == pitch_delta(c, s as int));
            assert(pitch_delta(c, s as int) < 48);
        }
        lag[s] = lag[s] + common::pitch_window_start(lag[s - 1]);
        s += 1;
    }
    FrameParams { filter_idx, subframes, pitch_lag: lag }
}

/// Looks up the reflection coefficients.
fn unpack_filter(filter_idx: &[usize; 14]) -> (lpc: [i64; 14])
    requires
        forall|i: int| 0 <= i < 14 ==> #[trigger] filter_idx@[i] < 32,
    ensures
        forall|i: int|
            0 <= i < 14 ==> #[trigger] lpc@[i] == FILTER_CB@[i]@[filter_idx@[i] as int],
{
    let mut lpc: [i64; 14] = [0i64; 14];
    let mut i: usize = 0;
    while i < 14
        invariant
            i <= 14,
            forall|k: int| 0 <= k < 14 ==> #[trigger] filter_idx@[k] < 32,
            forall|k: int|
                0 <= k < i ==> #[trigger] lpc@[k] == FILTER_CB@[k]@[filter_idx@[k] as int],
        decreases 14 - i,
    {
        lpc[i] = FILTER_CB[i][filter_idx[i]] as i64;
        i += 1;
    }
    lpc
}

// ---------------------------------------------------------------- coefficients

/// Runs the recursion at one precision. Also says whether a coefficient overflowed.
fn levinson_pass(lpc: &[i64; 14], one: i64, shift: u32) -> (r: ([i64; 15], bool))
    requires
        q15::within(q15::ints(lpc@), 32768),
        0 <= one <= 0x2000,
        shift == 2 || shift == 3,
    ensures
        q15::ints(r.0@) == levinson(q15::ints(lpc@), one as int, pow2(shift as nat) as int, 14),
        q15::within(q15::ints(r.0@), 32768),
        r.1 == levinson_overflows(q15::ints(lpc@), one as int, pow2(shift as nat) as int, 14),
{
    let ghost refl = q15::ints(lpc@);
    let ghost d = pow2(shift as nat) as int;
    let mut f: [i64; 15] = [0i64; 15];
    f[0] = one;
    let mut overflow: bool = false;
    let mut a: usize = 0;
    proof {
        lemma2_to64();
        assert(q15::ints(f@) =~= levinson(refl, one as int, d, 0));
    }
    while a < 14
        invariant
            a <= 14,
            refl == q15::ints(lpc@),
            q15::within(refl, 32768),
            d == pow2(shift as nat),
            d == 4 || d == 8,
            shift == 2 || shift == 3,
            q15::ints(f@) == levinson(refl, one as int, d, a as nat),
            q15::within(q15::ints(f@), 32768),
            overflow == levinson_overflows(refl, one as int, d, a as nat),
        decreases 14 - a,
    {
        let ghost fs = q15::ints(f@);
        let k: i64 = lpc[a];
        assert(k == refl[a as int]);
        let mut g: [i64; 15] = f;
        proof {
            q15::lemma_shr(k, shift);
        }
        g[a + 1] = k >> shift;
        let ghost before = overflow;
        let mut i: usize = 1;
        while i <= a
            invariant
                1 <= i <= a + 1,
                a < 14,
                fs == q15::ints(f@),
                k == refl[a as int],
                -32768 <= k <= 32768,
                q15::within(fs, 32768),
                g@[a + 1] == k as int / d,
                d == 4 || d == 8,
                forall|j: int|
                    1 <= j < i ==> #[trigger] g@[j] == q15::clip16_of(
                        levinson_raw(fs, a as int, k as int, j),
                    ),
                forall|j: int|
                    i <= j < 15 && j != a + 1 || j == 0 ==> #[trigger] g@[j] == fs[j],
                overflow == (before || exists|j: int|
                    1 <= j < i && overflows(
                        #[trigger] levinson_raw(fs, a as int, k as int, j),
                    )),
            decreases a + 1 - i,
        {
            assert(f@[i as int] == fs[i as int]);
            assert(f@[a + 1 - i] == fs[a + 1 - i]);
            let raw: i64 = q15::formula(f[i], k, f[a + 1 - i]);
            assert(raw == levinson_raw(fs, a as int, k as int, i as int));
            if raw < -32768 || raw > 32767 {
                overflow = true;
            }
            g[i] = q15::clip16(raw);
            i += 1;
        }
        f = g;
        proof {
            let next = levinson(refl, one as int, d, (a + 1) as nat);
            assert forall|j: int| 0 <= j < 15 implies q15::ints(f@)[j] == next[j] && -32768
                <= next[j] <= 32768 by {
                assert(f@[j] == next[j]);
                assert(-32768 <= fs[j] <= 32768);
            }
            assert(q15::ints(f@) =~= next);
            assert(overflow == (before || step_overflows(fs, a as int, refl[a as int])));
        }
        a += 1;
    }
    (f, overflow)
}

/// Turns reflection coefficients into filter coefficients, at half precision if the
/// full one overflows.
fn convert_coeffs(lpc: &[i64; 14]) -> (r: ([i64; 15], bool))
    requires
        q15::within(q15::ints(lpc@), 32768),
    ensures
        q15::ints(r.0@) == frame_filter(q15::ints(lpc@)),
        q15::within(q15::ints(r.0@), 32768),
        r.1 == halved(q15::ints(lpc@)),
{
    proof {
        lemma2_to64();
    }
    let (full, overflow) = levinson_pass(lpc, 0x2000, 2);
    if overflow {
        let (half, _) = levinson_pass(lpc, 0x1000, 3);
        (half, true)
    } else {
        (full, false)
    }
}

// ---------------------------------------------------------------- excitation

/// Generates the pitch contribution.
fn gen_exc(history: &[i64; 187], lag: usize, gain: i64) -> (v: [i64; SUBFRAME_SIZE])
    requires
        q15::within(q15::ints(history@), 0x4_0000),
        36 <= lag <= 186,
        -32768 <= gain <= 32768,
    ensures
        q15::ints(v@) == adaptive(q15::ints(history@), lag as nat, gain as int),
        q15::within(q15::ints(v@), 32768),
{
    let ghost h = q15::ints(history@);
    let mut v: [i64; SUBFRAME_SIZE] = [0i64; SUBFRAME_SIZE];
    let mut i: usize = 0;
    while i < SUBFRAME_SIZE
        invariant
            i <= 72,
            h == q15::ints(history@),
            q15::within(h, 0x4_0000),
            36 <= lag <= 186,
            -32768 <= gain <= 32768,
            forall|j: int|
                0 <= j < i ==> #[trigger] v@[j] == adaptive(h, lag as nat, gain as int)[j]
                    && -32768 <= v@[j] <= 32768,
        decreases 72 - i,
    {
        let from: usize = lag - i % lag;
        proof {
            assert(history@[from as int] == h[from as int]);
            q15::lemma_mul_within(gain as int, h[from as int], 32768, 0x4_0000);
        }
        let tmp: i64 = gain * history[from];
        proof {
            q15::lemma_shr(tmp, 11);
            lemma2_to64();
        }
        v[i] = q15::clip_sinc_pcm(tmp >> 11);
        i += 1;
    }
    assert(q15::ints(v@) =~= adaptive(h, lag as nat, gain as int));
    v
}

/// Adding a pulse moves a sample by no more than the height.
proof fn lemma_with_pulses(x: Seq<int>, at: Seq<nat>, heights: Seq<int>, n: int)
    requires
        0 <= n <= 7,
        x.len() == 72,
        q15::within(x, 32768),
        at.len() == 7,
        heights.len() == 7,
        forall|i: int| 0 <= i < 7 ==> #[trigger] at[i] < 72,
        q15::within(heights, 32768),
    ensures
        with_pulses(x, at, heights, n).len() == 72,
        q15::within(with_pulses(x, at, heights, n), 32768 + n * 32768),
    decreases n,
{
    if n > 0 {
        lemma_with_pulses(x, at, heights, n - 1);
        let y = with_pulses(x, at, heights, n - 1);
        let z = with_pulses(x, at, heights, n);
        assert(at[n - 1] < 72);
        assert(-32768 <= heights[n - 1] <= 32768);
        assert forall|i: int| 0 <= i < 72 implies -(32768 + n * 32768) <= #[trigger] z[i] <= 32768
            + n * 32768 by {
            assert(-(32768 + (n - 1) * 32768) <= y[i] <= 32768 + (n - 1) * 32768);
        }
    }
}

/// The height of a pulse is in range.
proof fn lemma_pulse_height(pkt: Seq<u8>, j: int, i: int)
    ensures
        -32768 <= pulse_height(pkt, j, i) <= 32768,
{
    let gain = FIXED_CB_GAIN@[bitstream::field(pkt, subframe_bit(j) + 36, 6) as int] as int;
    let amp = PULSE_VAL@[bitstream::field(
        pkt,
        (subframe_bit(j) + 42 + 3 * i) as nat,
        3,
    ) as int] as int;
    q15::lemma_mul_within(gain, amp, 32768, 32768);
}

/// Adds the seven pulses of a subframe.
fn add_pulses(
    v: &mut [i64; SUBFRAME_SIZE],
    sf: &SubframeParams,
    Ghost(dr): Ghost<Drive>,
    Ghost(pkt): Ghost<Seq<u8>>,
    Ghost(repack): Ghost<bool>,
    Ghost(mode): Ghost<PulseMode>,
    Ghost(j): Ghost<int>,
)
    requires
        is_subframe_of(*sf, pkt, repack, mode, j),
        dr == drive(pkt, repack, mode, j),
        0 <= j < 4,
        q15::within(q15::ints(old(v)@), 32768),
    ensures
        q15::ints(final(v)@) == with_pulses(q15::ints(old(v)@), dr.at, dr.heights, 7),
        q15::within(q15::ints(final(v)@), 0x4_0000),
{
    let ghost x = q15::ints(v@);
    proof {
        pulses::lemma_routed_bound(
            combined_pulses(pkt, j),
            repack,
            mode_before(pkt, repack, mode, j),
        );
        assert forall|i: int| 0 <= i < 7 implies -32768 <= #[trigger] dr.heights[i] <= 32768 by {
            lemma_pulse_height(pkt, j, i);
        }
    }
    let mut i: usize = 0;
    while i < 7
        invariant
            i <= 7,
            x.len() == 72,
            q15::within(x, 32768),
            is_subframe_of(*sf, pkt, repack, mode, j),
            dr == drive(pkt, repack, mode, j),
            dr.at.len() == 7,
            dr.heights.len() == 7,
            forall|k: int| 0 <= k < 7 ==> #[trigger] dr.at[k] < 72,
            q15::within(dr.heights, 32768),
            q15::ints(v@) == with_pulses(x, dr.at, dr.heights, i as int),
        decreases 7 - i,
    {
        let ghost y = q15::ints(v@);
        proof {
            lemma_with_pulses(x, dr.at, dr.heights, i as int);
            assert(sf.pulse_val@[i as int] < 8);
        }
        let pos: usize = sf.pulse_pos[i];
        assert(pos == dr.at[i as int]);
        let gain: i64 = FIXED_CB_GAIN[sf.gain] as i64;
        let amp: i64 = PULSE_VAL[sf.pulse_val[i]] as i64;
        proof {
            q15::lemma_mul_within(gain as int, amp as int, 32768, 32768);
        }
        let sum: i64 = gain * amp + 0x4000;
        proof {
            q15::lemma_shr(sum, 15);
            lemma2_to64();
        }
        let val: i64 = sum >> 15;
        proof {
            assert(val == pulse_height(pkt, j, i as int));
            assert(dr.heights[i as int] == val);
            assert(v@[pos as int] == y[pos as int]);
        }
        v[pos] = v[pos] + val;
        assert(q15::ints(v@) =~= y.update(pos as int, y[pos as int] + val));
        i += 1;
    }
    proof {
        lemma_with_pulses(x, dr.at, dr.heights, 7);
    }
}

/// Moves an excitation into the history.
fn update_buf(history: &mut [i64; 187], v: &[i64; SUBFRAME_SIZE])
    ensures
        q15::ints(final(history)@) == history_after(q15::ints(old(history)@), q15::ints(v@)),
{
    let ghost h = q15::ints(history@);
    let mut i: usize = 114;
    while i >= 1
        invariant
            i <= 114,
            h == q15::ints(old(history)@),
            forall|j: int|
                0 <= j < 187 ==> #[trigger] history@[j] == (if j > i + 72 {
                    h[j - 72]
                } else {
                    h[j]
                }),
        decreases i,
    {
        history[i + SUBFRAME_SIZE] = history[i];
        i -= 1;
    }
    let mut k: usize = 0;
    while k < SUBFRAME_SIZE
        invariant
            k <= 72,
            h == q15::ints(old(history)@),
            history@[0] == h[0],
            forall|j: int| 72 < j < 187 ==> #[trigger] history@[j] == h[j - 72],
            forall|j: int| 72 - k < j <= 72 ==> #[trigger] history@[j] == v@[72 - j],
        decreases 72 - k,
    {
        history[SUBFRAME_SIZE - k] = v[k];
        k += 1;
    }
    assert(q15::ints(history@) =~= history_after(h, q15::ints(v@)));
}

// ---------------------------------------------------------------- synthesis

/// The sum of the magnitudes of a subframe.
fn vector_abs_sum(v: &[i64; SUBFRAME_SIZE]) -> (r: i64)
    requires
        q15::within(q15::ints(v@), 32768),
    ensures
        r == abs_sum(q15::ints(v@), 72),
        0 <= r <= 72 * 32768,
{
    let ghost x = q15::ints(v@);
    let mut sum: i64 = 0;
    let mut i: usize = 0;
    while i < SUBFRAME_SIZE
        invariant
            i <= 72,
            x == q15::ints(v@),
            q15::within(x, 32768),
            sum == abs_sum(x, i as int),
            0 <= sum <= i * 32768,
        decreases 72 - i,
    {
        assert(v@[i as int] == x[i as int]);
        let m: i64 = if v[i] < 0 {
            -v[i]
        } else {
            v[i]
        };
        sum = sum + m;
        i += 1;
    }
    sum
}

proof fn lemma_doublings(v: nat, j: nat)
    requires
        j <= 14,
        v >= pow2(j),
    ensures
        doublings(v) <= 15 - j,
    decreases 15 - j,
{
    lemma2_to64();
    lemma_pow2_pos(j);
    if v <= 0x4000 {
        if j < 14 {
            lemma_pow2_unfold(j + 1);
            lemma_doublings(2 * v, j + 1);
        } else {
            assert(doublings(0x8000) == 0);
        }
    }
}

/// The number of bits by which a subframe is scaled up.
fn normalize_bits(v: &[i64; SUBFRAME_SIZE]) -> (nb: i32)
    requires
        q15::within(q15::ints(v@), 32768),
    ensures
        nb == headroom(q15::ints(v@)),
        0 <= nb <= 15,
{
    let ghost x = q15::ints(v@);
    let mut val: u32 = 1;
    let mut i: usize = 0;
    while i < SUBFRAME_SIZE
        invariant
            i <= 72,
            x == q15::ints(v@),
            q15::within(x, 32768),
            val == abs_or(x, i as int),
            val >= 1,
        decreases 72 - i,
    {
        assert(v@[i as int] == x[i as int]);
        let m: u32 = (if v[i] < 0 {
            -v[i]
        } else {
            v[i]
        }) as u32;
        assert((val | m) >= val) by (bit_vector);
        val = val | m;
        i += 1;
    }
    let ghost all = val as nat;
    proof {
        lemma2_to64();
        lemma_doublings(all, 0);
    }
    let mut nb: i32 = 0;
    while val <= 0x4000
        invariant
            val >= 1,
            nb >= 0,
            nb + doublings(val as nat) == doublings(all),
            doublings(all) <= 15,
        decreases 0x8001 - val,
    {
        val = val * 2;
        nb += 1;
    }
    nb
}

/// Dividing by more than was multiplied keeps a value in range.
proof fn lemma_rescaled(x: Seq<int>, nb: int)
    requires
        q15::within(x, 32768),
        0 <= nb <= 15,
    ensures
        q15::within(q15::scaled(q15::scaled(x, nb - 3), -nb), 32768),
        q15::within(q15::scaled(x, nb - 3), 0x4000_0000),
{
    lemma2_to64();
    let y = q15::scaled(x, nb - 3);
    q15::lemma_scaled_within(x, nb - 3, 32768);
    if nb < 3 {
        q15::lemma_scaled_within(y, -nb, 32768);
        if nb == 0 {
            assert(q15::scaled(y, 0) =~= y) by {
                assert forall|i: int| 0 <= i < y.len() implies q15::shifted(y[i], 0) == y[i] by {
                    assert(y[i] * 1 == y[i]);
                }
            }
        }
    } else {
        let a = pow2((nb - 3) as nat) as int;
        let b = pow2(nb as nat) as int;
        lemma_pow2_pos((nb - 3) as nat);
        lemma_pow2_adds((nb - 3) as nat, 3);
        if nb < 15 {
            lemma_pow2_strictly_increases(nb as nat, 15);
        }
        assert(b == a * 8);
        assert(a <= 4096);
        assert(32768 * a <= 0x4000_0000);
        let z = q15::scaled(y, -nb);
        assert forall|i: int| 0 <= i < z.len() implies -32768 <= #[trigger] z[i] <= 32768 by {
            let v = x[i];
            assert(y[i] == v * a);
            assert(z[i] == (v * a) / b);
            assert(-32768 <= (v * a) / b <= 32768) by (nonlinear_arith)
                requires
                    -32768 <= v <= 32768,
                    b == a * 8,
                    a > 0,
            ;
        }
    }
}

/// Scaling up by at most 15 bits stays in range.
proof fn lemma_scaled_up(x: Seq<int>, nb: int)
    requires
        q15::within(x, 32768),
        0 <= nb <= 15,
    ensures
        q15::within(q15::scaled(x, nb), 0x4000_0000),
{
    lemma2_to64();
    q15::lemma_scaled_within(x, nb, 32768);
    if nb < 15 {
        lemma_pow2_strictly_increases(nb as nat, 15);
    }
    assert(32768 * pow2(nb as nat) <= 0x4000_0000);
}

/// Scaling down keeps the range.
proof fn lemma_scaled_down(x: Seq<int>, nb: int)
    requires
        q15::within(x, 32768),
        0 <= nb <= 15,
    ensures
        q15::within(q15::scaled(x, -nb), 32768),
{
    lemma2_to64();
    q15::lemma_scaled_within(x, -nb, 32768);
    assert(32768 * 1 == 32768);
}

/// Applies the spectral tilt, in place.
fn tilt(v: &mut [i64; SUBFRAME_SIZE], lf: i64, before: i64)
    requires
        q15::within(q15::ints(old(v)@), 32768),
        -16384 <= lf <= 0,
        -0x4000_0000 <= before <= 0x4000_0000,
    ensures
        q15::ints(final(v)@) == tilted(q15::ints(old(v)@), lf as int, before as int),
        q15::within(q15::ints(final(v)@), 32768),
{
    let ghost z = q15::ints(v@);
    let ghost w = tilted(z, lf as int, before as int);
    let mut i: usize = 71;
    while i >= 1
        invariant
            i <= 71,
            z.len() == 72,
            q15::within(z, 32768),
            w == tilted(z, lf as int, before as int),
            -16384 <= lf <= 0,
            forall|j: int| 0 <= j <= i ==> #[trigger] v@[j] == z[j],
            forall|j: int|
                i < j < 72 ==> #[trigger] v@[j] == w[j] && -32768 <= v@[j] <= 32768,
        decreases i,
    {
        assert(v@[i as int] == z[i as int]);
        assert(v@[i - 1] == z[i - 1]);
        let tmp: i64 = q15::formula(v[i], lf, v[i - 1]);
        v[i] = q15::clip_sinc_pcm(tmp);
        i -= 1;
    }
    assert(v@[0] == z[0]);
    let tmp: i64 = q15::formula(v[0], lf, before);
    v[0] = q15::clip_sinc_pcm(tmp);
    assert(q15::ints(v@) =~= w);
}

proof fn lemma_envelope(bias: int, start: int, n: nat)
    requires
        0 <= bias,
        0 <= start <= 32767,
    ensures
        envelope(bias, start, n).len() == n,
        forall|i: int| 0 <= i < n ==> 0 <= #[trigger] envelope(bias, start, n)[i] <= 32767,
    decreases n,
{
    if n > 0 {
        lemma_envelope(bias, start, (n - 1) as nat);
    }
}

proof fn lemma_abs_sum_positive(x: Seq<int>, n: int)
    ensures
        abs_sum(x, n) >= 0,
    decreases n,
{
    if n > 0 {
        lemma_abs_sum_positive(x, n - 1);
    }
}

/// A noise value in 0..=32767 gives an envelope in 0..=32767: the value that a subframe
/// leaves for the next one stays in that range.
pub proof fn law_noise_stays_in_range(
    s: SynthState,
    f: Seq<int>,
    d: int,
    refl0: int,
    repack: bool,
    dr: Drive,
)
    requires
        0 <= s.noise <= 32767,
    ensures
        0 <= subframe(s, f, d, refl0, repack, dr).0.noise <= 32767,
        forall|x: Seq<int>, w: Seq<int>, i: int|
            0 <= i < 72 ==> 0 <= #[trigger] subframe_envelope(x, w, s.noise)[i] <= 32767,
{
    reveal(subframe);
    assert forall|x: Seq<int>, w: Seq<int>, i: int| 0 <= i < 72 implies 0
        <= #[trigger] subframe_envelope(x, w, s.noise)[i] <= 32767 by {
        lemma_abs_sum_positive(x, 72);
        let sum = abs_sum(x, 72);
        let vsum_1 = if sum > 0xFFFFF {
            0xFFFFF
        } else {
            sum
        };
        let t = energy_ratio(vsum_1, abs_sum(w, 72));
        let v = if abs_sum(w, 72) < 0x40 {
            0x40
        } else {
            abs_sum(w, 72)
        };
        assert((vsum_1 * 2048) / v >= 0) by (nonlinear_arith)
            requires
                vsum_1 >= 0,
                v >= 0x40,
        ;
        lemma_envelope(((409 * t) / 32768) * 32768, s.noise, 72);
    }
    let exc = with_pulses(adaptive(s.history, dr.lag, dr.gain), dr.at, dr.heights, 7);
    let x = q15::all_pole(f, d, s.err2, exc, 72);
    let w = modulated_input(x, f, d, refl0, s.audio, s.err1);
    assert(0 <= subframe_envelope(x, w, s.noise)[71] <= 32767);
}

/// A subframe gives 72 samples, each in the range of 16 bits.
pub proof fn law_subframe_samples_fit_16_bits(
    s: SynthState,
    f: Seq<int>,
    d: int,
    refl0: int,
    repack: bool,
    dr: Drive,
)
    ensures
        ({
            let out = subframe(s, f, d, refl0, repack, dr).1;
            &&& out.len() == 72
            &&& forall|i: int| 0 <= i < 72 ==> -32768 <= #[trigger] out[i] <= 32767
        }),
{
    reveal(subframe);
}

/// The noise envelope of a subframe from the two energies.
fn noise_envelope(vsum_1: i64, vsum_2: i64, start: i64) -> (noise: [i64; SUBFRAME_SIZE])
    requires
        0 <= vsum_1 <= 0xFFFFF,
        0 <= vsum_2 <= 0x1000_0000,
        0 <= start <= 32767,
    ensures
        q15::ints(noise@) == envelope(
            ((409 * energy_ratio(vsum_1 as int, vsum_2 as int)) / 32768) * 32768,
            start as int,
            72,
        ),
        q15::within(q15::ints(noise@), 32767),
        0 <= noise@[71],
{
    let floor: i64 = if vsum_2 < 0x40 {
        0x40
    } else {
        vsum_2
    };
    let q: u64 = (vsum_1 * 2048) as u64 / floor as u64;
    assert(q <= 0xFFFFF * 2048) by (nonlinear_arith)
        requires
            q == (vsum_1 * 2048) as u64 / floor as u64,
            0 <= vsum_1 <= 0xFFFFF,
            floor >= 0x40,
    ;
    let t: i64 = q as i64;
    assert(t == energy_ratio(vsum_1 as int, vsum_2 as int));
    let scaled_t: i64 = 409 * t;
    proof {
        q15::lemma_shr(scaled_t, 15);
        lemma2_to64();
    }
    let bias: i64 = (scaled_t >> 15) * 32768;
    let mut noise: [i64; SUBFRAME_SIZE] = [0i64; SUBFRAME_SIZE];
    let mut prev: i64 = start;
    let mut i: usize = 0;
    while i < SUBFRAME_SIZE
        invariant
            i <= 72,
            0 <= prev <= 32767,
            0 <= bias <= 0x1000_0000_0000,
            0 <= start <= 32767,
            envelope(bias as int, start as int, i as nat).len() == i,
            prev == (if i == 0 {
                start as int
            } else {
                envelope(bias as int, start as int, i as nat)[i - 1]
            }),
            forall|j: int|
                0 <= j < i ==> #[trigger] noise@[j] == envelope(
                    bias as int,
                    start as int,
                    i as nat,
                )[j],
        decreases 72 - i,
    {
        let tmp: i64 = bias + 32358 * prev;
        proof {
            q15::lemma_shr(tmp, 15);
            lemma2_to64();
        }
        prev = q15::clip_sinc_pcm(tmp >> 15);
        noise[i] = prev;
        i += 1;
    }
    proof {
        lemma_envelope(bias as int, start as int, 72);
        assert(q15::ints(noise@) =~= envelope(bias as int, start as int, 72));
        assert(noise@[71] == envelope(bias as int, start as int, 72)[71]);
    }
    noise
}

/// Multiplies a subframe by its noise envelope.
fn modulate(v: &[i64; SUBFRAME_SIZE], noise: &[i64; SUBFRAME_SIZE], repack: bool) -> (out: [i64;
    SUBFRAME_SIZE])
    requires
        q15::within(q15::ints(v@), 32768),
        q15::within(q15::ints(noise@), 32767),
    ensures
        q15::ints(out@) == subframe_output(q15::ints(v@), q15::ints(noise@), repack),
        q15::within(q15::ints(out@), 32768),
{
    let ghost w = q15::ints(v@);
    let ghost e = q15::ints(noise@);
    let mut out: [i64; SUBFRAME_SIZE] = [0i64; SUBFRAME_SIZE];
    let mut i: usize = 0;
    while i < SUBFRAME_SIZE
        invariant
            i <= 72,
            w == q15::ints(v@),
            e == q15::ints(noise@),
            q15::within(w, 32768),
            q15::within(e, 32768),
            forall|j: int|
                0 <= j < i ==> #[trigger] out@[j] == subframe_output(w, e, repack)[j] && -32768
                    <= out@[j] <= 32768,
        decreases 72 - i,
    {
        proof {
            assert(v@[i as int] == w[i as int]);
            assert(noise@[i as int] == e[i as int]);
            q15::lemma_mul_within(w[i as int], e[i as int], 32768, 32768);
        }
        let prod: i64 = v[i] * noise[i];
        proof {
            q15::lemma_shr(prod, 11);
            lemma2_to64();
        }
        let tmp: i64 = prod >> 11;
        out[i] = if repack {
            q15::clip_sinc_pcm(tmp)
        } else {
            q15::clip16(tmp)
        };
        i += 1;
    }
    assert(q15::ints(out@) =~= subframe_output(w, e, repack));
    out
}

/// Filters a subframe with the weighted filters and modulates it with noise. The
/// buffers are scaled up by the headroom of the subframe while the filters run.
fn sf_synthesis(
    v: &mut [i64; SUBFRAME_SIZE],
    filter: &[i64; 15],
    halved: bool,
    lpc0: i64,
    audio: &mut [i64; 15],
    err1: &mut [i64; 15],
    noise_state: &mut i64,
    repack: bool,
) -> (out: [i64; SUBFRAME_SIZE])
    requires
        q15::within(q15::ints(old(v)@), 32768),
        q15::within(q15::ints(filter@), 32768),
        -32768 <= lpc0 <= 32768,
        q15::within(q15::ints(old(audio)@), 32768),
        q15::within(q15::ints(old(err1)@), 32768),
        0 <= *old(noise_state) <= 32767,
    ensures
        ({
            let x = q15::ints(old(v)@);
            let f = q15::ints(filter@);
            let d = q15::divisor(halved);
            let nb = headroom(x);
            let w = modulated_input(
                x,
                f,
                d,
                lpc0 as int,
                q15::ints(old(audio)@),
                q15::ints(old(err1)@),
            );
            let e = subframe_envelope(x, w, *old(noise_state) as int);
            &&& q15::ints(out@) == subframe_output(w, e, repack)
            &&& *final(noise_state) == e[71]
            &&& q15::ints(final(audio)@) == q15::scaled(
                q15::inputs_after(q15::scaled(x, nb - 3)),
                -nb,
            )
            &&& q15::ints(final(err1)@) == q15::scaled(
                q15::memory(
                    filtered(x, f, d, q15::ints(old(audio)@), q15::ints(old(err1)@)),
                    q15::scaled(q15::ints(old(err1)@), nb),
                ),
                -nb,
            )
        }),
        q15::within(q15::ints(out@), 32768),
        q15::within(q15::ints(final(audio)@), 32768),
        q15::within(q15::ints(final(err1)@), 32768),
        0 <= *final(noise_state) <= 32767,
{
    let ghost x = q15::ints(v@);
    let ghost f = q15::ints(filter@);
    let ghost d = q15::divisor(halved);
    let ghost audio0 = q15::ints(audio@);
    let ghost err0 = q15::ints(err1@);

    let total: i64 = vector_abs_sum(v);
    let vsum_1: i64 = if total > 0xFFFFF {
        0xFFFFF
    } else {
        total
    };
    let nb: i32 = normalize_bits(v);

    proof {
        lemma_rescaled(x, nb as int);
        lemma_scaled_up(audio0, nb as int);
        lemma_scaled_up(err0, nb as int);
    }
    q15::scale_vec(v, nb - 3);
    q15::scale_vec(audio, nb);
    q15::scale_vec(err1, nb);
    let ghost sx = q15::ints(v@);
    let ghost se = q15::ints(err1@);
    let before: i64 = err1[1];
    assert(before == se[1]);

    let weights: [i64; 15] = q15::vec_mult(filter, &BINARY_DECREASING);
    q15::shift_sq_add(&weights, halved, audio, v);
    let weights: [i64; 15] = q15::vec_mult(filter, &UNC_DECREASING);
    q15::shift_sq_sub(&weights, halved, err1, v);
    assert(q15::ints(v@) == filtered(x, f, d, audio0, err0));

    proof {
        q15::lemma_shr(lpc0, 1);
        lemma2_to64();
    }
    let half: i64 = lpc0 >> 1;
    let lf: i64 = if half >= 0 {
        0
    } else {
        half
    };
    tilt(v, lf, before);

    let ghost z = filtered(x, f, d, audio0, err0);
    proof {
        let a1 = q15::ints(audio@);
        let e1 = q15::ints(err1@);
        assert(a1 == q15::inputs_after(sx));
        assert forall|i: int| 0 <= i < 15 implies -32768 <= #[trigger] q15::scaled(
            a1,
            -nb as int,
        )[i] <= 32768 by {
            let r = q15::scaled(sx, -nb as int);
            if i == 0 {
                assert(q15::scaled(a1, -nb as int)[i] == r[71]);
            } else {
                assert(q15::scaled(a1, -nb as int)[i] == r[72 - i]);
            }
        }
        assert forall|i: int| 0 <= i < 15 implies -32768 <= #[trigger] q15::scaled(
            e1,
            -nb as int,
        )[i] <= 32768 by {
            lemma_scaled_down(z, nb as int);
            let r = q15::scaled(z, -nb as int);
            if i > 0 {
                assert(e1[i] == z[72 - i]);
                assert(q15::scaled(e1, -nb as int)[i] == r[72 - i]);
            } else {
                assert(e1[0] == se[0]);
                assert(se[0] == q15::shifted(err0[0], nb as int));
                lemma_up_down(err0[0], nb as int);
            }
        }
        lemma_scaled_down(q15::ints(v@), nb as int);
    }
    q15::scale_vec(v, -nb);
    q15::scale_vec(audio, -nb);
    q15::scale_vec(err1, -nb);
    let ghost w = q15::ints(v@);

    let vsum_2: i64 = vector_abs_sum(v);
    let noise: [i64; SUBFRAME_SIZE] = noise_envelope(vsum_1, vsum_2, *noise_state);
    assert(q15::ints(noise@)[71] == noise@[71]);
    *noise_state = noise[SUBFRAME_SIZE - 1];
    modulate(v, &noise, repack)
}

/// Scaling up and down again gives the value back.
proof fn lemma_up_down(x: int, nb: int)
    requires
        0 <= nb <= 15,
    ensures
        q15::shifted(q15::shifted(x, nb), -nb) == x,
{
    lemma2_to64();
    let p = pow2(nb as nat) as int;
    lemma_pow2_pos(nb as nat);
    if nb == 0 {
        assert((x * 1) * 1 == x);
    } else {
        assert((x * p) / p == x) by (nonlinear_arith)
            requires
                p > 0,
        ;
    }
}

// ---------------------------------------------------------------- resampling

/// Resamples a frame to 11025 Hz and keeps its last six samples.
fn update_state(tail: &mut [i64; 6], work: &Vec<i64>, repack: bool) -> (output: Vec<i16>)
    requires
        work@.len() == 288,
        q15::within(q15::ints(work@), 32768),
        q15::within(q15::ints(old(tail)@), 32768),
    ensures
        ({
            let x = q15::ints(old(tail)@) + q15::ints(work@);
            &&& output@.len() == 264
            &&& forall|k: int| 0 <= k < 264 ==> #[trigger] output@[k] == resampled_at(x, repack, k)
            &&& q15::ints(final(tail)@) == x.subrange(288, 294)
        }),
        q15::within(q15::ints(final(tail)@), 32768),
{
    let ghost x = q15::ints(tail@) + q15::ints(work@);
    let mut excitation: Vec<i64> = Vec::new();
    let mut i: usize = 0;
    while i < 6
        invariant
            i <= 6,
            *tail == *old(tail),
            excitation@.len() == i,
            forall|j: int| 0 <= j < i ==> #[trigger] excitation@[j] == tail@[j],
        decreases 6 - i,
    {
        excitation.push(tail[i]);
        i += 1;
    }
    let mut i: usize = 0;
    while i < 288
        invariant
            i <= 288,
            work@.len() == 288,
            *tail == *old(tail),
            excitation@.len() == 6 + i,
            forall|j: int| 0 <= j < 6 ==> #[trigger] excitation@[j] == tail@[j],
            forall|j: int| 6 <= j < 6 + i ==> #[trigger] excitation@[j] == work@[j - 6],
        decreases 288 - i,
    {
        excitation.push(work[i]);
        i += 1;
    }
    proof {
        assert(q15::ints(excitation@) =~= x);
        assert forall|j: int| 0 <= j < 294 implies -32768 <= #[trigger] x[j] <= 32768 by {
            if j < 6 {
                assert(x[j] == q15::ints(tail@)[j]);
            } else {
                assert(x[j] == q15::ints(work@)[j - 6]);
            }
        }
    }

    let mut output: Vec<i16> = Vec::new();
    let mut offset: usize = 6;
    let mut a: usize = 0;
    while offset < excitation.len()
        invariant
            excitation@.len() == 294,
            x == q15::ints(excitation@),
            q15::within(x, 32768),
            output@.len() <= 264,
            offset == 6 + output@.len() + output@.len() / 11,
            a == output@.len() % 11,
            forall|k: int|
                0 <= k < output@.len() ==> #[trigger] output@[k] == resampled_at(x, repack, k),
        decreases 294 - offset,
    {
        let ghost k = output@.len() as int;
        let mut tmp: i64 = 0;
        let mut i: usize = 0;
        while i < 6
            invariant
                i <= 6,
                6 <= offset < 294,
                a < 11,
                k == output@.len(),
                offset == 6 + k + k / 11,
                a == k % 11,
                excitation@.len() == 294,
                x == q15::ints(excitation@),
                q15::within(x, 32768),
                tmp == sinc_sum(x, k, i as int),
                -(i * 0x4000_0000) <= tmp <= i * 0x4000_0000,
            decreases 6 - i,
        {
            proof {
                assert(excitation@[offset - i] == x[offset - i]);
                q15::lemma_mul_within(
                    x[offset - i],
                    SINC@[a + i * 11] as int,
                    32768,
                    32768,
                );
            }
            tmp = tmp + excitation[offset - i] * (SINC[a + i * 11] as i64);
            i += 1;
        }
        offset += 1;
        proof {
            q15::lemma_shr(tmp, 15);
            lemma2_to64();
        }
        tmp = tmp >> 15;
        let s: i64 = if repack {
            q15::clip_sinc_pcm(tmp)
        } else {
            q15::clip16(tmp)
        };
        output.push(s as i16);
        a = (a + 1) % 11;
        if a == 0 {
            offset += 1;
        }
    }

    let mut i: usize = 0;
    while i < 6
        invariant
            i <= 6,
            excitation@.len() == 294,
            forall|j: int| 0 <= j < i ==> #[trigger] tail@[j] == excitation@[288 + j],
        decreases 6 - i,
    {
        tail[i] = excitation[288 + i];
        i += 1;
    }
    proof {
        assert(q15::ints(tail@) =~= x.subrange(288, 294)) by {
            assert forall|j: int| 0 <= j < 6 implies q15::ints(tail@)[j] == x[288 + j] by {
                assert(tail@[j] == excitation@[288 + j]);
            }
        }
        assert forall|j: int| 0 <= j < 6 implies -32768 <= #[trigger] q15::ints(tail@)[j]
            <= 32768 by {
            assert(q15::ints(tail@)[j] == x[288 + j]);
        }
    }
    output
}

// ---------------------------------------------------------------- the decoder

/// Decoder for DSS SP packets.
pub struct DssSpDecoder {
    tail: [i64; 6],
    history: [i64; 187],
    audio_buf: [i64; 15],
    err_buf1: [i64; 15],
    err_buf2: [i64; 15],
    noise_state: i64,
    mode: PulseMode,
    comb_pulse_mode: bool,
    frame_idx: usize,
}

impl View for DssSpDecoder {
    type V = SpState;

    closed spec fn view(&self) -> SpState {
        SpState {
            synth: SynthState {
                history: q15::ints(self.history@),
                err2: q15::ints(self.err_buf2@),
                audio: q15::ints(self.audio_buf@),
                err1: q15::ints(self.err_buf1@),
                noise: self.noise_state as int,
            },
            tail: q15::ints(self.tail@),
            mode: self.mode,
            comb_stream: self.comb_pulse_mode,
            frames: self.frame_idx as nat,
        }
    }
}

impl Default for DssSpDecoder {
    fn default() -> (r: Self)
        ensures
            r@ == initial_state(),
            bounded(r@),
    {
        Self::new()
    }
}

impl DssSpDecoder {
    /// A decoder before the first packet.
    pub fn new() -> (r: Self)
        ensures
            r@ == initial_state(),
            bounded(r@),
    {
        let r = DssSpDecoder {
            tail: [0i64; 6],
            history: [0i64; 187],
            audio_buf: [0i64; 15],
            err_buf1: [0i64; 15],
            err_buf2: [0i64; 15],
            noise_state: 0,
            mode: PulseMode { table_decode: true, table_latch: false },
            comb_pulse_mode: false,
            frame_idx: 0,
        };
        proof {
            let s = initial_state();
            assert(q15::ints(r.history@) =~= s.synth.history);
            assert(q15::ints(r.err_buf2@) =~= s.synth.err2);
            assert(q15::ints(r.audio_buf@) =~= s.synth.audio);
            assert(q15::ints(r.err_buf1@) =~= s.synth.err1);
            assert(q15::ints(r.tail@) =~= s.tail);
        }
        r
    }

    /// Decodes the four subframes of a packet.
    fn decode_subframes(
        &mut self,
        p: &FrameParams,
        repack: bool,
        Ghost(pkt): Ghost<Seq<u8>>,
        Ghost(mode): Ghost<PulseMode>,
    ) -> (work: Vec<i64>)
        requires
            bounded(old(self)@),
            is_frame_of(*p, pkt, repack, mode),
        ensures
            bounded(final(self)@),
            final(self)@.synth == subframes(old(self)@.synth, pkt, repack, mode, 4).0,
            final(self)@.tail == old(self)@.tail,
            final(self)@.mode == old(self)@.mode,
            final(self)@.comb_stream == old(self)@.comb_stream,
            final(self)@.frames == old(self)@.frames,
            q15::ints(work@) == subframes(old(self)@.synth, pkt, repack, mode, 4).1,
            work@.len() == 288,
            q15::within(q15::ints(work@), 32768),
    {
        let ghost s0 = self@.synth;
        let ghost refl = reflections(pkt);
        proof {
            assert forall|i: int| 0 <= i < 14 implies #[trigger] p.filter_idx@[i] < 32 by {}
        }
        let lpc: [i64; 14] = unpack_filter(&p.filter_idx);
        proof {
            assert forall|i: int| 0 <= i < 14 implies q15::ints(lpc@)[i] == refl[i] by {
                assert(lpc@[i] == FILTER_CB@[i]@[p.filter_idx@[i] as int]);
            }
            assert(q15::ints(lpc@) =~= refl);
            assert(lpc@[0] == q15::ints(lpc@)[0]);
        }
        let (filter, is_halved) = convert_coeffs(&lpc);
        let ghost f = frame_filter(refl);
        let ghost d = q15::divisor(halved(refl));
        let mut work: Vec<i64> = Vec::new();
        let mut j: usize = 0;
        assert(q15::ints(work@) =~= subframes(s0, pkt, repack, mode, 0).1);
        while j < SUBFRAMES
            invariant
                j <= 4,
                is_frame_of(*p, pkt, repack, mode),
                bounded(self@),
                self@.tail == old(self)@.tail,
                self@.mode == old(self)@.mode,
                self@.comb_stream == old(self)@.comb_stream,
                self@.frames == old(self)@.frames,
                refl == reflections(pkt),
                f == frame_filter(refl),
                d == q15::divisor(halved(refl)),
                q15::ints(filter@) == f,
                q15::within(f, 32768),
                is_halved == halved(refl),
                lpc@[0] == refl[0],
                -32768 <= lpc@[0] <= 32768,
                self@.synth == subframes(s0, pkt, repack, mode, j as nat).0,
                q15::ints(work@) == subframes(s0, pkt, repack, mode, j as nat).1,
                work@.len() == 72 * j,
                q15::within(q15::ints(work@), 32768),
            decreases 4 - j,
        {
            let ghost s = self@.synth;
            let ghost dr = drive(pkt, repack, mode, j as int);
            let sf = &p.subframes[j];
            proof {
                assert(is_subframe_of(p.subframes@[j as int], pkt, repack, mode, j as int));
                assert(p.pitch_lag@[j as int] == pitch_lag(combined_pitch(pkt), j as int));
                law_pitch_lags_stay_in_range(combined_pitch(pkt), j as int);
            }
            let gain: i64 = ADAPTIVE_GAIN[sf.adaptive_gain] as i64;
            let mut v: [i64; SUBFRAME_SIZE] = gen_exc(&self.history, p.pitch_lag[j], gain);
            add_pulses(
                &mut v,
                sf,
                Ghost(dr),
                Ghost(pkt),
                Ghost(repack),
                Ghost(mode),
                Ghost(j as int),
            );
            let ghost exc = q15::ints(v@);
            update_buf(&mut self.history, &v);
            q15::shift_sq_sub(&filter, is_halved, &mut self.err_buf2, &mut v);
            let ghost x = q15::ints(v@);
            let out: [i64; SUBFRAME_SIZE] = sf_synthesis(
                &mut v,
                &filter,
                is_halved,
                lpc[0],
                &mut self.audio_buf,
                &mut self.err_buf1,
                &mut self.noise_state,
                repack,
            );
            let ghost now = subframe(s, f, d, refl[0], repack, dr);
            proof {
                reveal(subframe);
                assert(exc == with_pulses(adaptive(s.history, dr.lag, dr.gain), dr.at, dr.heights, 7));
                assert(x == q15::all_pole(f, d, s.err2, exc, 72));
                assert(q15::ints(out@) == now.1);
                assert(self@.synth == now.0);
                let h = self@.synth.history;
                assert forall|i: int| 0 <= i < 187 implies -0x4_0000 <= #[trigger] h[i]
                    <= 0x4_0000 by {
                    if 0 < i <= 72 {
                        assert(h[i] == exc[72 - i]);
                    } else if i > 72 {
                        assert(h[i] == s.history[i - 72]);
                    } else {
                        assert(h[i] == s.history[0]);
                    }
                }
                let e = self@.synth.err2;
                assert forall|i: int| 0 <= i < 15 implies -32768 <= #[trigger] e[i] <= 32768 by {
                    if i == 0 {
                        assert(e[0] == s.err2[0]);
                    } else {
                        assert(e[i] == x[72 - i]);
                    }
                }
                assert(bounded(self@));
            }
            let ghost before = q15::ints(work@);
            let mut i: usize = 0;
            while i < SUBFRAME_SIZE
                invariant
                    i <= 72,
                    before.len() == 72 * j,
                    j < 4,
                    work@.len() == 72 * j + i,
                    forall|k: int| 0 <= k < 72 * j ==> #[trigger] work@[k] == before[k],
                    forall|k: int|
                        72 * j <= k < 72 * j + i ==> #[trigger] work@[k] == out@[k - 72 * j],
                decreases 72 - i,
            {
                work.push(out[i]);
                i += 1;
            }
            proof {
                assert(q15::ints(work@) =~= before + q15::ints(out@));
                assert forall|k: int| 0 <= k < work@.len() implies -32768 <= #[trigger] q15::ints(
                    work@,
                )[k] <= 32768 by {
                    if k < 72 * j {
                        assert(q15::ints(work@)[k] == before[k]);
                    } else {
                        assert(q15::ints(work@)[k] == q15::ints(out@)[k - 72 * j]);
                    }
                }
            }
            j += 1;
        }
        work
    }

    /// Decodes a packet to 264 samples at 11025 Hz.
    pub fn decode_frame(&mut self, pkt: &[u8]) -> (out: Vec<i16>)
        requires
            bounded(old(self)@),
            routable(old(self)@, pkt@),
            old(self)@.frames < usize::MAX,
        ensures
            bounded(final(self)@),
            final(self)@ == state_after(old(self)@, pkt@),
            out@.len() == 264,
            forall|k: int|
                0 <= k < 264 ==> #[trigger] out@[k] == frame_output(old(self)@, pkt@)[k],
    {
        let ghost s = self@;
        if self.frame_idx == 0 {
            self.comb_pulse_mode = (pkt[0] & 0x80) != 0 && (pkt[0] & 1) != 0;
        }
        let repack: bool = if self.comb_pulse_mode {
            (pkt[1] >> 7) & 1 != 0
        } else {
            true
        };
        let ghost mode0 = self.mode;
        let p = unpack_coeffs(pkt, repack, &mut self.mode);
        let work: Vec<i64> = self.decode_subframes(&p, repack, Ghost(pkt@), Ghost(mode0));
        let out: Vec<i16> = update_state(&mut self.tail, &work, repack);
        self.frame_idx = self.frame_idx + 1;
        out
    }
}

} // verus!
