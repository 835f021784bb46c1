//! What holds of DS2 frames: unpacking gives back the numbers that were written.
use crate::bitstream;
use crate::codec::common;
use crate::codec::ds2_qp;
use crate::codec::ds2_qp::{QpFrame, QpSubframe};
use crate::codec::ds2_sp;
use crate::codec::ds2_sp::{SpFrame, SpSubframe};
use crate::codec::pulses;
use crate::codec::writing;
use crate::tables::dss_sp::C72_BINOMIALS;
use vstd::arithmetic::power2::*;
use vstd::prelude::*;

verus! {

/// The widths of the numbers in a packet of 328 bits: 14 reflection indices; for each of
/// four subframes a pitch gain index, a codebook index, a gain index and seven amplitudes;
/// and the pitch number.
pub open spec fn sp_widths() -> Seq<nat> {
    Seq::new(
        55,
        |k: int|
            if k < 2 {
                5
            } else if k < 8 {
                4
            } else if k < 14 {
                3
            } else if k == 54 {
                24
            } else if (k - 14) % 10 == 0 {
                5
            } else if (k - 14) % 10 == 1 {
                31
            } else if (k - 14) % 10 == 2 {
                6
            } else {
                3
            },
    )
}

/// The widths of the numbers in a frame of 448 bits: 16 reflection indices; for each of
/// four subframes a pitch index, a pitch gain index, a codebook index, a gain index and
/// eleven amplitudes.
pub open spec fn qp_widths() -> Seq<nat> {
    Seq::new(
        76,
        |k: int|
            if k < 2 {
                7
            } else if k < 4 {
                6
            } else if k < 9 {
                5
            } else if k < 13 {
                4
            } else if k < 16 {
                3
            } else if (k - 16) % 15 == 0 {
                8
            } else if (k - 16) % 15 == 2 {
                40
            } else if (k - 16) % 15 == 1 || (k - 16) % 15 == 3 {
                6
            } else {
                3
            },
    )
}

/// Where the numbers of a packet start.
pub proof fn lemma_sp_start(k: int)
    requires
        0 <= k <= 54,
    ensures
        writing::start(sp_widths(), k) == (if k < 2 {
            5 * k
        } else if k < 8 {
            10 + 4 * (k - 2)
        } else if k < 14 {
            34 + 3 * (k - 8)
        } else {
            52 + 63 * ((k - 14) / 10) + (if (k - 14) % 10 == 0 {
                0
            } else if (k - 14) % 10 == 1 {
                5
            } else {
                36 + (if (k - 14) % 10 == 2 {
                    0
                } else {
                    6 + 3 * ((k - 14) % 10 - 3)
                })
            })
        }),
    decreases k,
{
    if k > 0 {
        lemma_sp_start(k - 1);
        assert(sp_widths()[k - 1] == (if k <= 2 {
            5nat
        } else if k <= 8 {
            4
        } else if k <= 14 {
            3
        } else if (k - 15) % 10 == 0 {
            5
        } else if (k - 15) % 10 == 1 {
            31
        } else if (k - 15) % 10 == 2 {
            6
        } else {
            3
        }));
    }
}

/// Where the numbers of a frame start.
proof fn lemma_qp_start(k: int)
    requires
        0 <= k < 76,
    ensures
        writing::start(qp_widths(), k) == (if k < 2 {
            7 * k
        } else if k < 4 {
            14 + 6 * (k - 2)
        } else if k < 9 {
            26 + 5 * (k - 4)
        } else if k < 13 {
            51 + 4 * (k - 9)
        } else if k < 16 {
            67 + 3 * (k - 13)
        } else {
            76 + 93 * ((k - 16) / 15) + (if (k - 16) % 15 == 0 {
                0
            } else if (k - 16) % 15 == 1 {
                8
            } else if (k - 16) % 15 == 2 {
                14
            } else if (k - 16) % 15 == 3 {
                54
            } else {
                60 + 3 * ((k - 16) % 15 - 4)
            })
        }),
    decreases k,
{
    if k > 0 {
        lemma_qp_start(k - 1);
        assert(qp_widths()[k - 1] == (if k <= 2 {
            7nat
        } else if k <= 4 {
            6
        } else if k <= 9 {
            5
        } else if k <= 13 {
            4
        } else if k <= 16 {
            3
        } else if (k - 17) % 15 == 0 {
            8
        } else if (k - 17) % 15 == 2 {
            40
        } else if (k - 17) % 15 == 1 || (k - 17) % 15 == 3 {
            6
        } else {
            3
        }));
    }
}

proof fn lemma_sp_refl_start(i: nat)
    requires
        i < 14,
    ensures
        ds2_sp::refl_start(i) == writing::start(sp_widths(), i as int),
        ds2_sp::SP_BIT_ALLOC@[i as int] as nat == sp_widths()[i as int],
    decreases i,
{
    if i > 0 {
        lemma_sp_refl_start((i - 1) as nat);
    }
}

proof fn lemma_qp_refl_start(i: nat)
    requires
        i < 16,
    ensures
        ds2_qp::refl_start(i) == writing::start(qp_widths(), i as int),
        ds2_qp::REFL_BIT_ALLOC@[i as int] as nat == qp_widths()[i as int],
    decreases i,
{
    if i > 0 {
        lemma_qp_refl_start((i - 1) as nat);
    }
}

/// The numbers as `usize` read as numbers.
pub open spec fn nats(v: Seq<usize>) -> Seq<nat> {
    Seq::new(v.len(), |i: int| v[i] as nat)
}

/// Every number is read back where it was written.
pub open spec fn reads(values: Seq<nat>, widths: Seq<nat>, data: Seq<u8>) -> bool {
    forall|k: int|
        0 <= k < values.len() ==> #[trigger] values[k] == bitstream::field(
            data,
            writing::start(widths, k),
            widths[k],
        )
}

pub proof fn lemma_reads(values: Seq<nat>, widths: Seq<nat>, data: Seq<u8>)
    requires
        writing::fit(values, widths),
        writing::in_words(data, writing::written(values, widths)),
    ensures
        reads(values, widths, data),
{
    assert forall|k: int| 0 <= k < values.len() implies #[trigger] values[k] == bitstream::field(
        data,
        writing::start(widths, k),
        widths[k],
    ) by {
        writing::law_reading_undoes_writing(values, widths, data, k);
    }
}

/// The subframe holds what was written of it.
pub open spec fn sp_holds(s: SpSubframe, values: Seq<nat>, sf: int) -> bool {
    &&& s.pitch_gain == values[14 + 10 * sf]
    &&& values[15 + 10 * sf] < 1473109704 ==> common::seven_coded_as(
        nats(s.positions@),
        values[15 + 10 * sf],
    )
    &&& s.gain == values[16 + 10 * sf]
    &&& forall|k: int| 0 <= k < 7 ==> #[trigger] s.pulses@[k] == values[17 + 10 * sf + k]
}

/// Where number `m` of a subframe starts, and its width.
proof fn lemma_sp_at(sf: int, m: int)
    requires
        0 <= sf < 4,
        0 <= m < 10,
    ensures
        writing::start(sp_widths(), 14 + 10 * sf + m) == 52 + 63 * sf + (if m == 0 {
            0
        } else if m == 1 {
            5
        } else if m == 2 {
            36
        } else {
            42 + 3 * (m - 3)
        }),
        sp_widths()[14 + 10 * sf + m] == (if m == 0 {
            5nat
        } else if m == 1 {
            31
        } else if m == 2 {
            6
        } else {
            3
        }),
{
    let k = 10 * sf + m;
    assert(k / 10 == sf && k % 10 == m);
    lemma_sp_start(14 + k);
}

/// The positions of a subframe are those that its codebook index stands for.
proof fn lemma_sp_positions(s: SpSubframe, packet: Seq<u8>, sf: nat)
    requires
        ds2_sp::describes_subframe(s, packet, sf),
        bitstream::field(packet, ds2_sp::subframe_start(sf) + 5, 31) < 1473109704,
    ensures
        common::seven_coded_as(
            nats(s.positions@),
            bitstream::field(packet, ds2_sp::subframe_start(sf) + 5, 31),
        ),
{
    let index = bitstream::field(packet, ds2_sp::subframe_start(sf) + 5, 31);
    pulses::lemma_c72();
    assert(C72_BINOMIALS@[6] == common::binom(72, 7));
    common::law_seven_positions_code_their_number(index);
    assert(nats(s.positions@) =~= common::positions(index, 71, 7));
}

#[verifier::rlimit(40)]
proof fn lemma_sp_subframe(values: Seq<nat>, packet: Seq<u8>, s: SpSubframe, sf: int)
    requires
        values.len() == 55,
        reads(values, sp_widths(), packet),
        0 <= sf < 4,
        ds2_sp::describes_subframe(s, packet, sf as nat),
    ensures
        sp_holds(s, values, sf),
{
    let start = (52 + 63 * sf) as nat;
    lemma_sp_at(sf, 0);
    lemma_sp_at(sf, 1);
    lemma_sp_at(sf, 2);
    assert(values[14 + 10 * sf] == bitstream::field(packet, start, 5));
    assert(values[15 + 10 * sf] == bitstream::field(packet, start + 5, 31));
    assert(values[16 + 10 * sf] == bitstream::field(packet, start + 36, 6));
    if values[15 + 10 * sf] < 1473109704 {
        lemma_sp_positions(s, packet, sf as nat);
    }
    assert forall|k: int| 0 <= k < 7 implies #[trigger] s.pulses@[k] == values[17 + 10 * sf
        + k] by {
        lemma_sp_at(sf, 3 + k);
        assert(values[17 + 10 * sf + k] == bitstream::field(
            packet,
            (start + 42 + 3 * k) as nat,
            3,
        ));
    }
}

/// Unpacking a DS2 SP packet undoes writing it: the frame holds the numbers in the order
/// in which they were written, and its seven positions are those that the codebook index
/// written stands for.
pub proof fn law_sp_unpacking_undoes_writing(values: Seq<nat>, packet: Seq<u8>, f: SpFrame)
    requires
        writing::fit(values, sp_widths()),
        writing::in_words(packet, writing::written(values, sp_widths())),
        ds2_sp::describes(f, packet),
    ensures
        forall|i: int| 0 <= i < 14 ==> #[trigger] f.refl@[i] == values[i],
        f.subframes@.len() == 4,
        forall|sf: int|
            0 <= sf < 4 ==> sp_holds(#[trigger] f.subframes@[sf], values, sf)
                && f.subframes@[sf].pitch == ds2_sp::lag(values[54], sf),
{
    lemma_reads(values, sp_widths(), packet);
    lemma_sp_packet(values, packet, f);
}

#[verifier::rlimit(40)]
proof fn lemma_sp_packet(values: Seq<nat>, packet: Seq<u8>, f: SpFrame)
    requires
        values.len() == 55,
        reads(values, sp_widths(), packet),
        ds2_sp::describes(f, packet),
    ensures
        forall|i: int| 0 <= i < 14 ==> #[trigger] f.refl@[i] == values[i],
        forall|sf: int|
            0 <= sf < 4 ==> sp_holds(#[trigger] f.subframes@[sf], values, sf)
                && f.subframes@[sf].pitch == ds2_sp::lag(values[54], sf),
{
    assert forall|i: int| 0 <= i < 14 implies #[trigger] f.refl@[i] == values[i] by {
        lemma_sp_refl_start(i as nat);
    }
    lemma_sp_start(54);
    assert(values[54] == bitstream::field(packet, 304, 24));
    assert forall|sf: int| 0 <= sf < 4 implies sp_holds(#[trigger] f.subframes@[sf], values, sf)
        && f.subframes@[sf].pitch == ds2_sp::lag(values[54], sf) by {
        lemma_sp_subframe(values, packet, f.subframes@[sf], sf);
    }
}

/// The subframe holds what was written of it.
pub open spec fn qp_holds(s: QpSubframe, values: Seq<nat>, sf: int) -> bool {
    &&& s.pitch == values[16 + 15 * sf] + 45
    &&& s.pitch_gain == values[17 + 15 * sf]
    &&& values[18 + 15 * sf] < common::binom(64, 11) ==> {
        &&& common::descending(nats(s.positions@))
        &&& s.positions@.len() == 11
        &&& s.positions@[0] < 64
        &&& common::rank(nats(s.positions@)) == values[18 + 15 * sf]
    }
    &&& s.gain == values[19 + 15 * sf]
    &&& forall|k: int| 0 <= k < 11 ==> #[trigger] s.pulses@[k] == values[20 + 15 * sf + k]
}

/// Where number `m` of a subframe starts, and its width.
proof fn lemma_qp_at(sf: int, m: int)
    requires
        0 <= sf < 4,
        0 <= m < 15,
    ensures
        writing::start(qp_widths(), 16 + 15 * sf + m) == 76 + 93 * sf + (if m == 0 {
            0
        } else if m == 1 {
            8
        } else if m == 2 {
            14
        } else if m == 3 {
            54
        } else {
            60 + 3 * (m - 4)
        }),
        qp_widths()[16 + 15 * sf + m] == (if m == 0 {
            8nat
        } else if m == 2 {
            40
        } else if m < 4 {
            6
        } else {
            3
        }),
{
    let k = 15 * sf + m;
    assert(k / 15 == sf && k % 15 == m);
    lemma_qp_start(16 + k);
}

#[verifier::rlimit(40)]
proof fn lemma_qp_subframe(values: Seq<nat>, frame: Seq<u8>, s: QpSubframe, sf: int)
    requires
        values.len() == 76,
        reads(values, qp_widths(), frame),
        0 <= sf < 4,
        ds2_qp::describes_subframe(s, frame, sf as nat),
    ensures
        qp_holds(s, values, sf),
{
    let start = (76 + 93 * sf) as nat;
    lemma_qp_at(sf, 0);
    lemma_qp_at(sf, 1);
    lemma_qp_at(sf, 2);
    lemma_qp_at(sf, 3);
    assert(values[16 + 15 * sf] == bitstream::field(frame, start, 8));
    assert(values[17 + 15 * sf] == bitstream::field(frame, start + 8, 6));
    assert(values[18 + 15 * sf] == bitstream::field(frame, start + 14, 40));
    assert(values[19 + 15 * sf] == bitstream::field(frame, start + 54, 6));
    let index = values[18 + 15 * sf];
    if index < common::binom(64, 11) {
        common::law_decode_inverts_rank(index, 63, 11);
        assert(nats(s.positions@) =~= common::positions(index, 63, 11));
        assert(nats(s.positions@)[0] <= 63);
    }
    assert forall|k: int| 0 <= k < 11 implies #[trigger] s.pulses@[k] == values[20 + 15 * sf
        + k] by {
        lemma_qp_at(sf, 4 + k);
        assert(values[20 + 15 * sf + k] == bitstream::field(
            frame,
            (start + 60 + 3 * k) as nat,
            3,
        ));
    }
}

#[verifier::rlimit(40)]
proof fn lemma_qp_frame(values: Seq<nat>, frame: Seq<u8>, f: QpFrame)
    requires
        values.len() == 76,
        reads(values, qp_widths(), frame),
        ds2_qp::describes(f, frame),
    ensures
        forall|i: int| 0 <= i < 16 ==> #[trigger] f.refl@[i] == values[i],
        forall|sf: int| 0 <= sf < 4 ==> qp_holds(#[trigger] f.subframes@[sf], values, sf),
{
    assert forall|i: int| 0 <= i < 16 implies #[trigger] f.refl@[i] == values[i] by {
        lemma_qp_refl_start(i as nat);
    }
    assert forall|sf: int| 0 <= sf < 4 implies qp_holds(
        #[trigger] f.subframes@[sf],
        values,
        sf,
    ) by {
        lemma_qp_subframe(values, frame, f.subframes@[sf], sf);
    }
}

/// Unpacking a DS2 QP frame undoes writing it: the frame holds the numbers in the order in
/// which they were written, 45 added to the pitch indices, and the rank of its eleven
/// positions is the codebook index written.
pub proof fn law_qp_unpacking_undoes_writing(values: Seq<nat>, frame: Seq<u8>, f: QpFrame)
    requires
        writing::fit(values, qp_widths()),
        writing::in_words(frame, writing::written(values, qp_widths())),
        ds2_qp::describes(f, frame),
    ensures
        forall|i: int| 0 <= i < 16 ==> #[trigger] f.refl@[i] == values[i],
        f.subframes@.len() == 4,
        forall|sf: int| 0 <= sf < 4 ==> qp_holds(#[trigger] f.subframes@[sf], values, sf),
{
    lemma_reads(values, qp_widths(), frame);
    lemma_qp_frame(values, frame, f);
}

/// A lag moved into the window that the next one can be coded in: from 23 below it on, and
/// inside 36..=140.
pub open spec fn sp_window(lag: int) -> int {
    if lag - 23 < 36 {
        36
    } else if lag - 23 > 140 {
        140
    } else {
        lag - 23
    }
}

/// The pitch lags of a DS2 SP packet undo writing their codes into one number, the first in
/// base 151 and the others in base 48: the first lag is the first code from 36 on, each
/// later one its code from the start of its window on. A last code above 47 counts as 47.
pub proof fn law_sp_lags_undo_writing(a: nat, b: nat, c: nat, d: nat)
    requires
        a < 151,
        b < 48,
        c < 48,
    ensures
        ({
            let n = a + 151 * (b + 48 * (c + 48 * d));
            &&& ds2_sp::lag(n, 0) == 36 + a
            &&& ds2_sp::lag(n, 1) == b + sp_window(ds2_sp::lag(n, 0) as int)
            &&& ds2_sp::lag(n, 2) == c + sp_window(ds2_sp::lag(n, 1) as int)
            &&& d <= 47 ==> ds2_sp::lag(n, 3) == d + sp_window(ds2_sp::lag(n, 2) as int)
            &&& d > 47 ==> ds2_sp::lag(n, 3) == 47 + sp_window(ds2_sp::lag(n, 2) as int)
        }),
{
    let n = a + 151 * (b + 48 * (c + 48 * d));
    assert(n / 151 == b + 48 * (c + 48 * d));
    assert(n / 151 / 48 == c + 48 * d);
    assert(n / 151 / 48 / 48 == d);
    reveal_with_fuel(ds2_sp::lag, 4);
}

/// The excitation repeats at the pitch lag: sample `i` is kept one lag back, counted from
/// the end of the kept samples, and where the lag is shorter than that, it is the sample
/// that the one a lag earlier repeats.
pub proof fn law_sp_excitation_repeats_at_the_lag(pitch: int, i: int)
    requires
        36 <= pitch <= 187,
        0 <= i < 72,
    ensures
        i < pitch ==> ds2_sp::source_of(pitch, i) - 258 == i - pitch,
        i >= pitch ==> ds2_sp::source_of(pitch, i) == ds2_sp::source_of(pitch, i - pitch),
{
    lemma_repeats(pitch, i);
}

/// The excitation repeats at the pitch lag: sample `i` is kept one lag back, counted from
/// the end of the kept samples, and where the lag is shorter than that, it is the sample
/// that the one a lag earlier repeats.
pub proof fn law_qp_excitation_repeats_at_the_lag(pitch: int, i: int)
    requires
        45 <= pitch <= 300,
        0 <= i < 64,
    ensures
        i < pitch ==> ds2_qp::source_of(pitch, i) - 364 == i - pitch,
        i >= pitch ==> ds2_qp::source_of(pitch, i) == ds2_qp::source_of(pitch, i - pitch),
{
    lemma_repeats(pitch, i);
}

/// What is a period apart has the same remainder.
pub proof fn lemma_repeats(period: int, i: int)
    requires
        0 < period,
        0 <= i,
    ensures
        i < period ==> i % period == i,
        i >= period ==> i % period == (i - period) % period,
{
    if i < period {
        vstd::arithmetic::div_mod::lemma_small_mod(i as nat, period as nat);
    } else {
        vstd::arithmetic::div_mod::lemma_mod_add_multiples_vanish(i - period, period);
    }
}

/// A QP frame is made of 28 words of the stream, from 56 bytes times its number on. Where a
/// word is not wholly inside the stream, both its bytes are zero.
pub proof fn law_qp_frames_are_made_of_words(stream: Seq<u8>, i: int, w: int)
    requires
        0 <= i,
        0 <= w < 28,
    ensures
        ({
            let frame = ds2_qp::repacked(stream, i);
            let at = 56 * i + 2 * w;
            &&& frame.len() == 56
            &&& at + 2 <= stream.len() ==> frame.subrange(2 * w, 2 * w + 2) == stream.subrange(
                at,
                at + 2,
            )
            &&& at + 2 > stream.len() ==> frame[2 * w] == 0 && frame[2 * w + 1] == 0
        }),
{
    let frame = ds2_qp::repacked(stream, i);
    let at = 56 * i + 2 * w;
    assert(at % 2 == 0 && (at + 1) % 2 == 1);
    if at + 2 <= stream.len() {
        assert(frame.subrange(2 * w, 2 * w + 2) =~= stream.subrange(at, at + 2));
    }
}

} // verus!
