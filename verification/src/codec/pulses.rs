//! Pulse positions of the DSS SP fixed codebook.
//!
//! Seven positions out of 72 are coded in a 31-bit combinatorial index. Two decoders
//! are in use: one looks the positions up in the table of binomials, the other walks
//! the positions downwards while it updates a row of Pascal's triangle. Which one is
//! taken depends on the stream and on a latch.
use crate::codec::common;
use crate::tables::dss_sp::C72_BINOMIALS;
use vstd::prelude::*;

verus! {

/// The placement walk: from `m` downwards, `k` pulses still to be placed. Where
/// `common::binom(m, k)` fits into the rest, a pulse is placed at `m - 1`. Gives the placed
/// positions and what is left of the index.
pub open spec fn place(rest: nat, m: nat, k: nat) -> (Seq<nat>, nat)
    decreases m,
{
    if k == 0 || m == 0 {
        (Seq::empty(), rest)
    } else if common::binom(m, k) <= rest {
        let later = place((rest - common::binom(m, k)) as nat, (m - 1) as nat, (k - 1) as nat);
        (seq![(m - 1) as nat] + later.0, later.1)
    } else {
        place(rest, (m - 1) as nat, k)
    }
}

/// All seven pulses were placed and nothing of the index is left.
pub open spec fn placed_all(index: nat) -> bool {
    place(index, 72, 7).0.len() == 7 && place(index, 72, 7).1 == 0
}

/// The positions that the walk places; a slot that it does not reach is zero.
pub open spec fn placed_or_zero(index: nat) -> Seq<nat> {
    let ps = place(index, 72, 7).0;
    Seq::new(
        7,
        |i: int|
            if i < ps.len() {
                ps[i]
            } else {
                0
            },
    )
}

/// What the choice of the decoder depends on from one subframe to the next.
#[derive(Clone, Copy)]
pub struct PulseMode {
    /// Plain streams decode positions while this is set.
    pub table_decode: bool,
    /// Repacked streams take the table once the walk has failed.
    pub table_latch: bool,
}

/// The positions that an index stands for, and the mode afterwards.
pub open spec fn routed(combined: nat, repack: bool, mode: PulseMode) -> (Seq<nat>, PulseMode) {
    if combined >= C72_BINOMIALS@[7] {
        (
            placed_or_zero(combined),
            PulseMode { table_decode: false, table_latch: mode.table_latch },
        )
    } else if repack {
        let limit = (C72_BINOMIALS@[6] - 1) as nat;
        let cp = if combined > limit {
            limit
        } else {
            combined
        };
        let now = if combined > limit {
            PulseMode { table_decode: false, table_latch: false }
        } else {
            mode
        };
        if now.table_latch {
            (common::positions(cp, 71, 7), now)
        } else if placed_all(cp) {
            (place(cp, 72, 7).0, now)
        } else {
            (common::positions(cp, 71, 7), PulseMode { table_decode: now.table_decode, table_latch: true })
        }
    } else if mode.table_decode {
        (common::positions(combined, 71, 7), mode)
    } else {
        (Seq::new(7, |i: int| 0nat), mode)
    }
}

proof fn lemma_c72_step(k: nat, v: int, w: int)
    requires
        k < 72,
        common::binom(72, k) == v,
        v * (72 - k) == w * (k + 1),
    ensures
        common::binom(72, k + 1) == w,
{
    common::lemma_binom_next(72, k);
    let b = common::binom(72, k + 1) as int;
    assert(b == w) by (nonlinear_arith)
        requires
            b * (k + 1) == w * (k + 1),
            k >= 0,
    ;
}

/// The first seven entries of the table are the binomials of 72.
pub proof fn lemma_c72()
    ensures
        forall|k: int|
            0 <= k < 7 ==> #[trigger] C72_BINOMIALS@[k] == common::binom(72, (k + 1) as nat),
{
    lemma_c72_step(0, 1, 72);
    lemma_c72_step(1, 72, 2556);
    lemma_c72_step(2, 2556, 59640);
    lemma_c72_step(3, 59640, 1028790);
    lemma_c72_step(4, 1028790, 13991544);
    lemma_c72_step(5, 13991544, 156238908);
    lemma_c72_step(6, 156238908, 1473109704);
}

pub proof fn lemma_place_bound(rest: nat, m: nat, k: nat)
    ensures
        place(rest, m, k).0.len() <= k,
        forall|i: int| 0 <= i < place(rest, m, k).0.len() ==> #[trigger] place(rest, m, k).0[i] < m,
    decreases m,
{
    if k == 0 || m == 0 {
    } else if common::binom(m, k) <= rest {
        let later = place((rest - common::binom(m, k)) as nat, (m - 1) as nat, (k - 1) as nat);
        lemma_place_bound((rest - common::binom(m, k)) as nat, (m - 1) as nat, (k - 1) as nat);
        let all = place(rest, m, k).0;
        assert forall|i: int| 0 <= i < all.len() implies #[trigger] all[i] < m by {
            if i > 0 {
                assert(all[i] == later.0[i - 1]);
            }
        }
    } else {
        lemma_place_bound(rest, (m - 1) as nat, k);
    }
}

/// Every routed position lies in the subframe.
pub proof fn lemma_routed_bound(combined: nat, repack: bool, mode: PulseMode)
    ensures
        routed(combined, repack, mode).0.len() == 7,
        forall|i: int|
            0 <= i < 7 ==> #[trigger] routed(combined, repack, mode).0[i] < 72,
{
    let limit = (C72_BINOMIALS@[6] - 1) as nat;
    common::lemma_positions_bound(combined, 71, 7);
    common::lemma_positions_bound(limit, 71, 7);
    lemma_place_bound(combined, 72, 7);
    lemma_place_bound(limit, 72, 7);
}

/// A rest that fits below `m + 1` decodes the same under every higher bound.
proof fn lemma_positions_hi(rest: nat, m: nat, hi: nat, k: nat)
    requires
        rest < common::binom(m + 1, k),
        m <= hi,
    ensures
        common::positions(rest, hi, k) == common::positions(rest, m, k),
    decreases k,
{
    if k > 0 {
        let p = common::top(rest, k, m);
        common::lemma_top(rest, k, m);
        assert(rest < common::binom(p + 1, k));
        common::lemma_top_unique(rest, k, hi, p);
        let rest2 = (rest - common::binom(p, k)) as nat;
        common::lemma_binom_mono(p, m + 1, (k - 1) as nat);
        lemma_positions_hi(rest2, m, hi, (k - 1) as nat);
    }
}

/// The walk places all `k` pulses exactly when the lowest table position is not zero,
/// and then every table position is one above the placed one.
proof fn lemma_place_positions(rest: nat, m: nat, k: nat)
    requires
        rest < common::binom(m + 1, k),
    ensures
        k > 0 ==> (place(rest, m, k).0.len() == k <==> common::positions(rest, m, k)[k - 1] > 0),
        place(rest, m, k).0.len() == k ==> place(rest, m, k).1 == 0,
        place(rest, m, k).0.len() == k ==> forall|i: int|
            0 <= i < k ==> #[trigger] common::positions(rest, m, k)[i] == place(rest, m, k).0[i] + 1,
    decreases m,
{
    common::lemma_positions_bound(rest, m, k);
    lemma_place_bound(rest, m, k);
    if k == 0 {
    } else if m == 0 {
        assert(common::binom(1, k) == common::binom(0, (k - 1) as nat) + common::binom(0, k));
        assert(k == 1);
        assert(common::positions(rest, 0, 1)[0] == common::top(rest, 1, 0));
    } else if common::binom(m, k) <= rest {
        let rest2 = (rest - common::binom(m, k)) as nat;
        assert(rest2 < common::binom(m, (k - 1) as nat));
        assert(common::top(rest, k, m) == m);
        lemma_place_positions(rest2, (m - 1) as nat, (k - 1) as nat);
        lemma_positions_hi(rest2, (m - 1) as nat, m, (k - 1) as nat);
        common::lemma_positions_bound(rest2, m, (k - 1) as nat);
        let tail = common::positions(rest2, m, (k - 1) as nat);
        let later = place(rest2, (m - 1) as nat, (k - 1) as nat);
        assert(common::positions(rest, m, k) == seq![m] + tail);
        if k > 1 {
            assert(common::positions(rest, m, k)[k - 1] == tail[k - 2]);
        }
        assert forall|i: int|
            0 <= i < k && place(rest, m, k).0.len() == k implies #[trigger] common::positions(
            rest,
            m,
            k,
        )[i] == place(rest, m, k).0[i] + 1 by {
            if i > 0 {
                assert(common::positions(rest, m, k)[i] == tail[i - 1]);
                assert(place(rest, m, k).0[i] == later.0[i - 1]);
            }
        }
    } else {
        lemma_place_positions(rest, (m - 1) as nat, k);
        lemma_positions_hi(rest, (m - 1) as nat, m, k);
    }
}

/// The two decoders agree up to one step: for every index below `C(72, 7)` the walk
/// succeeds exactly when the table's last position is not zero, and it then places
/// each pulse one position below the table's.
pub proof fn law_walk_is_one_below_table(index: nat)
    requires
        index < common::binom(72, 7),
    ensures
        placed_all(index) <==> common::positions(index, 71, 7)[6] > 0,
        placed_all(index) ==> forall|i: int|
            0 <= i < 7 ==> #[trigger] common::positions(index, 71, 7)[i] == place(index, 72, 7).0[i] + 1,
{
    lemma_place_positions(index, 71, 7);
    assert(place(index, 72, 7) == place(index, 71, 7));
}

/// The walk is greedy, for every number: the first pulse stands one below the highest place
/// whose binomial is not above the number, the others below it are those of what is left.
/// Where there is no such place, nothing is placed and the number is what remains.
pub proof fn law_walk_is_greedy(index: nat, m: nat, k: nat)
    ensures
        ({
            let (ps, rest) = place(index, m, k);
            &&& k == 0 || m == 0 ==> ps.len() == 0
            &&& ps.len() == 0 ==> rest == index && (k > 0 ==> forall|p: nat|
                0 < p <= m ==> index < #[trigger] common::binom(p, k))
            &&& ps.len() > 0 ==> {
                let first = ps[0] + 1;
                &&& first <= m
                &&& common::binom(first, k) <= index
                &&& forall|p: nat| first < p <= m ==> index < #[trigger] common::binom(p, k)
                &&& (ps.drop_first(), rest) == place(
                    (index - common::binom(first, k)) as nat,
                    ps[0],
                    (k - 1) as nat,
                )
            }
        }),
    decreases m,
{
    if k > 0 && m > 0 {
        if common::binom(m, k) <= index {
            let later = place((index - common::binom(m, k)) as nat, (m - 1) as nat, (k - 1) as nat);
            assert(place(index, m, k).0.drop_first() =~= later.0);
        } else {
            law_walk_is_greedy(index, (m - 1) as nat, k);
        }
    }
}

/// What an index below `C(72, 7)` stands for. In a plain stream that still decodes, and in a
/// repacked one after the latch has set, the sum of the binomials of the seven positions is
/// the index. In a repacked stream before that, each pulse stands one place lower; where
/// one would stand below the first place, none is moved and the latch sets. A plain stream
/// that no longer decodes puts every pulse at the first place.
pub proof fn law_routed_positions_code_their_index(combined: nat, repack: bool, mode: PulseMode)
    requires
        combined < 1473109704,
    ensures
        ({
            let (ps, after) = routed(combined, repack, mode);
            let raised = Seq::new(7, |i: int| ps[i] + 1);
            &&& ps.len() == 7
            &&& !repack ==> after == mode
            &&& !repack && mode.table_decode ==> common::seven_coded_as(ps, combined)
            &&& !repack && !mode.table_decode ==> forall|i: int| 0 <= i < 7 ==> #[trigger] ps[i] == 0
            &&& repack ==> after.table_decode == mode.table_decode
            &&& repack && mode.table_latch ==> common::seven_coded_as(ps, combined)
                && after.table_latch
            &&& repack && !mode.table_latch && !after.table_latch ==> common::seven_coded_as(
                raised,
                combined,
            )
            &&& repack && !mode.table_latch && after.table_latch ==> common::seven_coded_as(
                ps,
                combined,
            ) && ps[6] == 0
        }),
{
    lemma_c72();
    assert(C72_BINOMIALS@[6] == common::binom(72, 7));
    let (ps, after) = routed(combined, repack, mode);
    let table = common::positions(combined, 71, 7);
    common::law_seven_positions_code_their_number(combined);
    law_walk_is_one_below_table(combined);
    if repack && !mode.table_latch && !after.table_latch {
        assert(Seq::new(7, |i: int| ps[i] + 1) =~= table);
    }
}

/// What an index of `C(72, 7)` or more, but below 3379081753, stands for: in a repacked stream the
/// places 70 to 64, and both flags clear; in a plain one what greedy decoding gives, as long
/// as it decodes.
pub proof fn law_indices_that_are_too_high(combined: nat, repack: bool, mode: PulseMode)
    requires
        1473109704 <= combined < 3379081753,
    ensures
        ({
            let (ps, after) = routed(combined, repack, mode);
            &&& repack ==> ps == seq![70nat, 69nat, 68nat, 67nat, 66nat, 65nat, 64nat]
            &&& repack ==> !after.table_decode && !after.table_latch
            &&& !repack ==> after == mode
            &&& !repack && mode.table_decode ==> ps == common::positions(combined, 71, 7)
            &&& !repack && !mode.table_decode ==> ps == Seq::new(7, |i: int| 0nat)
        }),
{
    lemma_c72();
    assert(C72_BINOMIALS@[6] == common::binom(72, 7));
    let (ps, after) = routed(combined, repack, mode);
    if repack {
        common::law_highest_number_codes_the_highest_positions(71, 71, 7);
        law_walk_is_one_below_table(1473109703);
        lemma_place_bound(1473109703, 72, 7);
        let table = common::positions(1473109703, 71, 7);
        assert(table == Seq::new(7, |i: int| (71 - i) as nat));
        assert(table[6] == 65);
        assert forall|i: int| 0 <= i < 7 implies #[trigger] ps[i] == 70 - i by {
            assert(table[i] == ps[i] + 1);
        }
        assert(ps =~= seq![70nat, 69nat, 68nat, 67nat, 66nat, 65nat, 64nat]);
    }
}

/// An index of 3379081753 or more stands for the places 71 to 65, whatever the stream and
/// the mode. A plain stream decodes no more after it; the latch stays as it is.
pub proof fn law_highest_indices(combined: nat, repack: bool, mode: PulseMode)
    requires
        combined >= 3379081753,
    ensures
        ({
            let (ps, after) = routed(combined, repack, mode);
            &&& ps == seq![71nat, 70nat, 69nat, 68nat, 67nat, 66nat, 65nat]
            &&& !after.table_decode
            &&& after.table_latch == mode.table_latch
        }),
{
    lemma_c72();
    assert(C72_BINOMIALS@[6] == common::binom(72, 7));
    assert(C72_BINOMIALS@[5] == common::binom(72, 6));
    assert(common::binom(71, 6) <= common::binom(72, 6));
    assert(common::binom(70, 5) <= common::binom(71, 6));
    assert(common::binom(69, 4) <= common::binom(70, 5));
    assert(common::binom(68, 3) <= common::binom(69, 4));
    assert(common::binom(67, 2) <= common::binom(68, 3));
    assert(common::binom(66, 1) <= common::binom(67, 2));
    reveal_with_fuel(place, 8);
    let ps = routed(combined, repack, mode).0;
    assert(ps =~= seq![71nat, 70nat, 69nat, 68nat, 67nat, 66nat, 65nat]);
}

/// Decodes an index with the table of binomials.
pub fn decode_pulse_pos_table(cp: u32, pulse_pos: &mut [usize; 7])
    ensures
        forall|i: int|
            0 <= i < 7 ==> #[trigger] final(pulse_pos)@[i] == common::positions(cp as nat, 71, 7)[i],
{
    let mut c: u128 = cp as u128;
    let mut pulse_idx: usize = 71;
    let mut slot: usize = 0;
    let ghost all = common::positions(cp as nat, 71, 7);
    proof {
        common::lemma_positions_bound(cp as nat, 71, 7);
    }
    while slot < 7
        invariant
            slot <= 7,
            pulse_idx <= 71,
            all.len() == 7,
            forall|j: int| 0 <= j < slot ==> #[trigger] pulse_pos@[j] == all[j],
            forall|j: int|
                0 <= j < 7 - slot ==> #[trigger] all[slot + j] == common::positions(
                    c as nat,
                    71,
                    (7 - slot) as nat,
                )[j],
            slot < 7 ==> common::top(c as nat, (7 - slot) as nat, 71) == common::top(
                c as nat,
                (7 - slot) as nat,
                pulse_idx as nat,
            ),
        decreases 7 - slot,
    {
        let pulse: usize = 7 - slot;
        let ghost start = pulse_idx as nat;
        while c < common::comb(pulse_idx, pulse)
            invariant
                0 < pulse <= 7,
                pulse_idx <= start <= 71,
                common::top(c as nat, pulse as nat, pulse_idx as nat) == common::top(
                    c as nat,
                    pulse as nat,
                    start,
                ),
            ensures
                pulse_idx <= 71,
                common::binom(pulse_idx as nat, pulse as nat) <= c,
                pulse_idx as nat == common::top(c as nat, pulse as nat, start),
            decreases pulse_idx,
        {
            pulse_idx -= 1;
        }
        proof {
            let p = pulse_idx as nat;
            let k = pulse as nat;
            let here = common::positions(c as nat, 71, k);
            let next = common::positions((c - common::binom(p, k)) as nat, 71, (k - 1) as nat);
            common::lemma_positions_bound((c - common::binom(p, k)) as nat, 71, (k - 1) as nat);
            assert(all[slot + 0] == here[0]);
            assert forall|j: int| 0 <= j < 7 - (slot + 1) implies #[trigger] all[slot + 1 + j]
                == next[j] by {
                assert(all[slot + (j + 1)] == here[j + 1]);
                assert(here[j + 1] == next[j]);
            }
            if k > 1 {
                common::lemma_top_next(c as nat, k, 71);
            }
        }
        c = c - common::comb(pulse_idx, pulse);
        pulse_pos[slot] = pulse_idx;
        slot += 1;
    }
}

/// Decodes an index by the placement walk. Succeeds only when all seven pulses are
/// placed and the rest is zero.
pub fn decode_pulse_pos_alt(cp: u32, pulse_pos: &mut [usize; 7]) -> (ok: bool)
    ensures
        ok == placed_all(cp as nat),
        forall|i: int|
            0 <= i < place(cp as nat, 72, 7).0.len() ==> #[trigger] final(pulse_pos)@[i] == place(
                cp as nat,
                72,
                7,
            ).0[i],
        forall|i: int|
            place(cp as nat, 72, 7).0.len() <= i < 6 ==> #[trigger] final(pulse_pos)@[i] == old(
                pulse_pos,
            )@[i],
        place(cp as nat, 72, 7).0.len() < 7 ==> final(pulse_pos)@[6] == 0,
{
    let mut c72: [u32; 7] = [72, 2556, 59640, 1028790, 13991544, 156238908, 1473109704];
    proof {
        lemma_c72();
        assert forall|a: int| 0 <= a < 7 implies #[trigger] c72@[a] == common::binom(
            72,
            (a + 1) as nat,
        ) by {
            assert(c72@[a] == C72_BINOMIALS@[a]);
        }
        lemma_place_bound(cp as nat, 72, 7);
    }
    pulse_pos[6] = 0;
    let mut combined: u32 = cp;
    let mut left: usize = 7;
    let mut m: usize = 72;
    let ghost all = place(cp as nat, 72, 7);
    while left > 0 && m > 0
        invariant
            left <= 7,
            m <= 72,
            all == place(cp as nat, 72, 7),
            all.0.len() <= 7,
            all.0.len() == 7 - left + place(combined as nat, m as nat, left as nat).0.len(),
            all.1 == place(combined as nat, m as nat, left as nat).1,
            forall|j: int| 0 <= j < 7 - left ==> #[trigger] pulse_pos@[j] == all.0[j],
            forall|j: int|
                0 <= j < place(combined as nat, m as nat, left as nat).0.len()
                    ==> #[trigger] all.0[7 - left + j] == place(
                    combined as nat,
                    m as nat,
                    left as nat,
                ).0[j],
            forall|j: int| 7 - left <= j < 6 ==> #[trigger] pulse_pos@[j] == old(pulse_pos)@[j],
            left > 0 ==> pulse_pos@[6] == 0,
            forall|a: int|
                0 <= a < left ==> #[trigger] c72@[a] == common::binom(m as nat, (a + 1) as nat),
        decreases m,
    {
        let ghost here = place(combined as nat, m as nat, left as nat).0;
        if c72[left - 1] <= combined {
            proof {
                let next = place(
                    (combined - common::binom(m as nat, left as nat)) as nat,
                    (m - 1) as nat,
                    (left - 1) as nat,
                ).0;
                assert(here == seq![(m - 1) as nat] + next);
                assert(all.0[7 - left + 0] == here[0]);
                assert forall|j: int| 0 <= j < next.len() implies #[trigger] all.0[7 - (left - 1)
                    + j] == next[j] by {
                    assert(all.0[7 - left + (j + 1)] == here[j + 1]);
                }
            }
            combined = combined - c72[left - 1];
            pulse_pos[7 - left] = m - 1;
            left -= 1;
        }
        if left > 0 {
            let ghost before = c72@;
            proof {
                assert(before[0] == common::binom(m as nat, 1));
                assert(common::binom(m as nat, 1) == common::binom((m - 1) as nat, 0) + common::binom((m - 1) as nat, 1));
            }
            c72[0] = c72[0] - 1;
            let mut a: usize = 0;
            while a + 1 < left
                invariant
                    a < left <= 7,
                    0 < m,
                    forall|b: int|
                        0 <= b < left ==> #[trigger] before[b] == common::binom(m as nat, (b + 1) as nat),
                    forall|b: int|
                        0 <= b <= a ==> #[trigger] c72@[b] == common::binom(
                            (m - 1) as nat,
                            (b + 1) as nat,
                        ),
                    forall|b: int| a < b < 7 ==> #[trigger] c72@[b] == before[b],
                decreases left - a,
            {
                proof {
                    assert(c72@[a + 1] == before[a + 1]);
                    assert(before[a + 1] == common::binom(m as nat, (a + 2) as nat));
                    assert(common::binom(m as nat, (a + 2) as nat) == common::binom(
                        (m - 1) as nat,
                        (a + 1) as nat,
                    ) + common::binom((m - 1) as nat, (a + 2) as nat));
                }
                c72[a + 1] = c72[a + 1] - c72[a];
                a += 1;
            }
        }
        m -= 1;
    }
    combined == 0 && left == 0
}

/// Decodes the positions of one subframe and updates the mode.
pub fn decode_pulse_positions(combined: u32, repack: bool, mode: &mut PulseMode) -> (r: [usize; 7])
    ensures
        forall|i: int|
            0 <= i < 7 ==> #[trigger] r@[i] == routed(combined as nat, repack, *old(mode)).0[i],
        *final(mode) == routed(combined as nat, repack, *old(mode)).1,
        forall|i: int| 0 <= i < 7 ==> #[trigger] r@[i] < 72,
{
    let mut pulse_pos: [usize; 7] = [0usize; 7];
    proof {
        lemma_routed_bound(combined as nat, repack, *mode);
    }
    if (combined as i64) < C72_BINOMIALS[7] {
        if repack {
            let limit: u32 = (C72_BINOMIALS[6] - 1) as u32;
            let mut cp: u32 = combined;
            if cp > limit {
                cp = limit;
                mode.table_decode = false;
                mode.table_latch = false;
            }
            if mode.table_latch {
                decode_pulse_pos_table(cp, &mut pulse_pos);
            } else {
                let mut alt: [usize; 7] = [0usize; 7];
                if decode_pulse_pos_alt(cp, &mut alt) {
                    pulse_pos = alt;
                } else {
                    mode.table_latch = true;
                    decode_pulse_pos_table(cp, &mut pulse_pos);
                }
            }
        } else if mode.table_decode {
            decode_pulse_pos_table(combined, &mut pulse_pos);
        }
    } else {
        mode.table_decode = false;
        let _complete = decode_pulse_pos_alt(combined, &mut pulse_pos);
    }
    proof {
        let ps = routed(combined as nat, repack, *old(mode)).0;
        assert forall|i: int| 0 <= i < 7 implies #[trigger] pulse_pos@[i] < 72 by {
            assert(ps[i] < 72);
        }
    }
    pulse_pos
}

} // verus!
