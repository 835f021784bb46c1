//! What holds of the DSS SP decoder: of what its packets say, of each stage of the
//! synthesis, and of the packets of a recording.
use crate::bitstream;
use crate::codec::ds2_laws;
use crate::codec::dss_sp;
use crate::codec::dss_sp::{Drive, SpState, SynthState};
use crate::codec::grundig_laws;
use crate::codec::pulses;
use crate::codec::pulses::PulseMode;
use crate::codec::q15;
use crate::codec::writing;
use crate::tables::dss_sp::{
    ADAPTIVE_GAIN, BINARY_DECREASING, FILTER_CB, FIXED_CB_GAIN, PULSE_VAL, SINC, UNC_DECREASING,
};
use vstd::arithmetic::power2::*;
use vstd::prelude::*;

verus! {

// ---------------------------------------------------------------- numbers

/// `r` is `x / d`, rounded down.
pub open spec fn is_floor(r: int, x: int, d: int) -> bool {
    r * d <= x < (r + 1) * d
}

/// `r` is `x` where that fits 16 bits, and otherwise the end of the range at its side; with
/// `soft`, the lower end is -32767.
pub open spec fn is_clip(r: int, x: int, soft: bool) -> bool {
    &&& -32768 <= x <= 32767 ==> r == x
    &&& x > 32767 ==> r == 32767
    &&& x < -32768 ==> r == (if soft {
        -32767int
    } else {
        -32768int
    })
}

/// `r` is `x / d`, rounded down and clipped.
pub open spec fn is_clipped_floor(r: int, x: int, d: int, soft: bool) -> bool {
    exists|q: int| #[trigger] is_floor(q, x, d) && is_clip(r, q, soft)
}

proof fn lemma_floor(x: int, d: int)
    requires
        d > 0,
    ensures
        is_floor(x / d, x, d),
{
    let q = x / d;
    assert(q * d <= x < (q + 1) * d) by (nonlinear_arith)
        requires
            d > 0,
            q == x / d,
    ;
}

/// The clips: what fits 16 bits passes, what does not becomes the end of the range at its
/// side. The clip inside the decoder has its lower end at -32767.
pub proof fn law_clips_keep_what_fits(x: int)
    ensures
        is_clip(q15::clip16_of(x), x, false),
        is_clip(q15::clip_sinc_pcm_of(x), x, true),
        is_clip(dss_sp::output_clip(true, x), x, true),
        is_clip(dss_sp::output_clip(false, x), x, false),
{
}

/// Products in Q15 are rounded to the nearest.
pub proof fn law_products_are_rounded(a: int, b: int, c: int)
    ensures
        is_floor(q15::formula_of(a, b, c), 32768 * a + b * c + 16384, 32768),
{
    lemma_floor(a * 32768 + b * c + 16384, 32768);
}

/// Scaling multiplies every value by a power of two, or divides it by one and rounds down.
pub proof fn law_scaling_is_by_powers_of_two(s: Seq<int>, bits: int, i: int)
    requires
        0 <= i < s.len(),
    ensures
        q15::scaled(s, bits).len() == s.len(),
        bits >= 0 ==> q15::scaled(s, bits)[i] == s[i] * pow2(bits as nat),
        bits < 0 ==> is_floor(q15::scaled(s, bits)[i], s[i], pow2((-bits) as nat) as int),
{
    if bits < 0 {
        lemma_pow2_pos((-bits) as nat);
        lemma_floor(s[i], pow2((-bits) as nat) as int);
    }
}

// ---------------------------------------------------------------- what a packet says

/// A packet says what was written into it: the reflection coefficients and gains are those
/// of the indices written, a pulse is as high as its gain times its amplitude, rounded, and
/// the pitch and the pulses are those of the numbers written.
pub proof fn law_packets_say_what_was_written(
    values: Seq<nat>,
    pkt: Seq<u8>,
    repack: bool,
    mode: PulseMode,
    j: int,
)
    requires
        writing::fit(values, ds2_laws::sp_widths()),
        writing::in_words(pkt, writing::written(values, ds2_laws::sp_widths())),
        0 <= j < 4,
    ensures
        dss_sp::reflections(pkt).len() == 14,
        forall|i: int|
            0 <= i < 14 ==> #[trigger] dss_sp::reflections(pkt)[i]
                == FILTER_CB@[i]@[values[i] as int],
        ({
            let d = dss_sp::drive(pkt, repack, mode, j);
            &&& d.gain == ADAPTIVE_GAIN@[values[14 + 10 * j] as int]
            &&& dss_sp::combined_pulses(pkt, j) == values[15 + 10 * j]
            &&& d.lag == dss_sp::pitch_lag(values[54], j)
            &&& d.heights.len() == 7
            &&& forall|i: int|
                0 <= i < 7 ==> is_floor(
                    #[trigger] d.heights[i],
                    FIXED_CB_GAIN@[values[16 + 10 * j] as int] * PULSE_VAL@[values[17 + 10 * j + i]
                        as int] + 16384,
                    32768,
                )
        }),
{
    ds2_laws::lemma_reads(values, ds2_laws::sp_widths(), pkt);
    lemma_packet(values, pkt, repack, mode, j);
}

#[verifier::rlimit(40)]
proof fn lemma_packet(values: Seq<nat>, pkt: Seq<u8>, repack: bool, mode: PulseMode, j: int)
    requires
        values.len() == 55,
        ds2_laws::reads(values, ds2_laws::sp_widths(), pkt),
        0 <= j < 4,
    ensures
        forall|i: int|
            0 <= i < 14 ==> #[trigger] dss_sp::reflections(pkt)[i]
                == FILTER_CB@[i]@[values[i] as int],
        ({
            let d = dss_sp::drive(pkt, repack, mode, j);
            &&& d.gain == ADAPTIVE_GAIN@[values[14 + 10 * j] as int]
            &&& dss_sp::combined_pulses(pkt, j) == values[15 + 10 * j]
            &&& d.lag == dss_sp::pitch_lag(values[54], j)
            &&& forall|i: int|
                0 <= i < 7 ==> is_floor(
                    #[trigger] d.heights[i],
                    FIXED_CB_GAIN@[values[16 + 10 * j] as int] * PULSE_VAL@[values[17 + 10 * j + i]
                        as int] + 16384,
                    32768,
                )
        }),
{
    assert forall|i: int| 0 <= i < 14 implies #[trigger] dss_sp::reflections(pkt)[i]
        == FILTER_CB@[i]@[values[i] as int] by {
        ds2_laws::lemma_sp_start(i);
    }
    let start = (52 + 63 * j) as nat;
    ds2_laws::lemma_sp_start(14 + 10 * j);
    ds2_laws::lemma_sp_start(15 + 10 * j);
    ds2_laws::lemma_sp_start(16 + 10 * j);
    ds2_laws::lemma_sp_start(54);
    assert(values[14 + 10 * j] == bitstream::field(pkt, start, 5));
    assert(values[15 + 10 * j] == bitstream::field(pkt, start + 5, 31));
    assert(values[16 + 10 * j] == bitstream::field(pkt, start + 36, 6));
    assert(values[54] == bitstream::field(pkt, 304, 24));
    let d = dss_sp::drive(pkt, repack, mode, j);
    assert forall|i: int| 0 <= i < 7 implies is_floor(
        #[trigger] d.heights[i],
        FIXED_CB_GAIN@[values[16 + 10 * j] as int] * PULSE_VAL@[values[17 + 10 * j + i] as int]
            + 16384,
        32768,
    ) by {
        ds2_laws::lemma_sp_start(17 + 10 * j + i);
        assert(values[17 + 10 * j + i] == bitstream::field(pkt, (start + 42 + 3 * i) as nat, 3));
        lemma_floor(
            FIXED_CB_GAIN@[values[16 + 10 * j] as int] * PULSE_VAL@[values[17 + 10 * j + i] as int]
                + 16384,
            32768,
        );
    }
}

/// The pitch lags of a DSS packet undo writing their codes into one number, the first in
/// base 151 and the others in base 48: the first lag is the first code from 36 on, each
/// later one its code from the start of its window on. A last code above 47 counts as 47.
pub proof fn law_lags_undo_writing(a: nat, b: nat, c: nat, d: nat)
    requires
        a < 151,
        b < 48,
        c < 48,
    ensures
        ({
            let n = a + 151 * (b + 48 * (c + 48 * d));
            &&& dss_sp::pitch_lag(n, 0) == 36 + a
            &&& dss_sp::pitch_lag(n, 1) == b + grundig_laws::window(
                dss_sp::pitch_lag(n, 0) as int,
            )
            &&& dss_sp::pitch_lag(n, 2) == c + grundig_laws::window(
                dss_sp::pitch_lag(n, 1) as int,
            )
            &&& d <= 47 ==> dss_sp::pitch_lag(n, 3) == d + grundig_laws::window(
                dss_sp::pitch_lag(n, 2) as int,
            )
            &&& d > 47 ==> dss_sp::pitch_lag(n, 3) == 47 + grundig_laws::window(
                dss_sp::pitch_lag(n, 2) as int,
            )
        }),
{
    let n = a + 151 * (b + 48 * (c + 48 * d));
    assert(n / 151 == b + 48 * (c + 48 * d));
    assert(n / 151 / 48 == c + 48 * d);
    assert(n / 151 / 48 / 48 == d);
    reveal_with_fuel(dss_sp::pitch_lag, 4);
}

/// The pulse mode passes from subframe to subframe: each is routed in the mode that the one
/// before left.
pub proof fn law_modes_pass_on(pkt: Seq<u8>, repack: bool, mode: PulseMode, j: int)
    requires
        0 <= j < 4,
    ensures
        dss_sp::mode_before(pkt, repack, mode, 0) == mode,
        (dss_sp::drive(pkt, repack, mode, j).at, dss_sp::mode_before(pkt, repack, mode, j + 1))
            == pulses::routed(
            dss_sp::combined_pulses(pkt, j),
            repack,
            dss_sp::mode_before(pkt, repack, mode, j),
        ),
{
}

// ---------------------------------------------------------------- filter coefficients

/// The recursion from reflection to filter coefficients: it starts with unity alone; step
/// `n` brings in the reflection as the new last coefficient, divided and rounded down, and
/// to every coefficient between adds the reflection times the coefficient opposite, rounded
/// and clipped.
pub proof fn law_coefficients_follow_the_recursion(
    refl: Seq<int>,
    one: int,
    d: int,
    n: nat,
    i: int,
)
    requires
        d > 0,
        0 < n <= 14,
        0 <= i < 15,
    ensures
        ({
            let f = dss_sp::levinson(refl, one, d, (n - 1) as nat);
            let g = dss_sp::levinson(refl, one, d, n);
            &&& dss_sp::levinson(refl, one, d, 0)[i] == (if i == 0 {
                one
            } else {
                0
            })
            &&& g.len() == 15
            &&& i == 0 || i > n ==> g[i] == f[i]
            &&& i == n ==> is_floor(g[i], refl[n - 1], d)
            &&& 0 < i < n ==> is_clipped_floor(
                g[i],
                32768 * f[i] + refl[n - 1] * f[n - i] + 16384,
                32768,
                false,
            )
        }),
{
    let f = dss_sp::levinson(refl, one, d, (n - 1) as nat);
    let k = refl[n - 1];
    lemma_floor(k, d);
    if 0 < i < n {
        law_products_are_rounded(f[i], k, f[n - i]);
        assert(is_floor(
            q15::formula_of(f[i], k, f[n - i]),
            32768 * f[i] + k * f[n - i] + 16384,
            32768,
        ));
    }
}

/// The coefficients of a frame are at full precision, unity 0x2000, unless one of them
/// leaves the 16-bit range before it is clipped; then they are at half of it.
pub proof fn law_precision_is_halved_on_overflow(refl: Seq<int>, n: nat, i: int)
    requires
        0 < i < n <= 14,
    ensures
        !dss_sp::halved(refl) ==> ({
            let f = dss_sp::levinson(refl, 0x2000, 4, (n - 1) as nat);
            -32768 <= q15::formula_of(f[i], refl[n - 1], f[n - i]) <= 32767
        }),
        dss_sp::frame_filter(refl) == (if dss_sp::halved(refl) {
            dss_sp::levinson(refl, 0x1000, 8, 14)
        } else {
            dss_sp::levinson(refl, 0x2000, 4, 14)
        }),
        q15::divisor(dss_sp::halved(refl)) == (if dss_sp::halved(refl) {
            0x1000int
        } else {
            0x2000int
        }),
{
    if !dss_sp::halved(refl) {
        lemma_no_overflow(refl, n, 14, i);
    }
}

proof fn lemma_no_overflow(refl: Seq<int>, n: nat, to: nat, i: int)
    requires
        0 < i < n <= to,
        !dss_sp::levinson_overflows(refl, 0x2000, 4, to),
    ensures
        !dss_sp::overflows(
            dss_sp::levinson_raw(
                dss_sp::levinson(refl, 0x2000, 4, (n - 1) as nat),
                n - 1,
                refl[n - 1],
                i,
            ),
        ),
    decreases to,
{
    if n < to {
        lemma_no_overflow(refl, n, (to - 1) as nat, i);
    } else {
        assert(!dss_sp::step_overflows(
            dss_sp::levinson(refl, 0x2000, 4, (n - 1) as nat),
            n - 1,
            refl[n - 1],
        ));
    }
}

/// Precision is halved only where some coefficient does leave the range.
pub proof fn law_only_overflow_halves_precision(refl: Seq<int>) -> (r: (nat, int))
    requires
        dss_sp::halved(refl),
    ensures
        ({
            let (n, i) = r;
            let f = dss_sp::levinson(refl, 0x2000, 4, (n - 1) as nat);
            let x = q15::formula_of(f[i], refl[n - 1], f[n - i]);
            &&& 0 < i < n <= 14
            &&& x < -32768 || x > 32767
        }),
{
    lemma_overflow_at(refl, 14)
}

proof fn lemma_overflow_at(refl: Seq<int>, to: nat) -> (r: (nat, int))
    requires
        dss_sp::levinson_overflows(refl, 0x2000, 4, to),
    ensures
        ({
            let (n, i) = r;
            let f = dss_sp::levinson(refl, 0x2000, 4, (n - 1) as nat);
            let x = q15::formula_of(f[i], refl[n - 1], f[n - i]);
            &&& 0 < i < n <= to
            &&& x < -32768 || x > 32767
        }),
    decreases to,
{
    let f = dss_sp::levinson(refl, 0x2000, 4, (to - 1) as nat);
    if dss_sp::step_overflows(f, to - 1, refl[to - 1]) {
        let i = choose|i: int|
            1 <= i <= to - 1 && dss_sp::overflows(
                #[trigger] dss_sp::levinson_raw(f, to - 1, refl[to - 1], i),
            );
        (to, i)
    } else {
        lemma_overflow_at(refl, (to - 1) as nat)
    }
}

// ---------------------------------------------------------------- excitation

/// The pitch contribution repeats at the lag, and its first period is the history of the
/// last lag, oldest first, times the gain, rounded down and clipped.
pub proof fn law_pitch_contribution_repeats(history: Seq<int>, lag: nat, gain: int, i: int)
    requires
        0 < lag,
        0 <= i < 72,
    ensures
        ({
            let x = dss_sp::adaptive(history, lag, gain);
            &&& x.len() == 72
            &&& i >= lag ==> x[i] == x[i - lag]
            &&& i < lag ==> is_clipped_floor(x[i], gain * history[lag - i], 2048, true)
        }),
{
    ds2_laws::lemma_repeats(lag as int, i);
    if i < lag {
        lemma_floor(gain * history[lag - i], 2048);
        assert(is_floor((gain * history[lag - i]) / 2048, gain * history[lag - i], 2048));
    }
}

/// The height of a pulse, where it stands at `p`.
pub open spec fn height_at(at: Seq<nat>, heights: Seq<int>, k: int, p: int) -> int {
    if at[k] == p {
        heights[k]
    } else {
        0
    }
}

/// Each sample of the excitation is the pitch contribution and the heights of all pulses
/// that stand there.
pub proof fn law_pulses_add_up(x: Seq<int>, at: Seq<nat>, heights: Seq<int>, p: int)
    requires
        0 <= p < x.len(),
        forall|k: int| 0 <= k < 7 ==> #[trigger] at[k] < x.len(),
    ensures
        dss_sp::with_pulses(x, at, heights, 7).len() == x.len(),
        dss_sp::with_pulses(x, at, heights, 7)[p] == x[p] + height_at(at, heights, 0, p)
            + height_at(at, heights, 1, p) + height_at(at, heights, 2, p) + height_at(
            at,
            heights,
            3,
            p,
        ) + height_at(at, heights, 4, p) + height_at(at, heights, 5, p) + height_at(
            at,
            heights,
            6,
            p,
        ),
{
    lemma_pulse(x, at, heights, 1, p);
    lemma_pulse(x, at, heights, 2, p);
    lemma_pulse(x, at, heights, 3, p);
    lemma_pulse(x, at, heights, 4, p);
    lemma_pulse(x, at, heights, 5, p);
    lemma_pulse(x, at, heights, 6, p);
    lemma_pulse(x, at, heights, 7, p);
    assert(dss_sp::with_pulses(x, at, heights, 0) == x);
}

proof fn lemma_pulse(x: Seq<int>, at: Seq<nat>, heights: Seq<int>, n: int, p: int)
    requires
        0 <= p < x.len(),
        0 < n <= 7,
        forall|k: int| 0 <= k < 7 ==> #[trigger] at[k] < x.len(),
    ensures
        dss_sp::with_pulses(x, at, heights, n).len() == x.len(),
        dss_sp::with_pulses(x, at, heights, n)[p] == dss_sp::with_pulses(
            x,
            at,
            heights,
            n - 1,
        )[p] + height_at(at, heights, n - 1, p),
    decreases n,
{
    assert(at[n - 1] < x.len());
    if n > 1 {
        lemma_pulse(x, at, heights, n - 1, p);
    } else {
        assert(dss_sp::with_pulses(x, at, heights, 0) == x);
    }
}

/// The history moves on by a subframe: the new excitation comes in reversed behind its first
/// entry, and what was there moves back by 72.
pub proof fn law_history_moves_on(history: Seq<int>, x: Seq<int>, i: int)
    requires
        0 <= i,
    ensures
        dss_sp::history_after(history, x).len() == 187,
        dss_sp::history_after(history, x)[0] == history[0],
        i < 72 ==> dss_sp::history_after(history, x)[72 - i] == x[i],
        0 < i < 115 ==> dss_sp::history_after(history, x)[72 + i] == history[i],
{
}

// ---------------------------------------------------------------- filters

/// The sum of `c[k] * v[k]` for `k` from `from` up to, and without, `to`.
pub open spec fn products(c: Seq<int>, v: Seq<int>, from: int, to: int) -> int
    decreases to - from,
{
    if to <= from {
        0
    } else {
        products(c, v, from, to - 1) + c[to - 1] * v[to - 1]
    }
}

proof fn lemma_taps(c: Seq<int>, v: Seq<int>, from: int, i: int)
    requires
        0 <= from <= i <= 15,
    ensures
        products(c, v, from, i) + q15::taps(c, v, i) == q15::taps(c, v, from),
    decreases i - from,
{
    if i > from {
        lemma_taps(c, v, from, i - 1);
        assert(c[i - 1] * v[i - 1] == v[i - 1] * c[i - 1]) by (nonlinear_arith);
    }
}

/// The outputs of the recursive filter before output `n`, newest first, from entry 1 on:
/// its own outputs, and behind them its memory.
pub open spec fn outputs_before(y: Seq<int>, hist: Seq<int>, n: int) -> Seq<int> {
    Seq::new(
        15,
        |k: int|
            if k <= n {
                y[n - k]
            } else {
                hist[k - n]
            },
    )
}

/// The recursive filter solves its difference equation: each output is the input times the
/// first coefficient, less the other coefficients times the 14 outputs before it, divided,
/// rounded and clipped. What it leaves in its memory are its last outputs.
pub proof fn law_recursive_filter_solves_its_equation(
    c: Seq<int>,
    d: int,
    hist: Seq<int>,
    x: Seq<int>,
    len: nat,
    n: int,
)
    requires
        d > 0,
        0 <= n < len,
    ensures
        ({
            let y = q15::all_pole(c, d, hist, x, len);
            &&& y.len() == len
            &&& is_clipped_floor(
                y[n],
                c[0] * x[n] - products(c, outputs_before(y, hist, n), 1, 15) + 4096,
                d,
                true,
            )
        }),
    decreases len,
{
    let y = q15::all_pole(c, d, hist, x, len);
    q15::lemma_all_pole(c, d, hist, x, len);
    let before = q15::all_pole(c, d, hist, x, (len - 1) as nat);
    q15::lemma_all_pole(c, d, hist, x, (len - 1) as nat);
    if n < len - 1 {
        law_recursive_filter_solves_its_equation(c, d, hist, x, (len - 1) as nat, n);
        assert(outputs_before(y, hist, n) =~= outputs_before(before, hist, n)) by {
            assert forall|k: int| 0 <= k < 15 implies outputs_before(y, hist, n)[k]
                == outputs_before(before, hist, n)[k] by {}
        }
        assert(y[n] == before[n]);
    } else {
        let v = q15::memory(before, hist);
        let w = outputs_before(y, hist, n);
        lemma_taps(c, v, 1, 15);
        lemma_same_products(c, v, w, 1, 15);
        let sum = x[n] * c[0] - q15::taps(c, v, 1) + 4096;
        assert(x[n] * c[0] == c[0] * x[n]) by (nonlinear_arith);
        lemma_floor(sum, d);
        assert(is_floor(sum / d, sum, d) && is_clip(y[n], sum / d, true));
    }
}

proof fn lemma_same_products(c: Seq<int>, v: Seq<int>, w: Seq<int>, from: int, to: int)
    requires
        forall|k: int| from <= k < to ==> #[trigger] v[k] == w[k],
    ensures
        products(c, v, from, to) == products(c, w, from, to),
    decreases to - from,
{
    if from < to {
        lemma_same_products(c, v, w, from, to - 1);
        assert(v[to - 1] == w[to - 1]);
    }
}

/// The inputs of the moving-average filter up to input `n`, newest first: its own inputs,
/// and behind them its memory.
pub open spec fn inputs_until(x: Seq<int>, hist: Seq<int>, n: int) -> Seq<int> {
    Seq::new(
        15,
        |k: int|
            if k <= n {
                x[n - k]
            } else {
                hist[k - n]
            },
    )
}

/// The moving-average filter gives for each input the coefficients times the last 15
/// inputs, divided, rounded and clipped.
pub proof fn law_moving_average_filter_sums_its_inputs(
    c: Seq<int>,
    d: int,
    hist: Seq<int>,
    x: Seq<int>,
    n: int,
)
    requires
        d > 0,
        0 <= n < x.len(),
    ensures
        q15::all_zero(c, d, hist, x).len() == x.len(),
        is_clipped_floor(
            q15::all_zero(c, d, hist, x)[n],
            products(c, inputs_until(x, hist, n), 0, 15) + 4096,
            d,
            true,
        ),
{
    let v = q15::inputs(hist, x, n);
    let w = inputs_until(x, hist, n);
    lemma_taps(c, v, 0, 15);
    lemma_same_products(c, v, w, 0, 15);
    let sum = q15::taps(c, v, 0) + 4096;
    lemma_floor(sum, d);
    assert(is_floor(sum / d, sum, d) && is_clip(q15::all_zero(c, d, hist, x)[n], sum / d, true));
}

/// What the filters leave in their memories for the next subframe: the last 14 outputs, or
/// inputs, newest first from entry 1 on.
pub proof fn law_memories_hold_the_last_values(y: Seq<int>, hist: Seq<int>, k: int)
    requires
        y.len() == 72,
        1 <= k < 15,
    ensures
        q15::memory(y, hist).len() == 15,
        q15::memory(y, hist)[k] == y[72 - k],
        q15::inputs_after(y).len() == 15,
        q15::inputs_after(y)[k] == y[72 - k],
        q15::memory(y, hist)[0] == hist[0],
        q15::inputs_after(y)[0] == y[71],
{
}

/// Weighting keeps the first coefficient and multiplies the others by the table, in Q15 and
/// rounded.
pub proof fn law_weights_are_rounded_products(c: Seq<int>, w: Seq<i16>, i: int)
    requires
        0 < i < 15,
    ensures
        q15::weighted(c, w).len() == 15,
        q15::weighted(c, w)[0] == c[0],
        is_floor(q15::weighted(c, w)[i], c[i] * w[i] + 16384, 32768),
{
    lemma_floor(c[i] * w[i] + 0x4000, 32768);
}

// ---------------------------------------------------------------- scaling and noise

/// The headroom of a number is the least number of doublings that takes it above 0x4000.
pub proof fn law_headroom_is_the_least_that_does(v: nat)
    requires
        0 < v <= 0x8000,
    ensures
        v * pow2(dss_sp::doublings(v)) > 0x4000,
        dss_sp::doublings(v) > 0 ==> v * pow2((dss_sp::doublings(v) - 1) as nat) <= 0x4000,
    decreases 0x8001 - v,
{
    lemma2_to64();
    let h = dss_sp::doublings(v);
    if v > 0x4000 {
        assert(v * 1 == v);
    } else {
        law_headroom_is_the_least_that_does(2 * v);
        let g = dss_sp::doublings(2 * v);
        lemma_pow2_unfold(h);
        let p = pow2(g) as int;
        assert(v * (2 * p) == (2 * v) * p) by (nonlinear_arith);
        if g == 0 {
            assert(v * 1 == v);
        } else {
            lemma_pow2_unfold(g);
            let q = pow2((g - 1) as nat) as int;
            assert(v * (2 * q) == (2 * v) * q) by (nonlinear_arith);
        }
    }
}

proof fn lemma_or(a: u32, b: u32, t: u32)
    requires
        t < 32,
        a >> t == 0,
        b >> t == 0,
    ensures
        (a | b) >> t == 0,
        a <= (a | b),
        b <= (a | b),
{
    assert((a | b) >> t == 0 && a <= (a | b) && b <= (a | b)) by (bit_vector)
        requires
            t < 32,
            a >> t == 0,
            b >> t == 0,
    ;
}

/// What the headroom of a subframe is taken from is at least one and at least every
/// magnitude, and needs no more bits than the largest of them.
pub proof fn law_headroom_covers_every_sample(x: Seq<int>, n: int, t: u32)
    requires
        0 <= n <= x.len(),
        0 < t < 32,
        forall|i: int| 0 <= i < n ==> q15::magnitude(#[trigger] x[i]) < pow2(t as nat),
    ensures
        1 <= dss_sp::abs_or(x, n) < pow2(t as nat),
        forall|i: int| 0 <= i < n ==> q15::magnitude(#[trigger] x[i]) <= dss_sp::abs_or(x, n),
    decreases n,
{
    lemma2_to64();
    lemma_pow2_strictly_increases(t as nat, 32);
    if n == 0 {
        lemma_pow2_strictly_increases(0, t as nat);
    } else {
        law_headroom_covers_every_sample(x, n - 1, t);
        let a = dss_sp::abs_or(x, n - 1);
        let b = q15::magnitude(x[n - 1]) as u32;
        assert(q15::magnitude(x[n - 1]) < pow2(t as nat));
        lemma_small_shift(a, t);
        lemma_small_shift(b, t);
        lemma_or(a, b, t);
        lemma_small_shift(a | b, t);
    }
}

proof fn lemma_small_shift(a: u32, t: u32)
    requires
        t < 32,
    ensures
        a >> t == 0 <==> a < pow2(t as nat),
{
    vstd::bits::lemma_u32_shr_is_div(a, t);
    lemma_pow2_pos(t as nat);
    let p = pow2(t as nat) as int;
    let q = a as int / p;
    assert(q == 0 <==> a < p) by (nonlinear_arith)
        requires
            p > 0,
            q == a as int / p,
            a >= 0,
    ;
}

/// The energy of a subframe is the sum of the magnitudes of its samples.
pub proof fn law_energy_adds_up(x: Seq<int>, n: int)
    requires
        0 <= n,
    ensures
        dss_sp::abs_sum(x, 0) == 0,
        dss_sp::abs_sum(x, n + 1) - dss_sp::abs_sum(x, n) == (if x[n] >= 0 {
            x[n]
        } else {
            -x[n]
        }),
        dss_sp::headroom(x) == dss_sp::doublings(dss_sp::abs_or(x, 72) as nat),
{
}

/// `v` comes after `prev` in the envelope of a subframe with the energies `above` before and
/// `below` after the filters.
pub open spec fn is_envelope_value(v: int, prev: int, above: int, below: int) -> bool {
    exists|ratio: int, level: int| #[trigger]
        is_floor(ratio, 2048 * above, below) && #[trigger] is_floor(level, 409 * ratio, 32768)
            && is_clipped_floor(v, 32768 * level + 32358 * prev, 32768, true)
}

/// The noise envelope falls off towards its bias: each value is the bias and 32358 / 32768
/// of the value before, and the bias is 409 / 32768 of the ratio of the energies before and
/// after the filters, the first at most 0xFFFFF and the second at least 0x40.
pub proof fn law_envelope_follows_the_energies(x: Seq<int>, w: Seq<int>, noise: int, i: int)
    requires
        0 <= i < 72,
    ensures
        ({
            let e = dss_sp::subframe_envelope(x, w, noise);
            let sum = dss_sp::abs_sum(x, 72);
            let above = if sum < 0xFFFFF {
                sum
            } else {
                0xFFFFF
            };
            let below = if dss_sp::abs_sum(w, 72) > 0x40 {
                dss_sp::abs_sum(w, 72)
            } else {
                0x40
            };
            let prev = if i == 0 {
                noise
            } else {
                e[i - 1]
            };
            &&& e.len() == 72
            &&& is_envelope_value(e[i], prev, above, below)
        }),
{
    let e = dss_sp::subframe_envelope(x, w, noise);
    let sum = dss_sp::abs_sum(x, 72);
    let above = if sum < 0xFFFFF {
        sum
    } else {
        0xFFFFF
    };
    let below = if dss_sp::abs_sum(w, 72) > 0x40 {
        dss_sp::abs_sum(w, 72)
    } else {
        0x40
    };
    let ratio = dss_sp::energy_ratio(above, dss_sp::abs_sum(w, 72));
    let level = (409 * ratio) / 32768;
    lemma_floor(2048 * above, below);
    lemma_floor(409 * ratio, 32768);
    lemma_envelope_step(level * 32768, noise, 72, i);
    assert(is_floor(ratio, 2048 * above, below));
    assert(is_floor(level, 409 * ratio, 32768));
}

proof fn lemma_envelope_step(bias: int, start: int, n: nat, i: int)
    requires
        0 <= i < n,
    ensures
        dss_sp::envelope(bias, start, n).len() == n,
        is_clipped_floor(
            dss_sp::envelope(bias, start, n)[i],
            bias + 32358 * (if i == 0 {
                start
            } else {
                dss_sp::envelope(bias, start, n)[i - 1]
            }),
            32768,
            true,
        ),
    decreases n,
{
    let e = dss_sp::envelope(bias, start, (n - 1) as nat);
    lemma_envelope_len(bias, start, (n - 1) as nat);
    if i < n - 1 {
        lemma_envelope_step(bias, start, (n - 1) as nat, i);
    } else {
        let prev = if n == 1 {
            start
        } else {
            e[n - 2]
        };
        lemma_floor(bias + 32358 * prev, 32768);
        assert(is_floor((bias + 32358 * prev) / 32768, bias + 32358 * prev, 32768));
    }
}

proof fn lemma_envelope_len(bias: int, start: int, n: nat)
    ensures
        dss_sp::envelope(bias, start, n).len() == n,
    decreases n,
{
    if n > 0 {
        lemma_envelope_len(bias, start, (n - 1) as nat);
    }
}

/// The tilt takes from each sample half of the first reflection times the sample before it,
/// where that reflection is negative.
pub proof fn law_tilt_subtracts_the_sample_before(z: Seq<int>, refl0: int, before: int, i: int)
    requires
        0 <= i < 72,
    ensures
        refl0 >= 0 ==> dss_sp::tilt_of(refl0) == 0,
        refl0 < 0 ==> is_floor(dss_sp::tilt_of(refl0), refl0, 2),
        dss_sp::tilted(z, dss_sp::tilt_of(refl0), before).len() == 72,
        is_clipped_floor(
            dss_sp::tilted(z, dss_sp::tilt_of(refl0), before)[i],
            32768 * z[i] + dss_sp::tilt_of(refl0) * (if i == 0 {
                before
            } else {
                z[i - 1]
            }) + 16384,
            32768,
            true,
        ),
{
    let tilt = dss_sp::tilt_of(refl0);
    let prev = if i == 0 {
        before
    } else {
        z[i - 1]
    };
    law_products_are_rounded(z[i], tilt, prev);
    assert(is_floor(q15::formula_of(z[i], tilt, prev), 32768 * z[i] + tilt * prev + 16384, 32768));
}

/// Each sample of a subframe is its filtered value times its noise value, in Q11, rounded
/// down and clipped.
pub proof fn law_noise_modulates_every_sample(w: Seq<int>, e: Seq<int>, repack: bool, i: int)
    requires
        0 <= i < 72,
    ensures
        dss_sp::subframe_output(w, e, repack).len() == 72,
        is_clipped_floor(dss_sp::subframe_output(w, e, repack)[i], w[i] * e[i], 2048, repack),
{
    lemma_floor(w[i] * e[i], 2048);
    assert(is_floor((w[i] * e[i]) / 2048, w[i] * e[i], 2048));
}

// ---------------------------------------------------------------- subframes and packets

/// How the stages make up a subframe. Pitch contribution and pulses excite the recursive
/// filter; what comes out, scaled up, passes the moving-average filter with one set of
/// weights and the recursive one with the other, is tilted and scaled down, and is
/// modulated with noise. Each memory is left as its own stage leaves it.
pub proof fn law_stages_make_up_a_subframe(
    s: SynthState,
    f: Seq<int>,
    d: int,
    refl0: int,
    repack: bool,
    dr: Drive,
)
    ensures
        ({
            let (after, out) = dss_sp::subframe(s, f, d, refl0, repack, dr);
            let exc = dss_sp::with_pulses(
                dss_sp::adaptive(s.history, dr.lag, dr.gain),
                dr.at,
                dr.heights,
                7,
            );
            let x = q15::all_pole(f, d, s.err2, exc, 72);
            let up = dss_sp::headroom(x);
            let loud = q15::scaled(x, up - 3);
            let audio = q15::scaled(s.audio, up);
            let err1 = q15::scaled(s.err1, up);
            let y = q15::all_zero(q15::weighted(f, BINARY_DECREASING@), d, audio, loud);
            let z = q15::all_pole(q15::weighted(f, UNC_DECREASING@), d, err1, y, 72);
            let w = q15::scaled(dss_sp::tilted(z, dss_sp::tilt_of(refl0), err1[1]), -up);
            let e = dss_sp::subframe_envelope(x, w, s.noise);
            &&& out == dss_sp::subframe_output(w, e, repack)
            &&& after.history == dss_sp::history_after(s.history, exc)
            &&& after.err2 == q15::memory(x, s.err2)
            &&& after.audio == q15::scaled(q15::inputs_after(loud), -up)
            &&& after.err1 == q15::scaled(q15::memory(z, err1), -up)
            &&& after.noise == e[71]
        }),
{
    reveal(dss_sp::subframe);
}

/// A packet is four subframes in turn, all with the filter of its reflections, each with
/// its own drive and from the memories that the one before left; its samples are theirs one
/// after another.
pub proof fn law_packets_are_four_subframes(
    s: SynthState,
    pkt: Seq<u8>,
    repack: bool,
    mode: PulseMode,
)
    ensures
        ({
            let refl = dss_sp::reflections(pkt);
            let f = dss_sp::frame_filter(refl);
            let d = q15::divisor(dss_sp::halved(refl));
            let a = dss_sp::subframe(
                s,
                f,
                d,
                refl[0],
                repack,
                dss_sp::drive(pkt, repack, mode, 0),
            );
            let b = dss_sp::subframe(
                a.0,
                f,
                d,
                refl[0],
                repack,
                dss_sp::drive(pkt, repack, mode, 1),
            );
            let c = dss_sp::subframe(
                b.0,
                f,
                d,
                refl[0],
                repack,
                dss_sp::drive(pkt, repack, mode, 2),
            );
            let e = dss_sp::subframe(
                c.0,
                f,
                d,
                refl[0],
                repack,
                dss_sp::drive(pkt, repack, mode, 3),
            );
            &&& dss_sp::subframes(s, pkt, repack, mode, 4).0 == e.0
            &&& dss_sp::subframes(s, pkt, repack, mode, 4).1 == a.1 + b.1 + c.1 + e.1
            &&& dss_sp::subframes(s, pkt, repack, mode, 4).1.len() == 288
        }),
{
    let refl = dss_sp::reflections(pkt);
    let f = dss_sp::frame_filter(refl);
    let d = q15::divisor(dss_sp::halved(refl));
    let d0 = dss_sp::drive(pkt, repack, mode, 0);
    let d1 = dss_sp::drive(pkt, repack, mode, 1);
    let d2 = dss_sp::drive(pkt, repack, mode, 2);
    let d3 = dss_sp::drive(pkt, repack, mode, 3);
    let a = dss_sp::subframe(s, f, d, refl[0], repack, d0);
    let b = dss_sp::subframe(a.0, f, d, refl[0], repack, d1);
    let c = dss_sp::subframe(b.0, f, d, refl[0], repack, d2);
    dss_sp::law_subframe_samples_fit_16_bits(s, f, d, refl[0], repack, d0);
    dss_sp::law_subframe_samples_fit_16_bits(a.0, f, d, refl[0], repack, d1);
    dss_sp::law_subframe_samples_fit_16_bits(b.0, f, d, refl[0], repack, d2);
    dss_sp::law_subframe_samples_fit_16_bits(c.0, f, d, refl[0], repack, d3);
    assert(dss_sp::subframes(s, pkt, repack, mode, 0) == (s, Seq::<int>::empty()));
    assert(Seq::<int>::empty() + a.1 =~= a.1);
    assert(dss_sp::subframes(s, pkt, repack, mode, 1) == a);
    assert(dss_sp::subframes(s, pkt, repack, mode, 2) == (b.0, a.1 + b.1));
    assert(dss_sp::subframes(s, pkt, repack, mode, 3) == (c.0, a.1 + b.1 + c.1));
}

/// The six products that output sample `k` of the sinc filter sums: the input at
/// `6 + k + k / 11` and the five before it, with every eleventh tap from the phase on.
pub open spec fn sinc_products(x: Seq<int>, k: int) -> int {
    let at = 6 + k + k / 11;
    let phase = k % 11;
    x[at] * SINC@[phase] + x[at - 1] * SINC@[phase + 11] + x[at - 2] * SINC@[phase + 22] + x[at - 3]
        * SINC@[phase + 33] + x[at - 4] * SINC@[phase + 44] + x[at - 5] * SINC@[phase + 55]
}

/// Every packet, whatever its number, gives 264 samples: each is the sinc interpolation of
/// the six samples kept from the packet before and the 288 synthesised ones, rounded down
/// and clipped; the last six of those are kept in turn.
pub proof fn law_packets_are_resampled(s: SpState, pkt: Seq<u8>, k: int)
    requires
        s.tail.len() == 6,
        0 <= k < 264,
    ensures
        ({
            let repack = dss_sp::is_repacked(dss_sp::comb_after(s, pkt), pkt);
            let made = dss_sp::subframes(s.synth, pkt, repack, s.mode, 4).1;
            let out = dss_sp::frame_output(s, pkt);
            &&& out.len() == 264
            &&& is_clipped_floor(out[k], sinc_products(s.tail + made, k), 32768, repack)
            &&& dss_sp::state_after(s, pkt).tail == made.subrange(282, 288)
        }),
{
    let repack = dss_sp::is_repacked(dss_sp::comb_after(s, pkt), pkt);
    law_packets_are_four_subframes(s.synth, pkt, repack, s.mode);
    let made = dss_sp::subframes(s.synth, pkt, repack, s.mode, 4).1;
    let x = s.tail + made;
    reveal_with_fuel(dss_sp::sinc_sum, 7);
    assert(dss_sp::sinc_sum(x, k, 6) == sinc_products(x, k));
    lemma_floor(sinc_products(x, k), 32768);
    assert(is_floor(sinc_products(x, k) / 32768, sinc_products(x, k), 32768));
    assert(dss_sp::state_after(s, pkt).tail =~= made.subrange(282, 288));
}

/// Packets after the first are decoded alike: two decoders that differ only in how many
/// packets they have decoded, both more than none, give the same samples and are left the
/// same but for that number.
pub proof fn law_packets_after_the_first_are_decoded_alike(s: SpState, t: SpState, pkt: Seq<u8>)
    requires
        s.frames > 0,
        t.frames > 0,
        t == (SpState { frames: t.frames, ..s }),
    ensures
        dss_sp::frame_output(s, pkt) == dss_sp::frame_output(t, pkt),
        dss_sp::state_after(t, pkt) == (SpState {
            frames: t.frames + 1,
            ..dss_sp::state_after(s, pkt)
        }),
        dss_sp::state_after(s, pkt).frames == s.frames + 1,
{
}

/// The first packet is decoded like a later one of the stream that it opens: a combinatorial
/// one where its first byte has its top and its lowest bit set. All packets of any other
/// stream are repacked, those of a combinatorial one where their second byte has its top bit
/// set; and the stream stays what it is.
pub proof fn law_the_first_packet_opens_the_stream(s: SpState, pkt: Seq<u8>, later: SpState)
    requires
        pkt.len() >= 2,
        s.frames == 0,
        later == (SpState {
            frames: 1,
            comb_stream: pkt[0] >= 128 && pkt[0] % 2 == 1,
            ..s
        }),
    ensures
        dss_sp::frame_output(s, pkt) == dss_sp::frame_output(later, pkt),
        dss_sp::state_after(s, pkt) == (SpState { frames: 1, ..dss_sp::state_after(later, pkt) }),
        dss_sp::state_after(later, pkt).comb_stream == later.comb_stream,
        dss_sp::is_repacked(later.comb_stream, pkt) == (!later.comb_stream || pkt[1] >= 128),
{
    let a = pkt[0];
    let b = pkt[1];
    assert(((a & 0x80) != 0 && (a & 1) != 0) == (a >= 128 && a % 2 == 1)) by (bit_vector);
    assert(((b >> 7) & 1 != 0) == (b >= 128)) by (bit_vector);
    assert(dss_sp::comb_after(s, pkt) == dss_sp::comb_after(later, pkt));
}

/// The memories, the mode and the stream flag after a packet are those that its subframes
/// leave.
pub proof fn law_state_after_a_packet(s: SpState, pkt: Seq<u8>)
    ensures
        ({
            let comb = dss_sp::comb_after(s, pkt);
            let repack = dss_sp::is_repacked(comb, pkt);
            let after = dss_sp::state_after(s, pkt);
            &&& after.synth == dss_sp::subframes(s.synth, pkt, repack, s.mode, 4).0
            &&& after.mode == dss_sp::mode_before(pkt, repack, s.mode, 4)
            &&& after.comb_stream == comb
            &&& s.frames > 0 ==> comb == s.comb_stream
        }),
{
}

/// A decoder starts from silence: nothing in its memories, and the pulse mode that decodes.
pub proof fn law_decoders_start_from_silence(i: int)
    ensures
        ({
            let s = dss_sp::initial_state();
            &&& s.frames == 0 && !s.comb_stream
            &&& s.mode.table_decode && !s.mode.table_latch
            &&& s.synth.noise == 0
            &&& 0 <= i < 187 ==> s.synth.history[i] == 0
            &&& 0 <= i < 15 ==> s.synth.err2[i] == 0 && s.synth.audio[i] == 0 && s.synth.err1[i]
                == 0
            &&& 0 <= i < 6 ==> s.tail[i] == 0
        }),
{
}

} // verus!
