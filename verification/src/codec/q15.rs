//! Fixed-point building blocks: clipping, scaling and the two 14-tap filters.
//!
//! Samples and coefficients are `i64` in the code and integers in the contracts.
use vstd::arithmetic::power2::*;
use vstd::prelude::*;

verus! {

/// Samples per subframe.
pub const SUBFRAME_SIZE: usize = 72;

/// The values of an integer buffer.
pub open spec fn ints(s: Seq<i64>) -> Seq<int> {
    Seq::new(s.len(), |i: int| s[i] as int)
}

/// No value is larger than `bound` in magnitude.
pub open spec fn within(s: Seq<int>, bound: int) -> bool {
    forall|i: int| 0 <= i < s.len() ==> -bound <= #[trigger] s[i] <= bound
}

/// The magnitude of an integer.
pub open spec fn magnitude(x: int) -> int {
    if x < 0 {
        -x
    } else {
        x
    }
}

/// Clamp to the 16-bit range.
pub open spec fn clip16_of(x: int) -> int {
    if x < -32768 {
        -32768
    } else if x > 32767 {
        32767
    } else {
        x
    }
}

/// Values in the 16-bit range pass; what lies beyond becomes -32767 or 32767.
pub open spec fn clip_sinc_pcm_of(x: int) -> int {
    if -32768 <= x <= 32767 {
        x
    } else if x <= 0 {
        -32767
    } else {
        32767
    }
}

/// `a + b * c` with `b` in Q15, rounded.
pub open spec fn formula_of(a: int, b: int, c: int) -> int {
    (a * 32768 + b * c + 16384) / 32768
}

/// Multiplication by a power of two; a negative power divides and rounds down.
pub open spec fn shifted(x: int, bits: int) -> int {
    if bits >= 0 {
        x * pow2(bits as nat)
    } else {
        x / (pow2((-bits) as nat) as int)
    }
}

/// `shifted` of each value.
pub open spec fn scaled(s: Seq<int>, bits: int) -> Seq<int> {
    Seq::new(s.len(), |i: int| shifted(s[i], bits))
}

pub proof fn lemma_mul_within(a: int, b: int, x: int, y: int)
    requires
        -x <= a <= x,
        -y <= b <= y,
    ensures
        -(x * y) <= a * b <= x * y,
{
    assert(-(x * y) <= a * b <= x * y) by (nonlinear_arith)
        requires
            -x <= a <= x,
            -y <= b <= y,
    ;
}

proof fn lemma_halve(x: int, d: int)
    requires
        d > 0,
    ensures
        (x / d) / 2 == x / (2 * d),
{
    let q = x / (2 * d);
    let r = x % (2 * d);
    assert(x == 2 * d * q + r && 0 <= r < 2 * d) by (nonlinear_arith)
        requires
            d > 0,
            q == x / (2 * d),
            r == x % (2 * d),
    ;
    if r < d {
        assert(x / d == 2 * q) by (nonlinear_arith)
            requires
                x == 2 * d * q + r,
                0 <= r < d,
        ;
    } else {
        assert(x / d == 2 * q + 1) by (nonlinear_arith)
            requires
                x == 2 * d * q + r,
                d <= r < 2 * d,
        ;
    }
}

/// An arithmetic right shift divides and rounds down.
pub proof fn lemma_shr(x: i64, n: u32)
    requires
        n < 63,
    ensures
        x >> n == x as int / (pow2(n as nat) as int),
    decreases n,
{
    if n == 0 {
        lemma2_to64();
        assert(x >> n == x) by (bit_vector)
            requires
                n == 0,
        ;
    } else {
        let m = (n - 1) as u32;
        lemma_shr(x, m);
        lemma_pow2_pos(m as nat);
        lemma_pow2_unfold(n as nat);
        let y = x >> m;
        assert(x >> n == (x >> m) >> 1) by (bit_vector)
            requires
                n < 63,
                m + 1 == n,
        ;
        assert(y >> 1 == y as int / 2) by (bit_vector);
        lemma_halve(x as int, pow2(m as nat) as int);
        assert(x >> n == (x as int / (pow2(m as nat) as int)) / 2);
    }
}

/// A left shift multiplies as long as the result is in range.
pub proof fn lemma_shl(x: i64, n: u32)
    requires
        n <= 15,
        -0x4_0000 <= x <= 0x4_0000,
    ensures
        x << n == x * pow2(n as nat),
        -0x4_0000 * pow2(n as nat) <= x << n <= 0x4_0000 * pow2(n as nat),
        pow2(n as nat) <= 32768,
    decreases n,
{
    lemma2_to64();
    if n < 15 {
        lemma_pow2_strictly_increases(n as nat, 15);
    }
    if n == 0 {
        assert(x << n == x) by (bit_vector)
            requires
                n == 0,
        ;
        assert(x * pow2(0) == x);
    } else {
        let m = (n - 1) as u32;
        lemma_shl(x, m);
        lemma_pow2_unfold(n as nat);
        let y = x << m;
        assert(x << n == (x << m) << 1) by (bit_vector)
            requires
                n < 63,
                m + 1 == n,
        ;
        assert(y << 1 == y * 2) by (bit_vector)
            requires
                -0x4000_0000_0000 <= y <= 0x4000_0000_0000,
        ;
        let p = pow2(m as nat) as int;
        assert((x * p) * 2 == x * (2 * p)) by (nonlinear_arith);
    }
}

/// Scaling keeps a buffer within the scaled bound.
pub proof fn lemma_scaled_within(s: Seq<int>, bits: int, bound: int)
    requires
        within(s, bound),
        bound >= 0,
    ensures
        bits >= 0 ==> within(scaled(s, bits), bound * pow2(bits as nat)),
        bits < 0 ==> within(scaled(s, bits), bound),
{
    let out = scaled(s, bits);
    if bits >= 0 {
        let p = pow2(bits as nat) as int;
        lemma_pow2_pos(bits as nat);
        assert forall|i: int| 0 <= i < out.len() implies -(bound * p) <= #[trigger] out[i] <= bound
            * p by {
            let v = s[i];
            assert(-(bound * p) <= v * p <= bound * p) by (nonlinear_arith)
                requires
                    -bound <= v <= bound,
                    p > 0,
            ;
        }
    } else {
        let p = pow2((-bits) as nat) as int;
        lemma_pow2_pos((-bits) as nat);
        assert forall|i: int| 0 <= i < out.len() implies -bound <= #[trigger] out[i] <= bound by {
            let v = s[i];
            assert(-bound <= v / p <= bound) by (nonlinear_arith)
                requires
                    -bound <= v <= bound,
                    bound >= 0,
                    p > 0,
            ;
        }
    }
}

/// Clamp to the 16-bit range.
pub fn clip16(x: i64) -> (r: i64)
    ensures
        r == clip16_of(x as int),
{
    if x < -32768 {
        -32768
    } else if x > 32767 {
        32767
    } else {
        x
    }
}

/// Values in the 16-bit range pass, -32768 among them; anything beyond becomes
/// 32767 or -32767. This is the codec's internal clip.
pub fn clip_sinc_pcm(x: i64) -> (r: i64)
    ensures
        r == clip_sinc_pcm_of(x as int),
{
    if -32768 <= x && x <= 32767 {
        x
    } else if x <= 0 {
        -32767
    } else {
        32767
    }
}

/// `((a * 32768 + b * c) + 16384) >> 15`.
pub fn formula(a: i64, b: i64, c: i64) -> (r: i64)
    requires
        -0x8000_0000 <= a <= 0x8000_0000,
        -0x8000_0000 <= b <= 0x8000_0000,
        -0x4000_0000 <= c <= 0x4000_0000,
    ensures
        r == formula_of(a as int, b as int, c as int),
{
    proof {
        lemma_mul_within(b as int, c as int, 0x8000_0000, 0x4000_0000);
    }
    let sum: i64 = (a * 32768 + b * c) + 16384;
    proof {
        lemma_shr(sum, 15);
        lemma2_to64();
    }
    sum >> 15
}

/// Multiplies every value by a power of two, or divides it.
pub fn scale_vec<const N: usize>(vec: &mut [i64; N], bits: i32)
    requires
        -15 <= bits <= 15,
        bits > 0 ==> within(ints(old(vec)@), 0x4_0000),
    ensures
        ints(final(vec)@) == scaled(ints(old(vec)@), bits as int),
{
    let ghost old_s = ints(vec@);
    if bits < 0 {
        let shift: u32 = (-bits) as u32;
        let mut i: usize = 0;
        while i < N
            invariant
                i <= N,
                vec@.len() == N,
                shift == -bits,
                -15 <= bits < 0,
                old_s == ints(old(vec)@),
                forall|j: int| 0 <= j < i ==> #[trigger] vec@[j] == shifted(old_s[j], bits as int),
                forall|j: int| i <= j < N ==> #[trigger] vec@[j] == old_s[j],
            decreases N - i,
        {
            let v: i64 = vec[i];
            proof {
                lemma_shr(v, shift);
            }
            vec[i] = v >> shift;
            i += 1;
        }
    } else if bits > 0 {
        let shift: u32 = bits as u32;
        let mut i: usize = 0;
        while i < N
            invariant
                i <= N,
                vec@.len() == N,
                shift == bits,
                0 < bits <= 15,
                old_s == ints(old(vec)@),
                within(old_s, 0x4_0000),
                old_s.len() == N,
                forall|j: int| 0 <= j < i ==> #[trigger] vec@[j] == shifted(old_s[j], bits as int),
                forall|j: int| i <= j < N ==> #[trigger] vec@[j] == old_s[j],
            decreases N - i,
        {
            let v: i64 = vec[i];
            proof {
                assert(v == old_s[i as int]);
                lemma_shl(v, shift);
            }
            vec[i] = v << shift;
            i += 1;
        }
    } else {
        proof {
            lemma2_to64();
            assert forall|j: int| 0 <= j < N implies shifted(old_s[j], 0) == old_s[j] by {
                assert(old_s[j] * 1 == old_s[j]);
            }
        }
    }
    assert(ints(vec@) =~= scaled(old_s, bits as int));
}

/// A coefficient set weighted by a Q15 table; the first coefficient is kept.
pub open spec fn weighted(c: Seq<int>, w: Seq<i16>) -> Seq<int> {
    Seq::new(
        15,
        |i: int|
            if i == 0 {
                c[0]
            } else {
                (c[i] * w[i] + 0x4000) / 32768
            },
    )
}

/// Weights the coefficients `1..15` by a Q15 table.
pub fn vec_mult(src: &[i64; 15], mult: &[i16; 15]) -> (dst: [i64; 15])
    requires
        within(ints(src@), 32768),
    ensures
        ints(dst@) == weighted(ints(src@), mult@),
        within(ints(dst@), 32768),
{
    let mut dst: [i64; 15] = [0i64; 15];
    dst[0] = src[0];
    let mut i: usize = 1;
    let ghost c = ints(src@);
    assert(src@[0] == c[0]);
    while i < 15
        invariant
            1 <= i <= 15,
            c == ints(src@),
            within(c, 32768),
            forall|j: int|
                0 <= j < i ==> #[trigger] dst@[j] == weighted(c, mult@)[j] && -32768 <= dst@[j]
                    <= 32768,
        decreases 15 - i,
    {
        proof {
            assert(src@[i as int] == c[i as int]);
            lemma_mul_within(c[i as int], mult@[i as int] as int, 32768, 32768);
        }
        let sum: i64 = src[i] * (mult[i] as i64) + 0x4000;
        proof {
            lemma_shr(sum, 15);
            lemma2_to64();
        }
        dst[i] = sum >> 15;
        i += 1;
    }
    assert(ints(dst@) =~= weighted(c, mult@));
    dst
}

/// The value `i` steps before the next output of a filter: one of the outputs `y`
/// so far, or one of the values `hist` kept from before (`hist[1]` the latest).
pub open spec fn past(y: Seq<int>, hist: Seq<int>, i: int) -> int {
    if i <= y.len() {
        y[y.len() - i]
    } else {
        hist[i - y.len()]
    }
}

/// The filter memory after the outputs `y`: entry `i` is the value `i` steps back.
pub open spec fn memory(y: Seq<int>, hist: Seq<int>) -> Seq<int> {
    Seq::new(
        15,
        |i: int|
            if i == 0 {
                hist[0]
            } else {
                past(y, hist, i)
            },
    )
}

/// The sum of `c[j] * h[j]` for `j` from `i` to 14.
pub open spec fn taps(c: Seq<int>, h: Seq<int>, i: int) -> int
    decreases 15 - i,
{
    if i >= 15 {
        0
    } else {
        h[i] * c[i] + taps(c, h, i + 1)
    }
}

/// The first `n` outputs of the recursive filter: each is the input times `c[0]`
/// less the weighted sum of the last 14 outputs, divided by `d`, rounded and clipped.
pub open spec fn all_pole(c: Seq<int>, d: int, hist: Seq<int>, x: Seq<int>, n: nat) -> Seq<int>
    decreases n,
{
    if n == 0 {
        Seq::empty()
    } else {
        let y = all_pole(c, d, hist, x, (n - 1) as nat);
        y.push(
            clip_sinc_pcm_of(
                (x[n - 1] * c[0] - taps(c, memory(y, hist), 1) + 4096) / d,
            ),
        )
    }
}

/// The memory of the moving-average filter when input `n` comes in: entry `i` is
/// the input `i` steps back.
pub open spec fn inputs(hist: Seq<int>, x: Seq<int>, n: int) -> Seq<int> {
    Seq::new(
        15,
        |i: int|
            if i <= n {
                x[n - i]
            } else {
                hist[i - n]
            },
    )
}

/// Output `n` of the moving-average filter: the weighted sum of the last 15 inputs,
/// divided by `d`, rounded and clipped.
pub open spec fn all_zero_at(c: Seq<int>, d: int, hist: Seq<int>, x: Seq<int>, n: int) -> int {
    clip_sinc_pcm_of((taps(c, inputs(hist, x, n), 0) + 4096) / d)
}

/// The outputs of the moving-average filter.
pub open spec fn all_zero(c: Seq<int>, d: int, hist: Seq<int>, x: Seq<int>) -> Seq<int> {
    Seq::new(x.len(), |n: int| all_zero_at(c, d, hist, x, n))
}

/// The memory of the moving-average filter after the inputs `x`: entry 0 is the last
/// input, entry `i` the input `i` from the end.
pub open spec fn inputs_after(x: Seq<int>) -> Seq<int> {
    Seq::new(
        15,
        |i: int|
            if i == 0 {
                x[x.len() - 1]
            } else {
                x[x.len() - i]
            },
    )
}

pub proof fn lemma_all_pole(c: Seq<int>, d: int, hist: Seq<int>, x: Seq<int>, n: nat)
    ensures
        all_pole(c, d, hist, x, n).len() == n,
        within(all_pole(c, d, hist, x, n), 32768),
    decreases n,
{
    if n > 0 {
        lemma_all_pole(c, d, hist, x, (n - 1) as nat);
    }
}

/// The divisor that goes with a filter: 4096 when its coefficients are halved.
pub open spec fn divisor(halved: bool) -> int {
    if halved {
        4096
    } else {
        8192
    }
}

/// Divides by the divisor, rounding down.
fn descale(x: i64, halved: bool) -> (r: i64)
    ensures
        r == x as int / divisor(halved),
{
    proof {
        lemma2_to64();
        lemma_shr(x, 12);
        lemma_shr(x, 13);
    }
    if halved {
        x >> 12
    } else {
        x >> 13
    }
}

/// Moves every value of a filter memory one step back.
fn age(buf: &mut [i64; 15])
    ensures
        final(buf)@[0] == old(buf)@[0],
        forall|j: int| 1 <= j < 15 ==> #[trigger] final(buf)@[j] == old(buf)@[j - 1],
{
    let mut i: usize = 14;
    while i >= 1
        invariant
            i <= 14,
            forall|j: int| 0 <= j <= i ==> #[trigger] buf@[j] == old(buf)@[j],
            forall|j: int| i < j < 15 ==> #[trigger] buf@[j] == old(buf)@[j - 1],
        decreases i,
    {
        buf[i] = buf[i - 1];
        i -= 1;
    }
}

/// Runs the recursive filter over a subframe, in place.
pub fn shift_sq_sub(
    filter: &[i64; 15],
    halved: bool,
    err: &mut [i64; 15],
    v: &mut [i64; SUBFRAME_SIZE],
)
    requires
        within(ints(filter@), 32768),
        within(ints(old(err)@), 0x4000_0000),
        within(ints(old(v)@), 0x4_0000),
    ensures
        ints(final(v)@) == all_pole(
            ints(filter@),
            divisor(halved),
            ints(old(err)@),
            ints(old(v)@),
            72,
        ),
        ints(final(err)@) == memory(ints(final(v)@), ints(old(err)@)),
        within(ints(final(v)@), 32768),
{
    let ghost c = ints(filter@);
    let ghost d = divisor(halved);
    let ghost hist = ints(err@);
    let ghost x = ints(v@);
    let mut a: usize = 0;
    assert(memory(Seq::empty(), hist) =~= hist);
    while a < SUBFRAME_SIZE
        invariant
            a <= 72,
            c == ints(filter@),
            d == divisor(halved),
            hist.len() == 15,
            x.len() == 72,
            within(c, 32768),
            within(hist, 0x4000_0000),
            within(x, 0x4_0000),
            all_pole(c, d, hist, x, a as nat).len() == a,
            forall|j: int| 0 <= j < a ==> #[trigger] v@[j] == all_pole(c, d, hist, x, a as nat)[j],
            forall|j: int| a <= j < 72 ==> #[trigger] v@[j] == x[j],
            ints(err@) == memory(all_pole(c, d, hist, x, a as nat), hist),
        decreases 72 - a,
    {
        let ghost y = all_pole(c, d, hist, x, a as nat);
        let ghost h = memory(y, hist);
        proof {
            lemma_all_pole(c, d, hist, x, a as nat);
            assert(filter@[0] == c[0]);
            lemma_mul_within(x[a as int], c[0], 0x4_0000, 32768);
            assert forall|i: int| 0 <= i < 15 implies -0x4000_0000 <= #[trigger] h[i]
                <= 0x4000_0000 by {
                if i > 0 && i <= y.len() {
                    assert(h[i] == y[y.len() - i]);
                } else if i > 0 {
                    assert(h[i] == hist[i - y.len()]);
                }
            }
        }
        let mut tmp: i64 = v[a] * filter[0];
        let mut i: usize = 14;
        while i >= 1
            invariant
                i <= 14,
                a < 72,
                c == ints(filter@),
                h == ints(err@),
                h.len() == 15,
                within(c, 32768),
                within(h, 0x4000_0000),
                tmp == x[a as int] * c[0] - taps(c, h, i + 1),
                -0x2_0000_0000 - (14 - i) * 0x2000_0000_0000 <= tmp <= 0x2_0000_0000 + (14 - i)
                    * 0x2000_0000_0000,
            decreases i,
        {
            proof {
                assert(err@[i as int] == h[i as int]);
                assert(filter@[i as int] == c[i as int]);
                lemma_mul_within(h[i as int], c[i as int], 0x4000_0000, 32768);
            }
            tmp = tmp - err[i] * filter[i];
            i -= 1;
        }
        age(err);
        tmp = descale(tmp + 4096, halved);
        err[1] = clip_sinc_pcm(tmp);
        v[a] = clip_sinc_pcm(tmp);
        proof {
            let y2 = all_pole(c, d, hist, x, (a + 1) as nat);
            assert(y2 == y.push(v@[a as int] as int));
            assert forall|j: int| 0 <= j < 15 implies ints(err@)[j] == memory(y2, hist)[j] by {
                if j == 0 {
                    assert(h[0] == hist[0]);
                } else if j >= 2 {
                    assert(ints(err@)[j] == h[j - 1]);
                    assert(h[j - 1] == past(y, hist, j - 1));
                    assert(past(y2, hist, j) == past(y, hist, j - 1));
                }
            }
            assert(ints(err@) =~= memory(y2, hist));
        }
        a += 1;
    }
    proof {
        lemma_all_pole(c, d, hist, x, 72);
        assert(ints(v@) =~= all_pole(c, d, hist, x, 72));
    }
}

/// Runs the moving-average filter over a subframe, in place.
pub fn shift_sq_add(
    filter: &[i64; 15],
    halved: bool,
    audio: &mut [i64; 15],
    v: &mut [i64; SUBFRAME_SIZE],
)
    requires
        within(ints(filter@), 32768),
        within(ints(old(audio)@), 0x4000_0000),
        within(ints(old(v)@), 0x4000_0000),
    ensures
        ints(final(v)@) == all_zero(
            ints(filter@),
            divisor(halved),
            ints(old(audio)@),
            ints(old(v)@),
        ),
        ints(final(audio)@) == inputs_after(ints(old(v)@)),
        within(ints(final(v)@), 32768),
{
    let ghost c = ints(filter@);
    let ghost d = divisor(halved);
    let ghost hist = ints(audio@);
    let ghost x = ints(v@);
    let mut a: usize = 0;
    while a < SUBFRAME_SIZE
        invariant
            a <= 72,
            c == ints(filter@),
            d == divisor(halved),
            hist.len() == 15,
            x.len() == 72,
            within(c, 32768),
            within(hist, 0x4000_0000),
            within(x, 0x4000_0000),
            forall|j: int|
                0 <= j < a ==> #[trigger] v@[j] == all_zero_at(c, d, hist, x, j) && -32768 <= v@[j]
                    <= 32768,
            forall|j: int| a <= j < 72 ==> #[trigger] v@[j] == x[j],
            forall|i: int|
                1 <= i < 15 ==> #[trigger] audio@[i] == (if i <= a {
                    x[a - i]
                } else {
                    hist[i - a]
                }),
            a > 0 ==> audio@[0] == x[a - 1],
        decreases 72 - a,
    {
        audio[0] = v[a];
        let ghost h = inputs(hist, x, a as int);
        proof {
            assert(ints(audio@) =~= h);
            assert forall|i: int| 0 <= i < 15 implies -0x4000_0000 <= #[trigger] h[i]
                <= 0x4000_0000 by {
                if i <= a {
                    assert(h[i] == x[a - i]);
                } else {
                    assert(h[i] == hist[i - a]);
                }
            }
        }
        let mut tmp: i64 = 0;
        let mut i: usize = 15;
        while i > 0
            invariant
                i <= 15,
                c == ints(filter@),
                h == ints(audio@),
                h.len() == 15,
                within(c, 32768),
                within(h, 0x4000_0000),
                tmp == taps(c, h, i as int),
                -((15 - i) * 0x2000_0000_0000) <= tmp <= (15 - i) * 0x2000_0000_0000,
            decreases i,
        {
            i -= 1;
            proof {
                assert(audio@[i as int] == h[i as int]);
                assert(filter@[i as int] == c[i as int]);
                lemma_mul_within(h[i as int], c[i as int], 0x4000_0000, 32768);
            }
            tmp = tmp + audio[i] * filter[i];
        }
        proof {
            assert forall|i: int| 0 <= i < 15 implies #[trigger] audio@[i] == h[i] by {
                assert(ints(audio@)[i] == h[i]);
            }
        }
        age(audio);
        tmp = descale(tmp + 4096, halved);
        v[a] = clip_sinc_pcm(tmp);
        a += 1;
    }
    proof {
        assert(ints(v@) =~= all_zero(c, d, hist, x));
        assert(ints(audio@) =~= inputs_after(x));
    }
}

} // verus!
