//! The combinatorial number system in which pulse positions are coded.
//!
//! A set of `k` distinct positions `p_k > ... > p_1` is coded as the number
//! `C(p_k, k) + ... + C(p_1, 1)`. Decoding is greedy: the largest position
//! whose binomial still fits comes first.
use vstd::arithmetic::power2::*;
use vstd::prelude::*;

verus! {

/// The binomial coefficient "n over k", by Pascal's rule.
pub open spec fn binom(n: nat, k: nat) -> nat
    decreases n,
{
    if k == 0 {
        1
    } else if n == 0 {
        0
    } else {
        binom((n - 1) as nat, (k - 1) as nat) + binom((n - 1) as nat, k)
    }
}

/// The largest position `p <= hi` with `binom(p, k) <= rest`.
pub open spec fn top(rest: nat, k: nat, hi: nat) -> nat
    decreases hi,
{
    if hi == 0 || binom(hi, k) <= rest {
        hi
    } else {
        top(rest, k, (hi - 1) as nat)
    }
}

/// The `k` positions that `rest` stands for, each at most `hi`, in the order in
/// which they are decoded (largest first).
pub open spec fn positions(rest: nat, hi: nat, k: nat) -> Seq<nat>
    decreases k,
{
    if k == 0 {
        Seq::empty()
    } else {
        let p = top(rest, k, hi);
        seq![p] + positions((rest - binom(p, k)) as nat, hi, (k - 1) as nat)
    }
}

/// The number that codes a list of positions: the first counts `C(p, len)`, the
/// last `C(p, 1)`.
pub open spec fn rank(ps: Seq<nat>) -> nat
    decreases ps.len(),
{
    if ps.len() == 0 {
        0
    } else {
        binom(ps[0], ps.len()) + rank(ps.drop_first())
    }
}

pub proof fn lemma_binom_zero(n: nat, k: nat)
    requires
        n < k,
    ensures
        binom(n, k) == 0,
    decreases n,
{
    if n > 0 {
        lemma_binom_zero((n - 1) as nat, (k - 1) as nat);
        lemma_binom_zero((n - 1) as nat, k);
    }
}

pub proof fn lemma_binom_mono(n: nat, m: nat, k: nat)
    requires
        n <= m,
    ensures
        binom(n, k) <= binom(m, k),
    decreases m,
{
    if n < m {
        lemma_binom_mono(n, (m - 1) as nat, k);
    }
}

/// `C(n, k) * (n - k) == C(n, k + 1) * (k + 1)`.
pub proof fn lemma_binom_next(n: nat, k: nat)
    requires
        k <= n,
    ensures
        binom(n, k) * (n - k) == binom(n, k + 1) * (k + 1),
    decreases n,
{
    let (l, r) = (binom(n, k) as int, binom(n, k + 1) as int);
    if k == n {
        lemma_binom_zero(n, k + 1);
        assert(l * (n - k) == r * (k + 1)) by (nonlinear_arith)
            requires
                n == k,
                r == 0,
        ;
    } else {
        let b = binom((n - 1) as nat, k) as int;
        let c = binom((n - 1) as nat, k + 1) as int;
        lemma_binom_next((n - 1) as nat, k);
        assert(r == b + c);
        assert(r * (k + 1) == b * n) by (nonlinear_arith)
            requires
                r == b + c,
                b * ((n - 1) - k) == c * (k + 1),
        ;
        if k > 0 {
            let a = binom((n - 1) as nat, (k - 1) as nat) as int;
            lemma_binom_next((n - 1) as nat, (k - 1) as nat);
            assert(l * (n - k) == b * n) by (nonlinear_arith)
                requires
                    l == a + b,
                    a * ((n - 1) - (k - 1)) == b * (k - 1 + 1),
            ;
        } else {
            assert(l * (n - k) == b * n) by (nonlinear_arith)
                requires
                    l == b,
                    k == 0,
            ;
        }
    }
}

pub proof fn lemma_binom_pow2(n: nat, k: nat)
    ensures
        binom(n, k) <= pow2(n),
    decreases n,
{
    lemma_pow2_pos(n);
    if n > 0 && k > 0 {
        lemma_binom_pow2((n - 1) as nat, (k - 1) as nat);
        lemma_binom_pow2((n - 1) as nat, k);
        lemma_pow2_unfold(n);
    }
}

pub proof fn lemma_top(rest: nat, k: nat, hi: nat)
    requires
        k > 0,
    ensures
        top(rest, k, hi) <= hi,
        binom(top(rest, k, hi), k) <= rest,
        forall|p: nat| top(rest, k, hi) < p <= hi ==> rest < #[trigger] binom(p, k),
    decreases hi,
{
    if hi != 0 && binom(hi, k) > rest {
        lemma_top(rest, k, (hi - 1) as nat);
    }
}

/// A position that satisfies the two conditions of `top` is `top`.
pub proof fn lemma_top_unique(rest: nat, k: nat, hi: nat, p: nat)
    requires
        k > 0,
        p <= hi,
        binom(p, k) <= rest,
        p == hi || rest < binom(p + 1, k),
    ensures
        top(rest, k, hi) == p,
{
    lemma_top(rest, k, hi);
    let t = top(rest, k, hi);
    if t < p {
        assert(rest < binom(p, k));
    } else if p < t {
        lemma_binom_mono(p + 1, t, k);
    }
}

/// After `p` is taken out of `rest`, the next position is the same whether it is
/// sought from `hi` or from `p` downwards.
pub proof fn lemma_top_next(rest: nat, k: nat, hi: nat)
    requires
        k > 1,
    ensures
        ({
            let p = top(rest, k, hi);
            top((rest - binom(p, k)) as nat, (k - 1) as nat, hi) == top(
                (rest - binom(p, k)) as nat,
                (k - 1) as nat,
                p,
            )
        }),
{
    let p = top(rest, k, hi);
    lemma_top(rest, k, hi);
    let rest2 = (rest - binom(p, k)) as nat;
    let q = top(rest2, (k - 1) as nat, p);
    lemma_top(rest2, (k - 1) as nat, p);
    if p < hi {
        assert(rest < binom(p + 1, k));
        assert(binom(p + 1, k) == binom(p, (k - 1) as nat) + binom(p, k));
        assert(rest2 < binom(p, (k - 1) as nat));
        assert(q < p);
        assert(rest2 < binom(q + 1, (k - 1) as nat));
        lemma_top_unique(rest2, (k - 1) as nat, hi, q);
    }
}

/// `positions` has `k` entries, none above `hi`.
pub proof fn lemma_positions_bound(rest: nat, hi: nat, k: nat)
    ensures
        positions(rest, hi, k).len() == k,
        forall|i: int| 0 <= i < k ==> #[trigger] positions(rest, hi, k)[i] <= hi,
    decreases k,
{
    if k > 0 {
        lemma_top(rest, k, hi);
        let p = top(rest, k, hi);
        lemma_positions_bound((rest - binom(p, k)) as nat, hi, (k - 1) as nat);
        let tail = positions((rest - binom(p, k)) as nat, hi, (k - 1) as nat);
        assert forall|i: int| 0 <= i < k implies #[trigger] positions(rest, hi, k)[i] <= hi by {
            if i > 0 {
                assert(positions(rest, hi, k)[i] == tail[i - 1]);
            }
        }
    }
}

/// Each position lies below the one before it.
pub open spec fn descending(ps: Seq<nat>) -> bool {
    forall|i: int, j: int| 0 <= i < j < ps.len() ==> ps[j] < ps[i]
}

/// Decoding is the inverse of coding: for every number below `C(hi + 1, k)` the
/// decoded positions are strictly descending, none is above `hi`, and they code
/// that number.
pub proof fn law_decode_inverts_rank(index: nat, hi: nat, k: nat)
    requires
        index < binom(hi + 1, k),
    ensures
        positions(index, hi, k).len() == k,
        descending(positions(index, hi, k)),
        forall|i: int| 0 <= i < k ==> #[trigger] positions(index, hi, k)[i] <= hi,
        rank(positions(index, hi, k)) == index,
    decreases k,
{
    lemma_positions_bound(index, hi, k);
    if k > 0 {
        let all = positions(index, hi, k);
        let p = top(index, k, hi);
        lemma_top(index, k, hi);
        let rest = (index - binom(p, k)) as nat;
        let tail = positions(rest, hi, (k - 1) as nat);
        assert(all.drop_first() =~= tail);
        assert(index < binom(p + 1, k));
        assert(rest < binom(p, (k - 1) as nat));
        if k > 1 {
            lemma_binom_mono(p, hi + 1, (k - 1) as nat);
            law_decode_inverts_rank(rest, hi, (k - 1) as nat);
            let q = top(rest, (k - 1) as nat, hi);
            lemma_top(rest, (k - 1) as nat, hi);
            if q >= p {
                lemma_binom_mono(p, q, (k - 1) as nat);
            }
            assert(tail[0] == q);
            assert forall|i: int, j: int| 0 <= i < j < all.len() implies all[j] < all[i] by {
                assert(all[j] == tail[j - 1]);
                if i > 0 {
                    assert(all[i] == tail[i - 1]);
                }
            }
        }
    }
}

/// Binomials by Pascal's triangle: ones at its left side, nothing right of its right side,
/// and each entry inside the sum of the two above it.
pub proof fn law_binomials_make_pascals_triangle(n: nat, k: nat)
    ensures
        binom(n, 0) == 1,
        n < k ==> binom(n, k) == 0,
        binom(n + 1, k + 1) == binom(n, k) + binom(n, k + 1),
{
    if n < k {
        lemma_binom_zero(n, k);
    }
}

/// Decoding is greedy, for every number: the first position is the highest one whose
/// binomial is not above the number, the others are those of what is left.
pub proof fn law_decoding_is_greedy(index: nat, hi: nat, k: nat)
    requires
        k > 0,
    ensures
        ({
            let ps = positions(index, hi, k);
            &&& ps.len() == k
            &&& ps[0] <= hi
            &&& binom(ps[0], k) <= index
            &&& forall|p: nat| ps[0] < p <= hi ==> index < #[trigger] binom(p, k)
            &&& ps.drop_first() == positions((index - binom(ps[0], k)) as nat, hi, (k - 1) as nat)
        }),
{
    lemma_positions_bound(index, hi, k);
    lemma_top(index, k, hi);
    let p = top(index, k, hi);
    assert(positions(index, hi, k).drop_first() =~= positions(
        (index - binom(p, k)) as nat,
        hi,
        (k - 1) as nat,
    ));
}

proof fn lemma_binom_positive(n: nat, k: nat)
    requires
        k <= n,
    ensures
        binom(n, k) > 0,
    decreases n,
{
    if k > 0 {
        lemma_binom_positive((n - 1) as nat, (k - 1) as nat);
    }
}

/// The highest number codes the highest positions: below `C(m + 1, k)`, those are `m` and
/// the `k - 1` below it.
pub proof fn law_highest_number_codes_the_highest_positions(m: nat, hi: nat, k: nat)
    requires
        k <= m + 1,
        m <= hi,
    ensures
        binom(m + 1, k) > 0,
        positions((binom(m + 1, k) - 1) as nat, hi, k) == Seq::new(k, |i: int| (m - i) as nat),
    decreases k,
{
    let goal = Seq::new(k, |i: int| (m - i) as nat);
    lemma_binom_positive(m + 1, k);
    if k == 0 {
        assert(positions((binom(m + 1, k) - 1) as nat, hi, k) =~= goal);
    } else {
        let index = (binom(m + 1, k) - 1) as nat;
        lemma_binom_positive(m, (k - 1) as nat);
        lemma_top_unique(index, k, hi, m);
        let rest = (index - binom(m, k)) as nat;
        if m > 0 {
            law_highest_number_codes_the_highest_positions(
                (m - 1) as nat,
                hi,
                (k - 1) as nat,
            );
        } else {
            assert(k == 1);
        }
        let tail = positions(rest, hi, (k - 1) as nat);
        assert(tail.len() == k - 1);
        assert forall|i: int| 0 <= i < k implies (seq![m] + tail)[i] == goal[i] by {}
        assert(seq![m] + tail =~= goal);
    }
}

/// What the two codes are for: seven positions out of 72, in descending order, each
/// counted by a binomial.
pub open spec fn seven_coded_as(ps: Seq<nat>, index: nat) -> bool {
    &&& ps.len() == 7
    &&& 72 > ps[0] > ps[1] > ps[2] > ps[3] > ps[4] > ps[5] > ps[6]
    &&& index == binom(ps[0], 7) + binom(ps[1], 6) + binom(ps[2], 5) + binom(ps[3], 4) + binom(
        ps[4],
        3,
    ) + binom(ps[5], 2) + ps[6]
}

proof fn lemma_binom_one(n: nat)
    ensures
        binom(n, 1) == n,
    decreases n,
{
    if n > 0 {
        lemma_binom_one((n - 1) as nat);
        assert(binom((n - 1) as nat, 0) == 1);
    }
}

/// For every number below `C(72, 7)`, the seven positions are descending, below 72, and
/// the sum of their binomials is the number.
pub proof fn law_seven_positions_code_their_number(index: nat)
    requires
        index < binom(72, 7),
    ensures
        seven_coded_as(positions(index, 71, 7), index),
{
    law_decode_inverts_rank(index, 71, 7);
    let ps = positions(index, 71, 7);
    lemma_binom_one(ps[6]);
    reveal_with_fuel(rank, 8);
    let q1 = ps.drop_first();
    let q2 = q1.drop_first();
    let q3 = q2.drop_first();
    let q4 = q3.drop_first();
    let q5 = q4.drop_first();
    let q6 = q5.drop_first();
    let q7 = q6.drop_first();
    assert(q7.len() == 0);
    assert(q1[0] == ps[1] && q2[0] == ps[2] && q3[0] == ps[3] && q4[0] == ps[4] && q5[0] == ps[5]
        && q6[0] == ps[6]);
}

/// The lowest pitch lag that a difference code can reach after the lag `prev`.
pub open spec fn pitch_base(prev: nat) -> nat {
    if prev > 162 {
        139
    } else if prev < 59 {
        36
    } else {
        (prev - 23) as nat
    }
}

/// The lowest pitch lag that a difference code can reach after the lag `prev`.
pub fn pitch_window_start(prev: usize) -> (r: usize)
    ensures
        r == pitch_base(prev as nat),
{
    if prev > 162 {
        162 - 23
    } else {
        let low: usize = prev.saturating_sub(23);
        if low < 36 {
            36
        } else {
            low
        }
    }
}

/// "n over k".
pub fn comb(n: usize, k: usize) -> (r: u128)
    requires
        n <= 120,
    ensures
        r == binom(n as nat, k as nat),
{
    if k > n {
        proof {
            lemma_binom_zero(n as nat, k as nat);
        }
        return 0;
    }
    let mut result: u128 = 1;
    let mut i: usize = 0;
    while i < k
        invariant
            i <= k <= n <= 120,
            result == binom(n as nat, i as nat),
        decreases k - i,
    {
        proof {
            lemma_binom_next(n as nat, i as nat);
            lemma_binom_pow2(n as nat, i as nat);
            if n < 120 {
                lemma_pow2_strictly_increases(n as nat, 120);
            }
            lemma_pow2_adds(64, 32);
            lemma_pow2_adds(96, 24);
            lemma2_to64();
            let b = binom(n as nat, (i + 1) as nat);
            assert(result * (n - i) <= 0x100_0000_0000_0000_0000_0000_0000_0000 * 120) by (nonlinear_arith)
                requires
                    0 <= result <= 0x100_0000_0000_0000_0000_0000_0000_0000,
                    0 <= n - i <= 120,
            ;
            assert((b * (i + 1)) / (i + 1) == b) by (nonlinear_arith)
                requires
                    i + 1 > 0,
            ;
        }
        result = result * ((n - i) as u128) / ((i + 1) as u128);
        i += 1;
    }
    result
}

/// Decodes `k` positions below `n` from a combinatorial index, largest first.
pub fn decode_combinatorial_index(index: u64, n: usize, k: usize) -> (r: Vec<usize>)
    requires
        k <= n <= 120,
    ensures
        r@.len() == k,
        forall|i: int|
            0 <= i < k ==> #[trigger] r@[i] as nat == positions(
                index as nat,
                (n - 1) as nat,
                k as nat,
            )[i],
{
    let mut out: Vec<usize> = Vec::new();
    let mut rest: u128 = index as u128;
    let mut i: usize = k;
    let ghost all = positions(index as nat, (n - 1) as nat, k as nat);
    proof {
        lemma_positions_bound(index as nat, (n - 1) as nat, k as nat);
    }
    while i > 0
        invariant
            i <= k <= n <= 120,
            all.len() == k,
            out@.len() == k - i,
            rest <= u64::MAX,
            forall|j: int| 0 <= j < k - i ==> #[trigger] out@[j] as nat == all[j],
            forall|j: int|
                0 <= j < i ==> #[trigger] all[k - i + j] == positions(
                    rest as nat,
                    (n - 1) as nat,
                    i as nat,
                )[j],
        decreases i,
    {
        let mut v: usize = i - 1;
        proof {
            lemma_binom_zero(v as nat, i as nat);
        }
        while v + 1 < n && comb(v + 1, i) <= rest
            invariant
                0 < i <= n <= 120,
                v < n,
                binom(v as nat, i as nat) <= rest,
            ensures
                v < n,
                binom(v as nat, i as nat) <= rest,
                v + 1 == n || rest < binom((v + 1) as nat, i as nat),
            decreases n - v,
        {
            v += 1;
        }
        proof {
            lemma_top_unique(rest as nat, i as nat, (n - 1) as nat, v as nat);
            lemma_positions_bound(rest as nat, (n - 1) as nat, i as nat);
            let here = positions(rest as nat, (n - 1) as nat, i as nat);
            let next = positions(
                (rest - binom(v as nat, i as nat)) as nat,
                (n - 1) as nat,
                (i - 1) as nat,
            );
            lemma_positions_bound(
                (rest - binom(v as nat, i as nat)) as nat,
                (n - 1) as nat,
                (i - 1) as nat,
            );
            assert(all[k - i + 0] == here[0]);
            assert forall|j: int| 0 <= j < i - 1 implies #[trigger] all[k - (i - 1) + j]
                == next[j] by {
                assert(all[k - i + (j + 1)] == here[j + 1]);
                assert(here[j + 1] == next[j]);
            }
        }
        out.push(v);
        rest = rest - comb(v, i);
        i -= 1;
    }
    out
}

} // verus!
