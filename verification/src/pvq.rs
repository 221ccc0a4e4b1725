//! Pyramid vector quantization: codewords are integer vectors whose magnitudes sum to `k`.

use vstd::arithmetic::power::pow;
use vstd::arithmetic::power2::pow2;
use vstd::prelude::*;

use crate::bignat::BigNat;
use crate::sums::{inner, inner_of_push, total, total_of_nothing, total_of_push};

verus! {

/// How many integer vectors of length `b` have magnitudes that sum to `k`: the last coordinate
/// is zero, or it is `j` or `-j` and the others sum to `k - j`.
pub open spec fn pulse_vectors(b: nat, k: nat) -> nat
    decreases b, k,
{
    if b == 0 {
        if k == 0 {
            1
        } else {
            0
        }
    } else {
        pulse_vectors((b - 1) as nat, k) + 2 * pulse_vectors_below((b - 1) as nat, k)
    }
}

/// How many integer vectors of length `b` have magnitudes that sum to less than `k`.
pub open spec fn pulse_vectors_below(b: nat, k: nat) -> nat
    decreases b, k,
{
    if k == 0 {
        0
    } else {
        pulse_vectors_below(b, (k - 1) as nat) + pulse_vectors(b, (k - 1) as nat)
    }
}

/// The counts satisfy a recurrence over three neighbours.
pub proof fn pulse_vectors_recurrence(b: nat, k: nat)
    requires
        b > 0,
        k > 0,
    ensures
        pulse_vectors(b, k) == pulse_vectors((b - 1) as nat, k) + pulse_vectors(b, (k - 1) as nat)
            + pulse_vectors((b - 1) as nat, (k - 1) as nat),
        pulse_vectors(b, 0) == 1,
{
    lemma_no_pulses(b);
    reveal_with_fuel(pulse_vectors, 3);
    reveal_with_fuel(pulse_vectors_below, 3);
}

proof fn lemma_no_pulses(b: nat)
    ensures
        pulse_vectors(b, 0) == 1,
    decreases b,
{
    reveal_with_fuel(pulse_vectors, 2);
    reveal_with_fuel(pulse_vectors_below, 2);
    if b > 0 {
        lemma_no_pulses((b - 1) as nat);
    }
}

/// A block has at least one codeword.
proof fn lemma_pulse_vectors_positive(b: nat, k: nat)
    requires
        b > 0,
    ensures
        pulse_vectors(b, k) >= 1,
    decreases k,
{
    if k == 0 {
        lemma_no_pulses(b);
    } else {
        pulse_vectors_recurrence(b, k);
        lemma_pulse_vectors_positive(b, (k - 1) as nat);
    }
}

/// How many codewords a block of length `b` has at `k` pulses.
pub fn pvq_count(b: usize, k: usize) -> (n: BigNat)
    requires
        k < usize::MAX,
    ensures
        n.view() == pulse_vectors(b as nat, k as nat),
{
    let mut prev: Vec<BigNat> = Vec::with_capacity(k + 1);
    let mut j: usize = 0;
    while j <= k
        invariant
            j <= k + 1 <= usize::MAX,
            prev.len() == j,
            forall|q: int| 0 <= q < j ==> (#[trigger] prev@[q]).view() == pulse_vectors(0, q as nat),
        decreases k + 1 - j,
    {
        prev.push(
            BigNat::small(
                if j == 0 {
                    1
                } else {
                    0
                },
            ),
        );
        j += 1;
    }
    let mut row: usize = 0;
    while row < b
        invariant
            row <= b,
            k < usize::MAX,
            prev.len() == k + 1,
            forall|q: int|
                0 <= q <= k ==> (#[trigger] prev@[q]).view() == pulse_vectors(
                    row as nat,
                    q as nat,
                ),
        decreases b - row,
    {
        let mut cur: Vec<BigNat> = Vec::with_capacity(k + 1);
        cur.push(BigNat::small(1));
        proof {
            lemma_no_pulses((row + 1) as nat);
        }
        let mut kk: usize = 1;
        while kk <= k
            invariant
                1 <= kk <= k + 1 <= usize::MAX,
                row < b,
                prev.len() == k + 1,
                forall|q: int|
                    0 <= q <= k ==> (#[trigger] prev@[q]).view() == pulse_vectors(
                        row as nat,
                        q as nat,
                    ),
                cur.len() == kk,
                forall|q: int|
                    0 <= q < kk ==> (#[trigger] cur@[q]).view() == pulse_vectors(
                        (row + 1) as nat,
                        q as nat,
                    ),
            decreases k + 1 - kk,
        {
            proof {
                pulse_vectors_recurrence((row + 1) as nat, kk as nat);
                assert(cur@[kk - 1].view() == pulse_vectors((row + 1) as nat, (kk - 1) as nat));
                assert(prev@[kk as int].view() == pulse_vectors(row as nat, kk as nat));
                assert(prev@[kk - 1].view() == pulse_vectors(row as nat, (kk - 1) as nat));
            }
            let two: BigNat = prev[kk].plus(&cur[kk - 1]);
            let n: BigNat = two.plus(&prev[kk - 1]);
            cur.push(n);
            kk += 1;
        }
        prev = cur;
        row += 1;
    }
    prev[k].copy()
}

/// `k` pulses give a block of length `b` at least `rate` bits per coordinate.
pub open spec fn reaches_rate(b: nat, k: nat, rate: nat) -> bool {
    pow2(b * rate) <= pulse_vectors(b, k)
}

/// The pulses for a block of length `b` at `rate` bits per coordinate: the fewest that reach
/// the rate, and never more than eight for each coordinate.
pub open spec fn is_pulse_choice(b: nat, rate: nat, k: nat) -> bool {
    &&& k <= 8 * b
    &&& reaches_rate(b, k, rate) || k == 8 * b
    &&& b > 0 ==> k >= 1
    &&& forall|j: nat| 1 <= j < k ==> !#[trigger] reaches_rate(b, j, rate)
}

/// Chooses the pulses for a block.
pub fn choose_k(b: usize, rate: u8) -> (k: usize)
    requires
        b < usize::MAX / 8,
    ensures
        is_pulse_choice(b as nat, rate as nat, k as nat),
{
    let mut k: usize = 1;
    while k <= 8 * b
        invariant
            1 <= k,
            b < usize::MAX / 8,
            b == 0 ==> k == 1,
            b > 0 ==> k <= 8 * b + 1,
            forall|j: nat| 1 <= j < k ==> !#[trigger] reaches_rate(b as nat, j, rate as nat),
        decreases 8 * b + 1 - k,
    {
        let n: BigNat = pvq_count(b, k);
        let bits: u128 = n.bits();
        assert(b * rate <= usize::MAX * 255) by (nonlinear_arith)
            requires
                0 <= b <= usize::MAX,
                0 <= rate <= 255,
        ;
        assert(b * rate >= 0) by (nonlinear_arith)
            requires
                b >= 0,
                rate >= 0,
        ;
        let target: u128 = b as u128 * rate as u128;
        proof {
            lemma_pulse_vectors_positive(b as nat, k as nat);
            lemma_pow2_order(target as nat, (bits - 1) as nat);
            lemma_pow2_order(bits as nat, target as nat);
        }
        if bits > target {
            return k;
        }
        k += 1;
    }
    8 * b
}

proof fn lemma_pow2_order(a: nat, b: nat)
    ensures
        a <= b ==> pow2(a) <= pow2(b),
{
    if a < b {
        vstd::arithmetic::power2::lemma_pow2_strictly_increases(a, b);
    }
}

/// `bytes` is the least number of bytes that tells the codewords of `blocks` blocks apart.
pub open spec fn is_record_size(blocks: nat, b: nat, k: nat, bytes: nat) -> bool {
    let n = pow(pulse_vectors(b, k) as int, blocks);
    &&& n <= pow2(8 * bytes)
    &&& bytes > 0 ==> pow2((8 * (bytes - 1)) as nat) < n
}

/// The least number of bytes that tells the codewords of `blocks` blocks apart.
pub fn record_size(blocks: usize, b: usize, k: usize) -> (bytes: u128)
    requires
        b > 0,
        k < usize::MAX,
    ensures
        is_record_size(blocks as nat, b as nat, k as nat, bytes as nat),
{
    let n: BigNat = pvq_count(b, k);
    let mut all: BigNat = BigNat::small(1);
    let mut i: usize = 0;
    let ghost base = pulse_vectors(b as nat, k as nat);
    proof {
        lemma_pulse_vectors_positive(b as nat, k as nat);
        vstd::arithmetic::power::lemma_pow0(base as int);
    }
    while i < blocks
        invariant
            i <= blocks,
            n.view() == base,
            base > 0,
            all.view() == pow(base as int, i as nat),
            all.view() > 0,
        decreases blocks - i,
    {
        proof {
            reveal(pow);
            let p = all.view();
            assert(base * p == p * base) by (nonlinear_arith);
            assert(p * base > 0) by (nonlinear_arith)
                requires
                    p > 0,
                    base > 0,
            ;
        }
        all = all.times(&n);
        i += 1;
    }
    let bits: u128 = all.ceil_log2();
    let bytes: u128 = bits / 8 + if bits % 8 == 0 {
        0
    } else {
        1
    };
    proof {
        lemma_pow2_order(bits as nat, 8 * bytes as nat);
        if bytes > 0 {
            lemma_pow2_order((8 * (bytes - 1)) as nat, (bits - 1) as nat);
        }
    }
    bytes
}

/// A block length that divides the dimension.
pub open spec fn fits_block(dim: nat, b: nat) -> bool {
    0 < b <= dim && dim % b == 0
}

/// Block lengths that are considered, longest first.
pub open spec fn is_candidate(b: nat) -> bool {
    b == 64 || b == 32 || b == 16 || b == 8
}

/// The record size of a vector in blocks of length `b`.
pub open spec fn is_vector_size(dim: nat, rate: nat, b: nat, bytes: nat) -> bool {
    exists|k: nat| #[trigger]
        is_pulse_choice(b, rate, k) && is_record_size(dim / b, b, k, bytes)
}

fn vector_size(dim: usize, rate: u8, b: usize) -> (bytes: u128)
    requires
        fits_block(dim as nat, b as nat),
        is_candidate(b as nat),
    ensures
        is_vector_size(dim as nat, rate as nat, b as nat, bytes as nat),
{
    let k: usize = choose_k(b, rate);
    record_size(dim / b, b, k)
}

/// The block length for vectors of dimension `dim` at `rate` bits per coordinate: among the
/// candidates that divide the dimension one with the smallest record, the longest if several
/// are equally small; if none divides it, eight or the dimension itself.
pub open spec fn is_block_choice(dim: nat, rate: nat, b: nat) -> bool {
    if forall|c: nat| is_candidate(c) ==> !#[trigger] fits_block(dim, c) {
        b == if dim < 8 {
            dim
        } else {
            8
        }
    } else {
        &&& is_candidate(b)
        &&& fits_block(dim, b)
        &&& exists|bytes: nat|
            {
                &&& #[trigger] is_vector_size(dim, rate, b, bytes)
                &&& forall|c: nat|
                    is_candidate(c) && #[trigger] fits_block(dim, c) ==> beats_or_ties(
                        dim,
                        rate,
                        b,
                        bytes,
                        c,
                    )
            }
    }
}

/// A record of `bytes` in blocks of length `b` is preferred to blocks of length `c`.
pub open spec fn beats_or_ties(dim: nat, rate: nat, b: nat, bytes: nat, c: nat) -> bool {
    exists|other: nat| #[trigger]
        is_vector_size(dim, rate, c, other) && (bytes < other || (bytes == other && b >= c))
}

/// Chooses the block length.
pub fn choose_block(dim: usize, rate: u8) -> (b: usize)
    ensures
        is_block_choice(dim as nat, rate as nat, b as nat),
{
    let mut best: usize = 0;
    let mut best_bytes: u128 = 0;
    let mut c: usize = 64;
    let ghost d = dim as nat;
    let ghost r = rate as nat;
    while c >= 8
        invariant
            c == 64 || c == 32 || c == 16 || c == 8 || c == 4,
            d == dim as nat,
            r == rate as nat,
            best == 0 ==> forall|x: nat|
                is_candidate(x) && x > c ==> !#[trigger] fits_block(d, x),
            best > 0 ==> {
                &&& is_candidate(best as nat)
                &&& best > c
                &&& fits_block(d, best as nat)
                &&& is_vector_size(d, r, best as nat, best_bytes as nat)
                &&& forall|x: nat|
                    is_candidate(x) && x > c && #[trigger] fits_block(d, x) ==> beats_or_ties(
                        d,
                        r,
                        best as nat,
                        best_bytes as nat,
                        x,
                    )
            },
        decreases c,
    {
        let ghost old_best = best;
        let ghost old_bytes = best_bytes;
        if c <= dim && dim % c == 0 {
            let bytes: u128 = vector_size(dim, rate, c);
            if best == 0 || bytes < best_bytes {
                best = c;
                best_bytes = bytes;
                proof {
                    assert forall|x: nat|
                        is_candidate(x) && x > c / 2 && #[trigger] fits_block(
                            d,
                            x,
                        ) implies beats_or_ties(d, r, best as nat, best_bytes as nat, x) by {
                        if x == c {
                            assert(is_vector_size(d, r, x, bytes as nat));
                        } else {
                            assert(x > c);
                            assert(beats_or_ties(d, r, old_best as nat, old_bytes as nat, x));
                            let other = choose|other: nat| #[trigger]
                                is_vector_size(d, r, x, other) && (old_bytes < other || (old_bytes
                                    == other && old_best >= x));
                            assert(is_vector_size(d, r, x, other) && bytes < other);
                        }
                    }
                }
            } else {
                proof {
                    assert forall|x: nat|
                        is_candidate(x) && x > c / 2 && #[trigger] fits_block(
                            d,
                            x,
                        ) implies beats_or_ties(d, r, best as nat, best_bytes as nat, x) by {
                        if x == c {
                            assert(is_vector_size(d, r, x, bytes as nat));
                        }
                    }
                }
            }
        } else {
            proof {
                assert(!fits_block(d, c as nat));
            }
        }
        c = c / 2;
    }
    if best == 0 {
        if dim < 8 {
            dim
        } else {
            8
        }
    } else {
        assert(fits_block(d, best as nat));
        best
    }
}

// ---- Greedy projection of a block ----

/// The sum of the first `n` numbers.
pub open spec fn sum_first(s: Seq<int>, n: int) -> int
    decreases n,
{
    if n <= 0 {
        0
    } else {
        sum_first(s, n - 1) + s[n - 1]
    }
}

/// The inner product of the first `n` entries.
pub open spec fn dot_first(a: Seq<int>, m: Seq<int>, n: int) -> int
    decreases n,
{
    if n <= 0 {
        0
    } else {
        dot_first(a, m, n - 1) + a[n - 1] * m[n - 1]
    }
}

/// The sum of the squares of the first `n` numbers.
pub open spec fn squares_first(m: Seq<int>, n: int) -> int
    decreases n,
{
    if n <= 0 {
        0
    } else {
        squares_first(m, n - 1) + m[n - 1] * m[n - 1]
    }
}

/// The squared inner product with the pulses, after one more pulse at `i`.
pub open spec fn gain_over(a: Seq<int>, m: Seq<int>, i: int) -> int {
    let d = dot_first(a, m, m.len() as int) + a[i];
    d * d
}

/// The squared norm of the pulses, after one more pulse at `i`.
pub open spec fn gain_under(m: Seq<int>, i: int) -> int {
    squares_first(m, m.len() as int) + 2 * m[i] + 1
}

/// One more pulse at `i` brings the pulses closer in direction than one at `j`: the quotient of
/// squared inner product and squared norm is larger.
pub open spec fn gains_more(a: Seq<int>, m: Seq<int>, i: int, j: int) -> bool {
    gain_over(a, m, i) * gain_under(m, j) > gain_over(a, m, j) * gain_under(m, i)
}

/// Where among the first `n + 1` coordinates one more pulse gains most: the first such place.
pub open spec fn best_pulse(a: Seq<int>, m: Seq<int>, n: int) -> int
    decreases n,
{
    if n <= 0 {
        0
    } else {
        let b = best_pulse(a, m, n - 1);
        if gains_more(a, m, n, b) {
            n
        } else {
            b
        }
    }
}

/// `m` with `n` more pulses, each where it gains most.
pub open spec fn with_pulses(a: Seq<int>, m: Seq<int>, n: nat) -> Seq<int>
    decreases n,
{
    if n == 0 {
        m
    } else {
        let b = best_pulse(a, m, m.len() - 1);
        with_pulses(a, m.update(b, m[b] + 1), (n - 1) as nat)
    }
}

/// The pulses to start from: each coordinate's share of `k`, rounded down.
pub open spec fn first_pulses(a: Seq<int>, k: int) -> Seq<int> {
    Seq::new(a.len(), |i: int| (k * a[i]) / sum_first(a, a.len() as int))
}

/// The pulses of a block with magnitudes `a`: none if all are zero.
pub open spec fn pulses(a: Seq<int>, k: int) -> Seq<int> {
    if sum_first(a, a.len() as int) == 0 {
        Seq::new(a.len(), |i: int| 0int)
    } else {
        let m = first_pulses(a, k);
        with_pulses(a, m, (k - sum_first(m, m.len() as int)) as nat)
    }
}

/// The magnitudes of a block.
pub open spec fn magnitudes(x: Seq<i64>) -> Seq<int> {
    Seq::new(
        x.len(),
        |i: int|
            if x[i] < 0 {
                -x[i]
            } else {
                x[i] as int
            },
    )
}

/// The codeword of a block: its pulses, with the signs of the block.
pub open spec fn codeword(x: Seq<i64>, k: int) -> Seq<int> {
    let m = pulses(magnitudes(x), k);
    Seq::new(
        x.len(),
        |i: int|
            if x[i] < 0 {
                -m[i]
            } else {
                m[i]
            },
    )
}

/// No entry is negative.
spec fn nonnegative(s: Seq<int>) -> bool {
    forall|i: int| 0 <= i < s.len() ==> (#[trigger] s[i]) >= 0
}

/// The chosen place gains at least as much as any other.
pub proof fn the_best_pulse_gains_most(a: Seq<int>, m: Seq<int>, n: int, j: int)
    requires
        a.len() == m.len(),
        0 <= j <= n < m.len(),
        forall|i: int| 0 <= i < m.len() ==> (#[trigger] m[i]) >= 0,
    ensures
        0 <= best_pulse(a, m, n) <= n,
        !gains_more(a, m, j, best_pulse(a, m, n)),
    decreases n,
{
    lemma_best_place(a, m, n);
    if n > 0 {
        let b = best_pulse(a, m, n - 1);
        lemma_best_place(a, m, n - 1);
        if j < n {
            the_best_pulse_gains_most(a, m, n - 1, j);
            if gains_more(a, m, n, b) {
                let (nj, dj) = (gain_over(a, m, j), gain_under(m, j));
                let (nb, db) = (gain_over(a, m, b), gain_under(m, b));
                let (nn, dn) = (gain_over(a, m, n), gain_under(m, n));
                lemma_squares_grow(m, m.len() as int);
                assert(m[j] >= 0 && m[b] >= 0 && m[n] >= 0);
                assert(nj * dn <= nn * dj) by (nonlinear_arith)
                    requires
                        nj * db <= nb * dj,
                        nn * db > nb * dn,
                        dj > 0,
                        db > 0,
                        dn > 0,
                ;
            }
        } else {
            assert(!gains_more(a, m, n, n));
        }
    }
}

proof fn lemma_best_place(a: Seq<int>, m: Seq<int>, n: int)
    requires
        0 <= n,
    ensures
        0 <= best_pulse(a, m, n) <= n,
    decreases n,
{
    if n > 0 {
        lemma_best_place(a, m, n - 1);
    }
}

proof fn lemma_squares_grow(m: Seq<int>, n: int)
    requires
        0 <= n <= m.len(),
    ensures
        squares_first(m, n) >= 0,
    decreases n,
{
    if n > 0 {
        lemma_squares_grow(m, n - 1);
        let x = m[n - 1];
        assert(x * x >= 0) by (nonlinear_arith);
    }
}

proof fn lemma_update_sums(a: Seq<int>, m: Seq<int>, b: int, n: int)
    requires
        a.len() == m.len(),
        0 <= b < m.len(),
        0 <= n <= m.len(),
    ensures
        ({
            let w = m.update(b, m[b] + 1);
            &&& sum_first(w, n) == sum_first(m, n) + if b < n {
                1int
            } else {
                0
            }
            &&& dot_first(a, w, n) == dot_first(a, m, n) + if b < n {
                a[b]
            } else {
                0
            }
            &&& squares_first(w, n) == squares_first(m, n) + if b < n {
                2 * m[b] + 1
            } else {
                0
            }
        }),
    decreases n,
{
    if n > 0 {
        lemma_update_sums(a, m, b, n - 1);
        if n - 1 == b {
            let x = m[b];
            assert(a[b] * (x + 1) == a[b] * x + a[b]) by (nonlinear_arith);
            assert((x + 1) * (x + 1) == x * x + 2 * x + 1) by (nonlinear_arith);
        }
    }
}

/// Pulses keep their places; `n` more of them add `n` to the sum.
proof fn lemma_with_pulses(a: Seq<int>, m: Seq<int>, n: nat)
    requires
        a.len() == m.len(),
        m.len() > 0,
        nonnegative(m),
    ensures
        with_pulses(a, m, n).len() == m.len(),
        nonnegative(with_pulses(a, m, n)),
        sum_first(with_pulses(a, m, n), m.len() as int) == sum_first(m, m.len() as int) + n,
    decreases n,
{
    if n > 0 {
        lemma_best_place(a, m, m.len() - 1);
        let b = best_pulse(a, m, m.len() - 1);
        let w = m.update(b, m[b] + 1);
        lemma_update_sums(a, m, b, m.len() as int);
        assert(nonnegative(w)) by {
            assert forall|i: int| 0 <= i < w.len() implies (#[trigger] w[i]) >= 0 by {
                assert(m[i] >= 0);
            }
        }
        lemma_with_pulses(a, w, (n - 1) as nat);
    }
}

/// The shares of `k`, rounded down, sum to at most `k`.
proof fn lemma_first_pulses(a: Seq<int>, k: int, n: int)
    requires
        nonnegative(a),
        sum_first(a, a.len() as int) > 0,
        k >= 0,
        0 <= n <= a.len(),
    ensures
        nonnegative(first_pulses(a, k)),
        sum_first(first_pulses(a, k), n) * sum_first(a, a.len() as int) <= k * sum_first(a, n),
        sum_first(first_pulses(a, k), n) >= 0,
    decreases n,
{
    let s = sum_first(a, a.len() as int);
    let m = first_pulses(a, k);
    assert forall|i: int| 0 <= i < m.len() implies (#[trigger] m[i]) >= 0 && m[i] * s <= k
        * a[i] by {
        assert(a[i] >= 0);
        let t = k * a[i];
        assert(t >= 0) by (nonlinear_arith)
            requires
                t == k * a[i],
                k >= 0,
                a[i] >= 0,
        ;
        vstd::arithmetic::div_mod::lemma_fundamental_div_mod(t, s);
        vstd::arithmetic::div_mod::lemma_mod_bound(t, s);
        let q = t / s;
        assert(q >= 0) by (nonlinear_arith)
            requires
                t == s * q + t % s,
                0 <= t % s < s,
                t >= 0,
                s > 0,
        ;
        assert(q * s == s * q) by (nonlinear_arith);
    }
    if n > 0 {
        lemma_first_pulses(a, k, n - 1);
        let p = sum_first(m, n - 1);
        let x = m[n - 1];
        let y = a[n - 1];
        let z = sum_first(a, n - 1);
        assert(x >= 0 && x * s <= k * y);
        assert((p + x) * s <= k * (z + y)) by (nonlinear_arith)
            requires
                p * s <= k * z,
                x * s <= k * y,
        ;
    }
}

/// The magnitudes of a codeword sum to `k`, unless the block is zero throughout.
pub proof fn codeword_has_k_pulses(a: Seq<int>, k: int)
    requires
        forall|i: int| 0 <= i < a.len() ==> (#[trigger] a[i]) >= 0,
        k >= 0,
        sum_first(a, a.len() as int) > 0,
    ensures
        pulses(a, k).len() == a.len(),
        forall|i: int| 0 <= i < a.len() ==> (#[trigger] pulses(a, k)[i]) >= 0,
        sum_first(pulses(a, k), a.len() as int) == k,
{
    assert(nonnegative(a));
    let m = first_pulses(a, k);
    lemma_first_pulses(a, k, a.len() as int);
    let s = sum_first(a, a.len() as int);
    let p = sum_first(m, m.len() as int);
    assert(p <= k) by (nonlinear_arith)
        requires
            p * s <= k * s,
            s > 0,
    ;
    lemma_with_pulses(a, m, (k - p) as nat);
    assert(nonnegative(pulses(a, k)));
}

/// Pulses that sum to at most `k` are bounded, and so are what is computed from them.
proof fn lemma_pulse_bounds(a: Seq<int>, m: Seq<int>, k: int, n: int)
    requires
        a.len() == m.len(),
        0 <= n <= m.len(),
        nonnegative(a),
        nonnegative(m),
        forall|i: int| 0 <= i < a.len() ==> (#[trigger] a[i]) <= 0x4000_0000,
        sum_first(m, m.len() as int) <= k,
    ensures
        0 <= sum_first(m, n) <= k,
        forall|i: int| 0 <= i < n ==> (#[trigger] m[i]) <= k,
        0 <= dot_first(a, m, n) <= 0x4000_0000 * sum_first(m, n),
        0 <= squares_first(m, n) <= k * sum_first(m, n),
    decreases n,
{
    lemma_sum_grows(m, n, m.len() as int);
    if n > 0 {
        lemma_pulse_bounds(a, m, k, n - 1);
        let x = m[n - 1];
        let y = a[n - 1];
        assert(x >= 0 && y >= 0 && y <= 0x4000_0000);
        let p = sum_first(m, n - 1);
        assert(x <= k);
        assert(0 <= y * x <= 0x4000_0000 * x) by (nonlinear_arith)
            requires
                0 <= y <= 0x4000_0000,
                0 <= x,
        ;
        assert(0 <= x * x && x * x + k * p <= k * (p + x)) by (nonlinear_arith)
            requires
                0 <= x <= k,
        ;
    }
}

proof fn lemma_sum_grows(m: Seq<int>, j: int, n: int)
    requires
        nonnegative(m),
        0 <= j <= n <= m.len(),
    ensures
        0 <= sum_first(m, j) <= sum_first(m, n),
    decreases n,
{
    if j < n {
        lemma_sum_grows(m, j, n - 1);
        assert(m[n - 1] >= 0);
    } else if n > 0 {
        lemma_sum_grows(m, j - 1, n - 1);
        assert(m[n - 1] >= 0);
    }
}

/// Numbers as integers.
spec fn ints(v: Seq<u64>) -> Seq<int> {
    Seq::new(v.len(), |i: int| v[i] as int)
}

/// The high and the low part of a product: `a * u == hi * 2^64 + lo`.
fn wide_product(a: u128, u: u64) -> (r: (u128, u128))
    ensures
        a * u == r.0 * 0x1_0000_0000_0000_0000 + r.1,
        r.1 < 0x1_0000_0000_0000_0000,
{
    let high: u128 = a / 0x1_0000_0000_0000_0000;
    let low: u128 = a % 0x1_0000_0000_0000_0000;
    let f: u128 = u as u128;
    let ghost c: int = 0x1_0000_0000_0000_0000;
    assert(0 <= high * f <= (c - 1) * (c - 1) && 0 <= low * f <= (c - 1) * (c - 1))
        by (nonlinear_arith)
        requires
            0 <= high < c,
            0 <= low < c,
            0 <= f < c,
    ;
    let part: u128 = low * f;
    let hi: u128 = high * f + part / 0x1_0000_0000_0000_0000;
    let lo: u128 = part % 0x1_0000_0000_0000_0000;
    assert(a * f == (high * f) * c + part) by (nonlinear_arith)
        requires
            a == high * c + low,
            part == low * f,
    ;
    (hi, lo)
}

/// Whether `a * u` exceeds `b * v`.
fn exceeds(a: u128, u: u64, b: u128, v: u64) -> (r: bool)
    ensures
        r == (a * u > b * v),
{
    let (ah, al): (u128, u128) = wide_product(a, u);
    let (bh, bl): (u128, u128) = wide_product(b, v);
    ah > bh || (ah == bh && al > bl)
}

/// Where one more pulse gains most.
fn place_pulse(a: &Vec<u64>, m: &Vec<u64>, dot: u64, squares: u64, Ghost(k): Ghost<int>) -> (b:
    usize)
    requires
        a.len() == m.len(),
        m.len() > 0,
        0 <= k <= i32::MAX,
        forall|i: int| 0 <= i < a.len() ==> (#[trigger] a@[i]) <= 0x4000_0000,
        forall|i: int| 0 <= i < m.len() ==> (#[trigger] m@[i]) <= k,
        dot == dot_first(ints(a@), ints(m@), m@.len() as int),
        squares == squares_first(ints(m@), m@.len() as int),
        dot <= 0x4000_0000 * k,
        squares <= k * k,
    ensures
        b < m.len(),
        b == best_pulse(ints(a@), ints(m@), m@.len() - 1),
{
    let ghost ai = ints(a@);
    let ghost mi = ints(m@);
    let mut best: usize = 0;
    assert(k * k <= 0x7fff_ffff * 0x7fff_ffff) by (nonlinear_arith)
        requires
            0 <= k <= 0x7fff_ffff,
    ;
    assert(a@[0] <= 0x4000_0000 && m@[0] <= k);
    let d0: u128 = dot as u128 + a[0] as u128;
    assert(0 <= d0 * d0 <= 0x2000_0000_0000_0000 * 0x2000_0000_0000_0000) by (nonlinear_arith)
        requires
            0 <= d0 <= 0x2000_0000_0000_0000,
    ;
    let mut best_over: u128 = d0 * d0;
    let mut best_under: u64 = squares + 2 * m[0] + 1;
    let mut i: usize = 1;
    while i < m.len()
        invariant
            1 <= i <= m.len(),
            a.len() == m.len(),
            0 <= k <= i32::MAX,
            k * k <= 0x7fff_ffff * 0x7fff_ffff,
            ai == ints(a@),
            mi == ints(m@),
            forall|q: int| 0 <= q < a.len() ==> (#[trigger] a@[q]) <= 0x4000_0000,
            forall|q: int| 0 <= q < m.len() ==> (#[trigger] m@[q]) <= k,
            dot == dot_first(ai, mi, mi.len() as int),
            squares == squares_first(mi, mi.len() as int),
            dot <= 0x4000_0000 * k,
            squares <= k * k,
            best < i,
            best == best_pulse(ai, mi, i - 1),
            best_over == gain_over(ai, mi, best as int),
            best_under == gain_under(mi, best as int),
        decreases m.len() - i,
    {
        assert(a@[i as int] <= 0x4000_0000 && m@[i as int] <= k);
        let d: u128 = dot as u128 + a[i] as u128;
        assert(0 <= d * d <= 0x2000_0000_0000_0000 * 0x2000_0000_0000_0000) by (nonlinear_arith)
            requires
                0 <= d <= 0x2000_0000_0000_0000,
        ;
        let over: u128 = d * d;
        let under: u64 = squares + 2 * m[i] + 1;
        assert(over == gain_over(ai, mi, i as int));
        assert(under == gain_under(mi, i as int));
        if exceeds(over, best_under, best_over, under) {
            best = i;
            best_over = over;
            best_under = under;
        }
        i += 1;
    }
    best
}

/// Projects a block to `k` pulses: each coordinate gets its share of them, rounded down, and
/// the others go one at a time to where they gain most.
#[verifier::rlimit(60)]
pub fn encode_block(x: &Vec<i64>, k: usize) -> (out: Vec<i32>)
    requires
        k <= i32::MAX,
        x.len() <= 0x2_0000_0000,
        forall|i: int| 0 <= i < x.len() ==> -0x4000_0000 <= (#[trigger] x@[i]) <= 0x4000_0000,
    ensures
        out.len() == x.len(),
        forall|i: int| 0 <= i < x.len() ==> #[trigger] out@[i] == codeword(x@, k as int)[i],
{
    let n: usize = x.len();
    let mut a: Vec<u64> = Vec::with_capacity(n);
    let mut total: u64 = 0;
    let ghost mags = magnitudes(x@);
    let mut i: usize = 0;
    while i < n
        invariant
            i <= n == x.len(),
            n <= 0x2_0000_0000,
            mags == magnitudes(x@),
            forall|q: int| 0 <= q < n ==> -0x4000_0000 <= (#[trigger] x@[q]) <= 0x4000_0000,
            a.len() == i,
            forall|q: int| 0 <= q < i ==> (#[trigger] a@[q]) == mags[q] && a@[q] <= 0x4000_0000,
            total == sum_first(mags, i as int),
            total <= 0x4000_0000 * i,
        decreases n - i,
    {
        assert(-0x4000_0000 <= x@[i as int] <= 0x4000_0000);
        let v: u64 = if x[i] < 0 {
            (-x[i]) as u64
        } else {
            x[i] as u64
        };
        a.push(v);
        total = total + v;
        i += 1;
    }
    let mut out: Vec<i32> = Vec::with_capacity(n);
    if total == 0 {
        let mut z: usize = 0;
        while z < n
            invariant
                z <= n,
                out.len() == z,
                forall|q: int| 0 <= q < z ==> #[trigger] out@[q] == 0,
            decreases n - z,
        {
            out.push(0);
            z += 1;
        }
        return out;
    }
    proof {
        assert(ints(a@) =~= mags);
        assert(nonnegative(mags));
        if n == 0 {
            assert(sum_first(mags, 0) == 0);
        }
    }
    let mut m: Vec<u64> = Vec::with_capacity(n);
    let mut placed: u64 = 0;
    let mut dot: u64 = 0;
    let mut squares: u64 = 0;
    let ghost first = first_pulses(mags, k as int);
    proof {
        lemma_first_pulses(mags, k as int, n as int);
        let p = sum_first(first, n as int);
        assert(p <= k) by (nonlinear_arith)
            requires
                p * total <= k * total,
                total > 0,
        ;
        assert(forall|q: int| 0 <= q < n ==> (#[trigger] mags[q]) <= 0x4000_0000);
        lemma_pulse_bounds(mags, first, k as int, n as int);
    }
    let mut j: usize = 0;
    while j < n
        invariant
            j <= n == a.len(),
            n <= 0x2_0000_0000,
            k <= i32::MAX,
            total > 0,
            total == sum_first(mags, n as int),
            mags.len() == n,
            nonnegative(mags),
            nonnegative(first),
            ints(a@) == mags,
            first == first_pulses(mags, k as int),
            first.len() == n,
            sum_first(first, n as int) <= k,
            forall|q: int| 0 <= q < n ==> (#[trigger] mags[q]) <= 0x4000_0000,
            m.len() == j,
            forall|q: int| 0 <= q < j ==> #[trigger] m@[q] == first[q],
            placed == sum_first(first, j as int),
            dot == dot_first(mags, first, j as int),
            squares == squares_first(first, j as int),
        decreases n - j,
    {
        let v: u64 = a[j];
        assert(v == ints(a@)[j as int]);
        assert(mags[j as int] <= 0x4000_0000);
        assert(0 <= k * v <= 0x7fff_ffff * 0x4000_0000) by (nonlinear_arith)
            requires
                0 <= k <= 0x7fff_ffff,
                0 <= v <= 0x4000_0000,
        ;
        let y: u64 = (k as u64 * v) / total;
        assert(y == first[j as int]);
        proof {
            lemma_pulse_bounds(mags, first, k as int, j + 1);
            lemma_pulse_bounds(mags, first, k as int, j as int);
            let sj = sum_first(first, j + 1);
            assert(k * sj <= 0x7fff_ffff * 0x7fff_ffff) by (nonlinear_arith)
                requires
                    0 <= k <= 0x7fff_ffff,
                    0 <= sj <= 0x7fff_ffff,
            ;
            assert(y * v == v * y) by (nonlinear_arith);
            assert(first[j as int] >= 0);
            assert(0 <= v * y) by (nonlinear_arith)
                requires
                    v >= 0,
                    y >= 0,
            ;
            assert(0 <= y * y) by (nonlinear_arith);
        }
        placed = placed + y;
        dot = dot + y * v;
        squares = squares + y * y;
        m.push(y);
        j += 1;
    }
    assert(ints(m@) =~= first);
    while placed < k as u64
        invariant
            n == x.len(),
            0 < n <= 0x2_0000_0000,
            k <= i32::MAX,
            a.len() == n,
            m.len() == n,
            ints(a@) == mags,
            mags.len() == n,
            nonnegative(mags),
            nonnegative(ints(m@)),
            forall|q: int| 0 <= q < n ==> (#[trigger] mags[q]) <= 0x4000_0000,
            sum_first(mags, n as int) != 0,
            placed <= k,
            placed == sum_first(ints(m@), n as int),
            dot == dot_first(mags, ints(m@), n as int),
            squares == squares_first(ints(m@), n as int),
            pulses(mags, k as int) == with_pulses(mags, ints(m@), (k - placed) as nat),
        decreases k - placed,
    {
        let ghost mi = ints(m@);
        proof {
            lemma_pulse_bounds(mags, mi, k as int, n as int);
            let sn = sum_first(mi, n as int);
            assert(k * sn <= k * k) by (nonlinear_arith)
                requires
                    0 <= sn <= k,
            ;
            assert forall|q: int| 0 <= q < m.len() implies (#[trigger] m@[q]) <= k by {
                assert(mi[q] <= k);
            }
            assert forall|q: int| 0 <= q < a.len() implies (#[trigger] a@[q]) <= 0x4000_0000 by {
                assert(mags[q] <= 0x4000_0000);
            }
            assert(k * k <= 0x7fff_ffff * 0x7fff_ffff) by (nonlinear_arith)
                requires
                    0 <= k <= 0x7fff_ffff,
            ;
        }
        let b: usize = place_pulse(&a, &m, dot, squares, Ghost(k as int));
        proof {
            lemma_update_sums(mags, mi, b as int, n as int);
            assert(mi[b as int] <= k);
            assert(mags[b as int] <= 0x4000_0000);
            assert(a@[b as int] == mags[b as int]);
        }
        let v: u64 = m[b];
        dot = dot + a[b];
        squares = squares + 2 * v + 1;
        m[b] = v + 1;
        placed = placed + 1;
        proof {
            assert(ints(m@) =~= mi.update(b as int, mi[b as int] + 1));
            assert(nonnegative(ints(m@)));
        }
    }
    let ghost done = pulses(mags, k as int);
    proof {
        lemma_pulse_bounds(mags, ints(m@), k as int, n as int);
    }
    let mut t: usize = 0;
    while t < n
        invariant
            t <= n == x.len(),
            k <= i32::MAX,
            m.len() == n,
            mags == magnitudes(x@),
            done == pulses(mags, k as int),
            done == ints(m@),
            forall|q: int| 0 <= q < n ==> (#[trigger] ints(m@)[q]) <= k,
            out.len() == t,
            forall|q: int| 0 <= q < t ==> #[trigger] out@[q] == codeword(x@, k as int)[q],
        decreases n - t,
    {
        assert(ints(m@)[t as int] <= k);
        let v: i32 = m[t] as i32;
        out.push(
            if x[t] < 0 {
                -v
            } else {
                v
            },
        );
        t += 1;
    }
    out
}

/// The places and values of the nonzero entries.
pub open spec fn is_sparse(p: Seq<i32>, idx: Seq<u16>, val: Seq<i32>) -> bool {
    &&& idx.len() == val.len()
    &&& forall|i: int|
        0 <= i < idx.len() ==> (#[trigger] idx[i]) < p.len() && val[i] == p[idx[i] as int]
            && val[i] != 0
    &&& forall|i: int, j: int| 0 <= i < j < idx.len() ==> (#[trigger] idx[i]) < (#[trigger] idx[j])
    &&& forall|q: int| 0 <= q < p.len() && (#[trigger] p[q]) != 0 ==> idx.contains(q as u16)
}

/// The nonzero entries of a codeword, in order: what scoring gathers.
pub fn sparse(p: &Vec<i32>) -> (r: (Vec<u16>, Vec<i32>))
    requires
        p.len() <= 0x1_0000,
    ensures
        is_sparse(p@, r.0@, r.1@),
{
    let mut idx: Vec<u16> = Vec::new();
    let mut val: Vec<i32> = Vec::new();
    let mut q: usize = 0;
    while q < p.len()
        invariant
            q <= p.len() <= 0x1_0000,
            idx.len() == val.len(),
            forall|i: int|
                0 <= i < idx.len() ==> (#[trigger] idx@[i]) < q && val@[i] == p@[idx@[i] as int]
                    && val@[i] != 0,
            forall|i: int, j: int|
                0 <= i < j < idx.len() ==> (#[trigger] idx@[i]) < (#[trigger] idx@[j]),
            forall|t: int| 0 <= t < q && (#[trigger] p@[t]) != 0 ==> idx@.contains(t as u16),
        decreases p.len() - q,
    {
        let ghost before = idx@;
        if p[q] != 0 {
            idx.push(q as u16);
            val.push(p[q]);
            proof {
                assert forall|t: int| 0 <= t < q + 1 && (#[trigger] p@[t]) != 0 implies idx@.contains(
                    t as u16,
                ) by {
                    if t < q {
                        assert(before.contains(t as u16));
                        let i = choose|i: int| 0 <= i < before.len() && before[i] == t as u16;
                        assert(idx@[i] == t as u16);
                    } else {
                        assert(idx@[before.len() as int] == t as u16);
                    }
                }
            }
        }
        q += 1;
    }
    (idx, val)
}

// ---- Laws of the codeword ----

proof fn lemma_sum_is_total(s: Seq<int>, n: int)
    requires
        0 <= n <= s.len(),
    ensures
        sum_first(s, n) == total(s.take(n)),
    decreases n,
{
    if n > 0 {
        lemma_sum_is_total(s, n - 1);
        assert(s.take(n) =~= s.take(n - 1).push(s[n - 1]));
        total_of_push(s.take(n - 1), s[n - 1]);
    }
}

proof fn lemma_dot_is_inner(a: Seq<int>, m: Seq<int>, n: int)
    requires
        a.len() == m.len(),
        0 <= n <= m.len(),
    ensures
        dot_first(a, m, n) == inner(a.take(n), m.take(n)),
    decreases n,
{
    if n > 0 {
        lemma_dot_is_inner(a, m, n - 1);
        assert(a.take(n) =~= a.take(n - 1).push(a[n - 1]));
        assert(m.take(n) =~= m.take(n - 1).push(m[n - 1]));
        inner_of_push(a.take(n - 1), m.take(n - 1), a[n - 1], m[n - 1]);
    }
}

proof fn lemma_squares_are_inner(m: Seq<int>, n: int)
    requires
        0 <= n <= m.len(),
    ensures
        squares_first(m, n) == inner(m.take(n), m.take(n)),
    decreases n,
{
    if n > 0 {
        lemma_squares_are_inner(m, n - 1);
        assert(m.take(n) =~= m.take(n - 1).push(m[n - 1]));
        inner_of_push(m.take(n - 1), m.take(n - 1), m[n - 1], m[n - 1]);
    }
}

/// `w` points at least as closely along `a` as `v` does: the squared cosine of the angle is no
/// smaller.
pub open spec fn points_closer(a: Seq<int>, v: Seq<int>, w: Seq<int>) -> bool {
    inner(a, v) * inner(a, v) * inner(w, w) <= inner(a, w) * inner(a, w) * inner(v, v)
}

/// `m` with one more pulse at `i`.
pub open spec fn one_more(m: Seq<int>, i: int) -> Seq<int> {
    m.update(i, m[i] + 1)
}

proof fn lemma_gains_are_cosines(a: Seq<int>, m: Seq<int>, i: int)
    requires
        a.len() == m.len(),
        0 <= i < m.len(),
    ensures
        gain_over(a, m, i) == inner(a, one_more(m, i)) * inner(a, one_more(m, i)),
        gain_under(m, i) == inner(one_more(m, i), one_more(m, i)),
{
    let w = one_more(m, i);
    let n = m.len() as int;
    lemma_update_sums(a, m, i, n);
    lemma_dot_is_inner(a, w, n);
    lemma_squares_are_inner(w, n);
    assert(a.take(n) =~= a);
    assert(w.take(n) =~= w);
}

/// A pulse goes where the pulses, with it, point most closely along the block; of several such
/// places to the first.
pub proof fn a_pulse_goes_where_the_direction_is_closest(a: Seq<int>, m: Seq<int>, j: int)
    requires
        a.len() == m.len(),
        0 <= j < m.len(),
        forall|i: int| 0 <= i < m.len() ==> (#[trigger] m[i]) >= 0,
    ensures
        ({
            let b = best_pulse(a, m, m.len() - 1);
            &&& 0 <= b < m.len()
            &&& points_closer(a, one_more(m, j), one_more(m, b))
            &&& j < b ==> !points_closer(a, one_more(m, b), one_more(m, j))
        }),
{
    let b = best_pulse(a, m, m.len() - 1);
    lemma_best_place(a, m, m.len() - 1);
    the_best_pulse_gains_most(a, m, m.len() - 1, j);
    lemma_gains_are_cosines(a, m, j);
    lemma_gains_are_cosines(a, m, b);
    if j < b {
        lemma_first_gain(a, m, m.len() - 1, j);
    }
}

/// Every place before the chosen one gains less.
proof fn lemma_first_gain(a: Seq<int>, m: Seq<int>, n: int, j: int)
    requires
        a.len() == m.len(),
        0 <= j < best_pulse(a, m, n),
        0 <= n < m.len(),
        forall|i: int| 0 <= i < m.len() ==> (#[trigger] m[i]) >= 0,
    ensures
        gains_more(a, m, best_pulse(a, m, n), j),
    decreases n,
{
    if n > 0 {
        let b = best_pulse(a, m, n - 1);
        lemma_best_place(a, m, n - 1);
        if gains_more(a, m, n, b) {
            the_best_pulse_gains_most(a, m, n - 1, j);
            let (nj, dj) = (gain_over(a, m, j), gain_under(m, j));
            let (nb, db) = (gain_over(a, m, b), gain_under(m, b));
            let (nn, dn) = (gain_over(a, m, n), gain_under(m, n));
            lemma_squares_grow(m, m.len() as int);
            assert(m[j] >= 0 && m[b] >= 0 && m[n] >= 0);
            assert(nn * dj > nj * dn) by (nonlinear_arith)
                requires
                    nj * db <= nb * dj,
                    nn * db > nb * dn,
                    dj > 0,
                    db > 0,
                    dn > 0,
            ;
        } else {
            lemma_first_gain(a, m, n - 1, j);
        }
    }
}

/// `steps` grows pulses one at a time, each where the direction is closest.
pub open spec fn is_greedy(a: Seq<int>, steps: Seq<Seq<int>>) -> bool {
    forall|t: int| 0 <= t < steps.len() - 1 ==> #[trigger] is_greedy_at(a, steps, t)
}

/// Step `t` puts one pulse where the direction is closest.
pub open spec fn is_greedy_at(a: Seq<int>, steps: Seq<Seq<int>>, t: int) -> bool {
    exists|b: int|
        {
            &&& 0 <= b < a.len()
            &&& steps[t + 1] == #[trigger] one_more(steps[t], b)
            &&& forall|j: int|
                0 <= j < a.len() ==> points_closer(a, #[trigger] one_more(steps[t], j), steps[t + 1])
        }
}

proof fn lemma_greedy_steps(a: Seq<int>, m: Seq<int>, n: nat) -> (steps: Seq<Seq<int>>)
    requires
        a.len() == m.len(),
        m.len() > 0,
        nonnegative(m),
    ensures
        steps.len() == n + 1,
        steps[0] == m,
        steps.last() == with_pulses(a, m, n),
        is_greedy(a, steps),
    decreases n,
{
    if n == 0 {
        seq![m]
    } else {
        let b = best_pulse(a, m, m.len() - 1);
        lemma_best_place(a, m, m.len() - 1);
        let w = one_more(m, b);
        assert(nonnegative(w)) by {
            assert forall|i: int| 0 <= i < w.len() implies (#[trigger] w[i]) >= 0 by {
                assert(m[i] >= 0);
            }
        }
        let rest = lemma_greedy_steps(a, w, (n - 1) as nat);
        let steps = seq![m] + rest;
        assert forall|t: int| 0 <= t < steps.len() - 1 implies #[trigger] is_greedy_at(
            a,
            steps,
            t,
        ) by {
            if t == 0 {
                assert(steps[1] == one_more(steps[0], b));
                assert forall|j: int| 0 <= j < a.len() implies points_closer(
                    a,
                    #[trigger] one_more(steps[0], j),
                    steps[1],
                ) by {
                    a_pulse_goes_where_the_direction_is_closest(a, m, j);
                }
            } else {
                assert(is_greedy_at(a, rest, t - 1));
                assert(steps[t] == rest[t - 1] && steps[t + 1] == rest[t]);
            }
        }
        assert(steps.last() == rest.last());
        steps
    }
}

/// A block that is not zero starts from every coordinate's share of the pulses, rounded down, and
/// grows greedily until it has `k` pulses.
pub proof fn a_codeword_is_grown_greedily(a: Seq<int>, k: int) -> (steps: Seq<Seq<int>>)
    requires
        forall|i: int| 0 <= i < a.len() ==> (#[trigger] a[i]) >= 0,
        k >= 0,
        total(a) > 0,
    ensures
        steps.len() > 0,
        steps[0].len() == a.len(),
        forall|i: int|
            0 <= i < a.len() ==> (#[trigger] steps[0][i]) * total(a) <= k * a[i] && k * a[i] < (
            steps[0][i] + 1) * total(a),
        is_greedy(a, steps),
        steps.last() == pulses(a, k),
        total(pulses(a, k)) == k,
{
    let n = a.len() as int;
    lemma_sum_is_total(a, n);
    assert(a.take(n) =~= a);
    assert(nonnegative(a));
    let s = sum_first(a, n);
    let m = first_pulses(a, k);
    lemma_first_pulses(a, k, n);
    codeword_has_k_pulses(a, k);
    let p = pulses(a, k);
    lemma_sum_is_total(p, n);
    assert(p.take(n) =~= p);
    if n == 0 {
        assert(a =~= Seq::empty());
        total_of_nothing(a);
    }
    assert forall|i: int| 0 <= i < n implies (#[trigger] m[i]) * s <= k * a[i] && k * a[i] < (m[i]
        + 1) * s by {
        vstd::arithmetic::div_mod::lemma_fundamental_div_mod(k * a[i], s);
        vstd::arithmetic::div_mod::lemma_mod_bound(k * a[i], s);
        let q = (k * a[i]) / s;
        assert((q + 1) * s == s * q + s && q * s == s * q) by (nonlinear_arith);
    }
    let used = sum_first(m, n);
    assert(used <= k) by (nonlinear_arith)
        requires
            used * s <= k * s,
            s > 0,
    ;
    lemma_greedy_steps(a, m, (k - used) as nat)
}

/// A codeword has the signs of its block and the pulses of its magnitudes; a zero block has none.
pub proof fn a_codeword_has_the_signs_of_its_block(x: Seq<i64>, k: int, i: int)
    requires
        0 <= i < x.len(),
    ensures
        codeword(x, k).len() == x.len(),
        magnitudes(x)[i] * magnitudes(x)[i] == x[i] * x[i],
        magnitudes(x)[i] >= 0,
        x[i] >= 0 ==> codeword(x, k)[i] == pulses(magnitudes(x), k)[i],
        x[i] < 0 ==> codeword(x, k)[i] + pulses(magnitudes(x), k)[i] == 0,
        (forall|j: int| 0 <= j < x.len() ==> x[j] == 0) ==> codeword(x, k)[i] == 0,
{
    let v = x[i] as int;
    assert((-v) * (-v) == v * v) by (nonlinear_arith);
    if forall|j: int| 0 <= j < x.len() ==> x[j] == 0 {
        lemma_zero_block(x, x.len() as int);
    }
}

proof fn lemma_zero_block(x: Seq<i64>, n: int)
    requires
        forall|j: int| 0 <= j < x.len() ==> x[j] == 0,
        0 <= n <= x.len(),
    ensures
        sum_first(magnitudes(x), n) == 0,
    decreases n,
{
    if n > 0 {
        lemma_zero_block(x, n - 1);
        assert(x[n - 1] == 0);
    }
}

// ---- Laws of the rate ----

/// Without coordinates there is the empty vector only.
pub proof fn only_the_empty_vector_has_no_coordinates(k: nat)
    ensures
        pulse_vectors(0, k) == if k == 0 {
            1nat
        } else {
            0
        },
{
}

/// The chosen pulses are the fewest whose codewords outnumber `2^(rate * b)`: any fewer are too
/// few, and the chosen ones are enough unless they are the most that are tried.
pub proof fn the_fewest_pulses_reach_the_rate(b: nat, rate: nat, k: nat, j: nat)
    requires
        is_pulse_choice(b, rate, k),
        b > 0,
    ensures
        1 <= k <= 8 * b,
        1 <= j < k ==> pulse_vectors(b, j) < pow2(rate * b),
        k < 8 * b ==> pow2(rate * b) <= pulse_vectors(b, k),
{
    assert(b * rate == rate * b) by (nonlinear_arith);
    if 1 <= j < k {
        assert(!reaches_rate(b, j, rate));
    }
}

/// Only one number of pulses is the choice.
pub proof fn the_pulse_choice_is_unique(b: nat, rate: nat, x: nat, y: nat)
    requires
        is_pulse_choice(b, rate, x),
        is_pulse_choice(b, rate, y),
    ensures
        x == y,
{
    if x < y {
        if x >= 1 {
            assert(!reaches_rate(b, x, rate));
        }
    } else if y < x {
        if y >= 1 {
            assert(!reaches_rate(b, y, rate));
        }
    }
}

proof fn lemma_bytes_are_powers(n: nat)
    ensures
        pow2(8 * n) == pow(256, n),
    decreases n,
{
    reveal(pow);
    vstd::arithmetic::power2::lemma2_to64();
    if n > 0 {
        lemma_bytes_are_powers((n - 1) as nat);
        vstd::arithmetic::power2::lemma_pow2_adds(8, (8 * (n - 1)) as nat);
        assert(pow2(8) == 256);
    }
}

/// A record has just enough bytes to tell apart every choice of one codeword for each block.
pub proof fn a_record_tells_its_codewords_apart(blocks: nat, b: nat, k: nat, bytes: nat)
    requires
        is_record_size(blocks, b, k, bytes),
    ensures
        pow(pulse_vectors(b, k) as int, blocks) <= pow(256, bytes),
        bytes > 0 ==> pow(256, (bytes - 1) as nat) < pow(pulse_vectors(b, k) as int, blocks),
{
    lemma_bytes_are_powers(bytes);
    if bytes > 0 {
        lemma_bytes_are_powers((bytes - 1) as nat);
    }
}

proof fn lemma_record_size_once(blocks: nat, b: nat, k: nat, x: nat, y: nat)
    requires
        is_record_size(blocks, b, k, x),
        is_record_size(blocks, b, k, y),
    ensures
        x == y,
{
    if x < y {
        lemma_pow2_order(8 * x, (8 * (y - 1)) as nat);
    } else if y < x {
        lemma_pow2_order(8 * y, (8 * (x - 1)) as nat);
    }
}

/// Of the block lengths 64, 32, 16 and 8 that divide the dimension, none gives a smaller record
/// than the chosen one, and none that is longer gives the same.
pub proof fn the_smallest_record_is_chosen(dim: nat, rate: nat, b: nat, c: nat, x: nat, y: nat)
    requires
        is_block_choice(dim, rate, b),
        c == 64 || c == 32 || c == 16 || c == 8,
        0 < dim,
        dim % c == 0,
        is_vector_size(dim, rate, b, x),
        is_vector_size(dim, rate, c, y),
    ensures
        dim % b == 0,
        b == 64 || b == 32 || b == 16 || b == 8,
        x < y || (x == y && b >= c),
{
    vstd::arithmetic::div_mod::lemma_fundamental_div_mod(dim as int, c as int);
    assert(dim >= c) by (nonlinear_arith)
        requires
            dim as int == c * (dim as int / c as int) + dim as int % c as int,
            dim % c == 0,
            dim > 0,
            c > 0,
    ;
    assert(is_candidate(c) && fits_block(dim, c));
    let bytes = choose|bytes: nat|
        {
            &&& #[trigger] is_vector_size(dim, rate, b, bytes)
            &&& forall|c: nat|
                is_candidate(c) && #[trigger] fits_block(dim, c) ==> beats_or_ties(
                    dim,
                    rate,
                    b,
                    bytes,
                    c,
                )
        };
    assert(beats_or_ties(dim, rate, b, bytes, c));
    let other = choose|other: nat| #[trigger]
        is_vector_size(dim, rate, c, other) && (bytes < other || (bytes == other && b >= c));
    lemma_vector_size_once(dim, rate, b, bytes, x);
    lemma_vector_size_once(dim, rate, c, other, y);
}

proof fn lemma_vector_size_once(dim: nat, rate: nat, b: nat, x: nat, y: nat)
    requires
        is_vector_size(dim, rate, b, x),
        is_vector_size(dim, rate, b, y),
    ensures
        x == y,
{
    let i = choose|k: nat| #[trigger]
        is_pulse_choice(b, rate, k) && is_record_size(dim / b, b, k, x);
    let j = choose|k: nat| #[trigger]
        is_pulse_choice(b, rate, k) && is_record_size(dim / b, b, k, y);
    the_pulse_choice_is_unique(b, rate, i, j);
    lemma_record_size_once(dim / b, b, i, x, y);
}

/// Where none of the four lengths divides the dimension, a block has eight coordinates, or all of
/// them if there are fewer.
pub proof fn odd_dimensions_have_short_blocks(dim: nat, rate: nat, b: nat)
    requires
        is_block_choice(dim, rate, b),
        dim % 8 != 0 || dim == 0,
    ensures
        dim >= 8 ==> b == 8,
        dim < 8 ==> b == dim,
{
    assert forall|c: nat| is_candidate(c) implies !#[trigger] fits_block(dim, c) by {
        if fits_block(dim, c) {
            assert(c % 8 == 0);
            vstd::arithmetic::div_mod::lemma_fundamental_div_mod(dim as int, c as int);
            vstd::arithmetic::div_mod::lemma_fundamental_div_mod(c as int, 8);
            let q = dim as int / c as int;
            let w = c as int / 8;
            assert(dim as int == 8 * (w * q)) by (nonlinear_arith)
                requires
                    dim as int == c as int * q,
                    c as int == 8 * w,
            ;
        }
    }
}

/// The gathered entries of a codeword are its nonzero ones: putting them back in their places
/// gives the codeword.
pub proof fn gathered_entries_give_the_codeword_back(
    p: Seq<i32>,
    idx: Seq<u16>,
    val: Seq<i32>,
    q: int,
)
    requires
        p.len() <= 0x1_0000,
        is_sparse(p, idx, val),
        0 <= q < p.len(),
    ensures
        p[q] == 0 <==> forall|i: int| 0 <= i < idx.len() ==> #[trigger] idx[i] != q,
        forall|i: int| 0 <= i < idx.len() && #[trigger] idx[i] == q ==> val[i] == p[q],
{
    if p[q] != 0 {
        assert(idx.contains(q as u16));
        let i = choose|i: int| 0 <= i < idx.len() && idx[i] == q as u16;
        assert(idx[i] == q);
    }
}

} // verus!
