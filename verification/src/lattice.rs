//! The E8 lattice in raw doubled coordinates: enumeration and codebooks of lowest-norm points.
//!
//! A lattice point `x` is held as the integers `2 * x_i`. All eight have the same parity (even
//! for integer points, odd for half-integer ones) and their sum is a multiple of four.

use vstd::prelude::*;

use crate::order::{in_order, is_sort_of, merge, Ranked};
use crate::sums::{total, total_of_nothing, total_of_push};

verus! {

/// The sum of the first `k` coordinates.
pub open spec fn sum_upto(p: Seq<i16>, k: int) -> int
    decreases k,
{
    if k <= 0 {
        0
    } else {
        sum_upto(p, k - 1) + p[k - 1]
    }
}

/// The sum of the squares of the first `k` coordinates.
pub open spec fn norm_upto(p: Seq<i16>, k: int) -> int
    decreases k,
{
    if k <= 0 {
        0
    } else {
        norm_upto(p, k - 1) + p[k - 1] * p[k - 1]
    }
}

/// The squared norm of a point, in raw coordinates.
pub open spec fn norm2(p: [i16; 8]) -> int {
    norm_upto(p@, 8)
}

/// Every coordinate from `k` on has the given parity.
pub open spec fn parity_from(p: Seq<i16>, k: int, parity: int) -> bool {
    forall|i: int| k <= i < p.len() ==> (#[trigger] p[i]) as int % 2 == parity
}

/// `p` is a point of E8.
pub open spec fn is_e8(p: [i16; 8]) -> bool {
    &&& parity_from(p@, 0, 0) || parity_from(p@, 0, 1)
    &&& sum_upto(p@, 8) % 4 == 0
}

/// From coordinate `k` on, `a` comes before `b` in lexical order.
pub open spec fn lex_before(a: Seq<i16>, b: Seq<i16>, k: int) -> bool
    decreases 8 - k,
{
    if k >= 8 {
        false
    } else {
        a[k] < b[k] || (a[k] == b[k] && lex_before(a, b, k + 1))
    }
}

/// Points in the order of the codebook: by squared norm, then lexically.
impl Ranked for [i16; 8] {
    open spec fn leq(self, other: Self) -> bool {
        ||| norm2(self) < norm2(other)
        ||| norm2(self) == norm2(other) && !lex_before(other@, self@, 0)
    }

    proof fn leq_total(a: Self, b: Self) {
        lemma_lex_asymmetric(a@, b@, 0);
    }

    proof fn leq_trans(a: Self, b: Self, c: Self) {
        if norm2(a) == norm2(c) && lex_before(c@, a@, 0) {
            lemma_lex_split(c@, a@, b@, 0);
        }
    }

    fn no_later(&self, other: &Self) -> (r: bool) {
        let a: i64 = norm_of(self);
        let b: i64 = norm_of(other);
        if a != b {
            return a < b;
        }
        !comes_before(other, self)
    }
}

pub(crate) proof fn lemma_lex_asymmetric(a: Seq<i16>, b: Seq<i16>, k: int)
    requires
        0 <= k <= 8,
    ensures
        !(lex_before(a, b, k) && lex_before(b, a, k)),
    decreases 8 - k,
{
    if k < 8 {
        lemma_lex_asymmetric(a, b, k + 1);
    }
}

/// Whatever lies between two points in lexical order is after the first or before the second.
proof fn lemma_lex_split(a: Seq<i16>, b: Seq<i16>, c: Seq<i16>, k: int)
    requires
        0 <= k <= 8,
        lex_before(a, b, k),
    ensures
        lex_before(a, c, k) || lex_before(c, b, k),
    decreases 8 - k,
{
    if k < 8 && a[k] == b[k] && a[k] == c[k] {
        lemma_lex_split(a, b, c, k + 1);
    }
}

pub(crate) proof fn lemma_lex_total(a: Seq<i16>, b: Seq<i16>, k: int)
    requires
        0 <= k <= 8,
        !lex_before(a, b, k),
        !lex_before(b, a, k),
    ensures
        forall|i: int| k <= i < 8 ==> #[trigger] a[i] == b[i],
    decreases 8 - k,
{
    if k < 8 {
        lemma_lex_total(a, b, k + 1);
    }
}

/// Two points that come no later than each other are equal.
proof fn lemma_leq_antisymmetric(a: [i16; 8], b: [i16; 8])
    requires
        a.leq(b),
        b.leq(a),
    ensures
        a == b,
{
    lemma_lex_total(a@, b@, 0);
    assert(a@ =~= b@);
}

pub(crate) proof fn lemma_norm_bounds(p: Seq<i16>, k: int)
    requires
        0 <= k <= p.len(),
    ensures
        0 <= norm_upto(p, k) <= k * 0x4000_0000,
        -k * 0x8000 <= sum_upto(p, k) <= k * 0x8000,
    decreases k,
{
    if k > 0 {
        lemma_norm_bounds(p, k - 1);
        let x = p[k - 1] as int;
        assert(0 <= x * x <= 0x4000_0000) by (nonlinear_arith)
            requires
                -0x8000 <= x <= 0x7fff,
        ;
    }
}

pub(crate) proof fn lemma_norm_grows(p: Seq<i16>, j: int, k: int)
    requires
        0 <= j <= k <= p.len(),
    ensures
        norm_upto(p, j) <= norm_upto(p, k),
    decreases k - j,
{
    if j < k {
        lemma_norm_grows(p, j, k - 1);
        let x = p[k - 1] as int;
        assert(0 <= x * x) by (nonlinear_arith);
    }
}

pub(crate) proof fn lemma_upto_prefix(p: Seq<i16>, q: Seq<i16>, k: int)
    requires
        0 <= k <= p.len(),
        k <= q.len(),
        forall|i: int| 0 <= i < k ==> #[trigger] p[i] == q[i],
    ensures
        norm_upto(p, k) == norm_upto(q, k),
        sum_upto(p, k) == sum_upto(q, k),
    decreases k,
{
    if k > 0 {
        lemma_upto_prefix(p, q, k - 1);
    }
}

/// The squared norm of a point.
pub(crate) fn norm_of(p: &[i16; 8]) -> (n: i64)
    ensures
        n == norm2(*p),
{
    let mut n: i64 = 0;
    let mut k: usize = 0;
    while k < 8
        invariant
            k <= 8,
            n == norm_upto(p@, k as int),
        decreases 8 - k,
    {
        proof {
            lemma_norm_bounds(p@, k as int);
            let x = p@[k as int] as int;
            assert(0 <= x * x <= 0x4000_0000) by (nonlinear_arith)
                requires
                    -0x8000 <= x <= 0x7fff,
            ;
        }
        let x: i64 = p[k] as i64;
        n = n + x * x;
        k += 1;
    }
    n
}

/// Whether `a` comes before `b` in lexical order.
fn comes_before(a: &[i16; 8], b: &[i16; 8]) -> (r: bool)
    ensures
        r == lex_before(a@, b@, 0),
{
    let mut k: usize = 0;
    while k < 8
        invariant
            k <= 8,
            lex_before(a@, b@, 0) == lex_before(a@, b@, k as int),
        decreases 8 - k,
    {
        if a[k] < b[k] {
            return true;
        }
        if a[k] > b[k] {
            return false;
        }
        k += 1;
    }
    false
}

// ---- Enumeration ----

/// `p` agrees with `cur` below `pos` and has the given parity from there on; from there on its
/// squares add up to at most `left`, and its coordinates, added to `sum`, to a multiple of four.
spec fn completes(
    p: Seq<i16>,
    cur: Seq<i16>,
    pos: int,
    parity: int,
    left: int,
    sum: int,
) -> bool {
    &&& p.len() == 8
    &&& forall|i: int| 0 <= i < pos ==> #[trigger] p[i] == cur[i]
    &&& parity_from(p, pos, parity)
    &&& norm_upto(p, 8) - norm_upto(p, pos) <= left
    &&& (sum + sum_upto(p, 8) - sum_upto(p, pos)) % 4 == 0
}

/// `s` is in strictly ascending lexical order from index `from` on.
pub(crate) open spec fn lex_ascending(s: Seq<[i16; 8]>, from: int) -> bool {
    forall|i: int, j: int|
        from <= i < j < s.len() ==> lex_before((#[trigger] s[i])@, (#[trigger] s[j])@, 0)
}

pub(crate) proof fn lemma_lex_at(a: Seq<i16>, b: Seq<i16>, k: int, pos: int)
    requires
        0 <= k <= pos < 8,
        forall|i: int| k <= i < pos ==> #[trigger] a[i] == b[i],
        a[pos] < b[pos],
    ensures
        lex_before(a, b, k),
    decreases pos - k,
{
    if k < pos {
        lemma_lex_at(a, b, k + 1, pos);
    }
}

/// The largest integer whose square is at most `v`.
fn isqrt(v: i64) -> (r: i64)
    requires
        0 <= v <= 0x4000_0000,
    ensures
        0 <= r <= 0x8000,
        r * r <= v,
        v < (r + 1) * (r + 1),
{
    let mut r: i64 = 0;
    assert((0x8001 * 0x8001) > v);
    loop
        invariant
            0 <= r <= 0x8000,
            r * r <= v <= 0x4000_0000,
        ensures
            0 <= r <= 0x8000,
            r * r <= v,
            v < (r + 1) * (r + 1),
        decreases 0x8000 - r,
    {
        assert(0 <= (r + 1) * (r + 1) <= 0x8001 * 0x8001) by (nonlinear_arith)
            requires
                0 <= r <= 0x8000,
        ;
        if (r + 1) * (r + 1) > v {
            break;
        }
        assert(r < 0x8000) by (nonlinear_arith)
            requires
                (r + 1) * (r + 1) <= v,
                v <= 0x4000_0000,
                0 <= r,
        ;
        r += 1;
    }
    r
}

/// Appends every completion of the first `pos` coordinates of `cur`, in lexical order.
#[verifier::rlimit(60)]
fn enum_rec(
    pos: usize,
    left: i64,
    sum_so_far: i64,
    parity: i64,
    cur: &mut [i16; 8],
    out: &mut Vec<[i16; 8]>,
)
    requires
        pos <= 8,
        0 <= parity <= 1,
        0 <= left < 0x4000_0000,
        -i64::MAX + (8 - pos) * 0x8000 <= sum_so_far <= i64::MAX - (8 - pos) * 0x8000,
    ensures
        forall|i: int| 0 <= i < pos ==> final(cur)@[i] == old(cur)@[i],
        final(out)@.len() >= old(out)@.len(),
        final(out)@.take(old(out)@.len() as int) == old(out)@,
        forall|i: int|
            old(out)@.len() <= i < final(out)@.len() ==> completes(
                (#[trigger] final(out)@[i])@,
                old(cur)@,
                pos as int,
                parity as int,
                left as int,
                sum_so_far as int,
            ),
        forall|p: [i16; 8]|
            completes(p@, old(cur)@, pos as int, parity as int, left as int, sum_so_far as int)
                ==> #[trigger] final(out)@.skip(old(out)@.len() as int).contains(p),
        lex_ascending(final(out)@, old(out)@.len() as int),
    decreases 8 - pos,
{
    let ghost cur0 = cur@;
    let ghost out0 = out@;
    let ghost n0 = out@.len() as int;
    if pos == 8 {
        if sum_so_far % 4 == 0 {
            out.push(*cur);
            proof {
                assert(out@[n0] == *cur);
                assert(out@.take(n0) =~= out0);
            }
        } else {
            assert(out@.take(n0) =~= out0);
        }
        proof {
            assert forall|p: [i16; 8]|
                completes(
                    p@,
                    cur0,
                    8,
                    parity as int,
                    left as int,
                    sum_so_far as int,
                ) implies #[trigger] out@.skip(
                n0,
            ).contains(p) by {
                assert(p@ =~= cur0);
                assert(p == *cur);
                assert(out@.skip(n0)[0] == p);
            }
        }
        return;
    }
    let bound: i64 = isqrt(left);
    assert(bound <= 0x7fff) by (nonlinear_arith)
        requires
            bound * bound < 0x4000_0000,
            0 <= bound,
    ;
    let mut r: i64 = -bound;
    if (r % 2 == 0) != (parity == 0) {
        r += 1;
    }
    proof {
        assert(out@.take(n0) =~= out0);
        assert forall|p: [i16; 8]|
            completes(
                p@,
                cur0,
                pos as int,
                parity as int,
                left as int,
                sum_so_far as int,
            ) && p@[pos as int]
                < r implies #[trigger] out@.skip(n0).contains(p) by {
            lemma_coordinate_bound(
                p@,
                cur0,
                pos as int,
                parity as int,
                left as int,
                sum_so_far as int,
                bound as int,
            );
        }
    }
    while r <= bound
        invariant
            pos < 8,
            cur0.len() == 8,
            0 <= parity <= 1,
            0 <= left < 0x4000_0000,
            0 <= bound <= 0x7fff,
            bound * bound <= left,
            -bound <= r <= bound + 2,
            r as int % 2 == parity,
            -i64::MAX + (8 - pos) * 0x8000 <= sum_so_far <= i64::MAX - (8 - pos) * 0x8000,
            forall|i: int| 0 <= i < pos ==> #[trigger] cur@[i] == cur0[i],
            n0 <= out@.len(),
            out@.take(n0) == out0,
            n0 == out0.len(),
            forall|i: int|
                n0 <= i < out@.len() ==> completes(
                    (#[trigger] out@[i])@,
                    cur0,
                    pos as int,
                    parity as int,
                    left as int,
                    sum_so_far as int,
                ) && out@[i]@[pos as int] < r,
            forall|p: [i16; 8]|
                completes(
                    p@,
                    cur0,
                    pos as int,
                    parity as int,
                    left as int,
                    sum_so_far as int,
                ) && p@[pos as int]
                    < r ==> #[trigger] out@.skip(n0).contains(p),
            lex_ascending(out@, n0),
        decreases bound + 2 - r,
    {
        proof {
            assert(0 <= r * r <= bound * bound) by (nonlinear_arith)
                requires
                    -bound <= r <= bound,
                    0 <= bound,
            ;
        }
        let ghost mid = out@;
        let ghost n1 = out@.len() as int;
        cur[pos] = r as i16;
        let ghost at = cur@;
        proof {
            lemma_upto_prefix(at, cur0, pos as int);
        }
        enum_rec(pos + 1, left - r * r, sum_so_far + r, parity, cur, out);
        proof {
            let now = out@;
            assert forall|i: int| 0 <= i < pos implies #[trigger] cur@[i] == cur0[i] by {
                assert(cur@[i] == at[i]);
            }
            assert(now.take(n0) =~= out0) by {
                assert forall|i: int| 0 <= i < n0 implies now[i] == out0[i] by {
                    assert(now.take(n1)[i] == mid[i]);
                    assert(mid.take(n0)[i] == out0[i]);
                }
            }
            assert forall|i: int| n0 <= i < now.len() implies completes(
                (#[trigger] now[i])@,
                cur0,
                pos as int,
                parity as int,
                left as int,
                sum_so_far as int,
            ) && now[i]@[pos as int] < r + 2 && (i < n1 ==> now[i] == mid[i]) && (i >= n1
                ==> now[i]@[pos as int] == r) by {
                if i < n1 {
                    assert(now.take(n1)[i] == mid[i]);
                } else {
                    let p = now[i]@;
                    assert(completes(p, at, pos + 1, parity as int, left - r * r, sum_so_far + r));
                    assert(p[pos as int] == at[pos as int]);
                    assert forall|q: int| 0 <= q < pos implies #[trigger] p[q] == cur0[q] by {
                        assert(p[q] == at[q]);
                    }
                }
            }
            assert forall|p: [i16; 8]|
                completes(
                    p@,
                    cur0,
                    pos as int,
                    parity as int,
                    left as int,
                    sum_so_far as int,
                ) && p@[pos as int] < r
                    + 2 implies #[trigger] now.skip(n0).contains(p) by {
                let x = p@[pos as int] as int;
                assert(x % 2 == parity);
                if x < r {
                    assert(mid.skip(n0).contains(p));
                    let i = choose|i: int| 0 <= i < mid.skip(n0).len() && mid.skip(n0)[i] == p;
                    assert(now[n0 + i] == mid[n0 + i]);
                    assert(now.skip(n0)[i] == p);
                } else {
                    assert(x == r);
                    assert(completes(p@, at, pos + 1, parity as int, left - r * r, sum_so_far + r));
                    assert(now.skip(n1).contains(p));
                    let i = choose|i: int| 0 <= i < now.skip(n1).len() && now.skip(n1)[i] == p;
                    assert(now.skip(n0)[n1 - n0 + i] == p);
                }
            }
            assert forall|i: int, j: int| n0 <= i < j < now.len() implies lex_before(
                (#[trigger] now[i])@,
                (#[trigger] now[j])@,
                0,
            ) by {
                if j < n1 {
                    assert(now[i] == mid[i] && now[j] == mid[j]);
                } else if i < n1 {
                    assert(now[i] == mid[i]);
                    assert(now[j]@[pos as int] == r);
                    assert(completes(
                        now[i]@,
                        cur0,
                        pos as int,
                        parity as int,
                        left as int,
                        sum_so_far as int,
                    ));
                    assert(completes(
                        now[j]@,
                        cur0,
                        pos as int,
                        parity as int,
                        left as int,
                        sum_so_far as int,
                    ));
                    lemma_lex_at(now[i]@, now[j]@, 0, pos as int);
                }
            }
        }
        r += 2;
    }
    proof {
        assert forall|p: [i16; 8]|
            completes(
                p@,
                cur0,
                pos as int,
                parity as int,
                left as int,
                sum_so_far as int,
            ) implies #[trigger] out@.skip(
            n0,
        ).contains(p) by {
            lemma_coordinate_bound(
                p@,
                cur0,
                pos as int,
                parity as int,
                left as int,
                sum_so_far as int,
                bound as int,
            );
        }
    }
}

/// A completion has no coordinate beyond the square root of what is left.
proof fn lemma_coordinate_bound(
    p: Seq<i16>,
    cur: Seq<i16>,
    pos: int,
    parity: int,
    left: int,
    sum: int,
    bound: int,
)
    requires
        0 <= pos < 8,
        completes(p, cur, pos, parity, left, sum),
        0 <= bound,
        left < (bound + 1) * (bound + 1),
    ensures
        -bound <= p[pos] <= bound,
{
    lemma_norm_grows(p, pos + 1, 8);
    let x = p[pos] as int;
    assert(x * x < (bound + 1) * (bound + 1));
    assert(-bound <= x <= bound) by (nonlinear_arith)
        requires
            x * x < (bound + 1) * (bound + 1),
            0 <= bound,
    ;
}

/// `out` lists the points of E8 with a squared norm of at most `budget`, each once: first the
/// integer points, then the half-integer points, both in lexical order.
pub open spec fn is_ball(out: Seq<[i16; 8]>, budget: int) -> bool {
    &&& forall|i: int|
        0 <= i < out.len() ==> is_e8(#[trigger] out[i]) && norm2(out[i]) <= budget
    &&& forall|p: [i16; 8]| is_e8(p) && norm2(p) <= budget ==> #[trigger] out.contains(p)
    &&& forall|i: int, j: int|
        0 <= i < j < out.len() ==> listed_before(#[trigger] out[i], #[trigger] out[j])
}

/// Integer points before half-integer points, each kind in lexical order.
pub open spec fn listed_before(a: [i16; 8], b: [i16; 8]) -> bool {
    ||| a@[0] as int % 2 < b@[0] as int % 2
    ||| a@[0] as int % 2 == b@[0] as int % 2 && lex_before(a@, b@, 0)
}

/// All points of E8 with a squared norm of at most `budget`, in raw doubled coordinates.
pub fn enumerate_e8_raw(budget: i64) -> (out: Vec<[i16; 8]>)
    requires
        budget < 0x4000_0000,
    ensures
        is_ball(out@, budget as int),
{
    let mut out: Vec<[i16; 8]> = Vec::new();
    if budget < 0 {
        proof {
            assert forall|p: [i16; 8]| is_e8(p) && norm2(p) <= budget implies #[trigger] out@.contains(
                p,
            ) by {
                lemma_norm_bounds(p@, 8);
            }
        }
        return out;
    }
    let mut cur: [i16; 8] = [0i16; 8];
    let ghost origin = cur@;
    enum_rec(0, budget, 0, 0, &mut cur, &mut out);
    let ghost even = out@;
    let ghost n = out@.len() as int;
    let ghost start = cur@;
    enum_rec(0, budget, 0, 1, &mut cur, &mut out);
    proof {
        let all = out@;
        assert forall|i: int| 0 <= i < n implies #[trigger] all[i] == even[i] by {
            assert(all.take(n)[i] == even[i]);
        }
        assert forall|p: [i16; 8]| is_e8(p) && norm2(p) <= budget implies #[trigger] all.contains(
            p,
        ) by {
            if parity_from(p@, 0, 0) {
                assert(completes(p@, origin, 0, 0, budget as int, 0));
                assert(even.skip(0).contains(p));
                let i = choose|i: int| 0 <= i < even.skip(0).len() && even.skip(0)[i] == p;
                assert(all[i] == p);
            } else {
                assert(completes(p@, start, 0, 1, budget as int, 0));
                assert(all.skip(n).contains(p));
                let i = choose|i: int| 0 <= i < all.skip(n).len() && all.skip(n)[i] == p;
                assert(all[n + i] == p);
            }
        }
        assert forall|i: int, j: int| 0 <= i < j < all.len() implies listed_before(
            #[trigger] all[i],
            #[trigger] all[j],
        ) by {
            if i < n {
                assert(all[i] == even[i]);
                assert(parity_from(even[i]@, 0, 0));
            } else {
                assert(parity_from(all[i]@, 0, 1));
            }
            if j < n {
                assert(all[j] == even[j]);
                assert(parity_from(even[j]@, 0, 0));
            } else {
                assert(parity_from(all[j]@, 0, 1));
            }
        }
    }
    out
}

// ---- How many points there are ----

/// `k` divided `j` times by `n`.
spec fn quotient(k: int, n: int, j: int) -> int
    decreases j,
{
    if j <= 0 {
        k
    } else {
        quotient(k, n, j - 1) / n
    }
}

/// The `j`-th digit of `k` in base `n`.
spec fn digit(k: int, n: int, j: int) -> int {
    quotient(k, n, j) % n
}

/// The point whose coordinates are those of `shift` plus eight times the digits of `k`.
pub(crate) closed spec fn grid_point(shift: [i16; 8], k: int, n: int) -> [i16; 8] {
    [
        (shift@[0] + 8 * digit(k, n, 0)) as i16,
        (shift@[1] + 8 * digit(k, n, 1)) as i16,
        (shift@[2] + 8 * digit(k, n, 2)) as i16,
        (shift@[3] + 8 * digit(k, n, 3)) as i16,
        (shift@[4] + 8 * digit(k, n, 4)) as i16,
        (shift@[5] + 8 * digit(k, n, 5)) as i16,
        (shift@[6] + 8 * digit(k, n, 6)) as i16,
        (shift@[7] + 8 * digit(k, n, 7)) as i16,
    ]
}

/// The points of E8 close to the origin are at least as far in as this, in squared norm.
pub open spec fn ample_budget() -> int {
    26912
}

/// A point of E8 with coordinates between zero and two.
pub open spec fn is_shift(p: [i16; 8]) -> bool {
    &&& is_e8(p)
    &&& forall|j: int| 0 <= j < 8 ==> 0 <= (#[trigger] p@[j]) <= 2
}

proof fn lemma_grid_coordinate(shift: [i16; 8], k: int, n: int, j: int)
    requires
        is_shift(shift),
        1 <= n <= 8,
        0 <= j < 8,
    ensures
        0 <= digit(k, n, j) < n,
        grid_point(shift, k, n)@[j] == shift@[j] + 8 * digit(k, n, j),
        0 <= grid_point(shift, k, n)@[j] <= 58,
{
    vstd::arithmetic::div_mod::lemma_mod_bound(quotient(k, n, j), n);
    assert(0 <= shift@[j] <= 2);
    let p = grid_point(shift, k, n);
    assert(p@[j] == (shift@[j] + 8 * digit(k, n, j)) as i16) by {
        if j == 0 {
        } else if j == 1 {
        } else if j == 2 {
        } else if j == 3 {
        } else if j == 4 {
        } else if j == 5 {
        } else if j == 6 {
        } else {
            assert(j == 7);
        }
    }
}

proof fn lemma_grid_sums(shift: [i16; 8], k: int, n: int, j: int)
    requires
        is_shift(shift),
        1 <= n <= 8,
        0 <= j <= 8,
    ensures
        (sum_upto(grid_point(shift, k, n)@, j) - sum_upto(shift@, j)) % 4 == 0,
        norm_upto(grid_point(shift, k, n)@, j) <= j * 58 * 58,
    decreases j,
{
    if j > 0 {
        lemma_grid_sums(shift, k, n, j - 1);
        lemma_grid_coordinate(shift, k, n, j - 1);
        let x = grid_point(shift, k, n)@[j - 1] as int;
        assert(x * x <= 58 * 58) by (nonlinear_arith)
            requires
                0 <= x <= 58,
        ;
    }
}

/// Grid points lie on the lattice, near the origin, and differ from the shift by multiples of
/// eight.
pub(crate) proof fn lemma_grid_point(shift: [i16; 8], k: int, n: int)
    requires
        is_shift(shift),
        1 <= n <= 8,
    ensures
        is_e8(grid_point(shift, k, n)),
        norm2(grid_point(shift, k, n)) <= ample_budget(),
        forall|j: int|
            0 <= j < 8 ==> ((#[trigger] grid_point(shift, k, n)@[j]) - shift@[j]) % 8 == 0,
{
    let p = grid_point(shift, k, n);
    assert forall|j: int| 0 <= j < 8 implies ((#[trigger] p@[j]) - shift@[j]) % 8 == 0 && p@[j] as int
        % 2 == shift@[j] as int % 2 by {
        lemma_grid_coordinate(shift, k, n, j);
    }
    lemma_grid_sums(shift, k, n, 8);
    if parity_from(shift@, 0, 0) {
        assert(parity_from(p@, 0, 0));
    } else {
        assert(parity_from(p@, 0, 1));
    }
}

proof fn lemma_quotient_bound(k: int, n: int, j: int)
    requires
        1 <= n,
        0 <= j <= 8,
        0 <= k < vstd::arithmetic::power::pow(n, 8),
    ensures
        0 <= quotient(k, n, j) < vstd::arithmetic::power::pow(n, (8 - j) as nat),
    decreases j,
{
    if j > 0 {
        lemma_quotient_bound(k, n, j - 1);
        let q = quotient(k, n, j - 1);
        let w = vstd::arithmetic::power::pow(n, (8 - j) as nat);
        reveal(vstd::arithmetic::power::pow);
        assert(vstd::arithmetic::power::pow(n, (8 - j + 1) as nat) == n * w);
        assert(0 <= q / n < w) by (nonlinear_arith)
            requires
                0 <= q < n * w,
                1 <= n,
        ;
    }
}

proof fn lemma_same_digits(a: int, b: int, n: int, j: int)
    requires
        1 <= n,
        0 <= j <= 8,
        quotient(a, n, 8) == quotient(b, n, 8),
        forall|i: int| 0 <= i < 8 ==> #[trigger] digit(a, n, i) == digit(b, n, i),
    ensures
        quotient(a, n, j) == quotient(b, n, j),
    decreases 8 - j,
{
    if j < 8 {
        lemma_same_digits(a, b, n, j + 1);
        assert(digit(a, n, j) == digit(b, n, j));
        vstd::arithmetic::div_mod::lemma_fundamental_div_mod(quotient(a, n, j), n);
        vstd::arithmetic::div_mod::lemma_fundamental_div_mod(quotient(b, n, j), n);
    }
}

proof fn lemma_grid_injective(shift: [i16; 8], a: int, b: int, n: int)
    requires
        is_shift(shift),
        1 <= n <= 8,
        0 <= a < vstd::arithmetic::power::pow(n, 8),
        0 <= b < vstd::arithmetic::power::pow(n, 8),
        grid_point(shift, a, n) == grid_point(shift, b, n),
    ensures
        a == b,
{
    assert forall|j: int| 0 <= j < 8 implies #[trigger] digit(a, n, j) == digit(b, n, j) by {
        lemma_grid_coordinate(shift, a, n, j);
        lemma_grid_coordinate(shift, b, n, j);
    }
    lemma_quotient_bound(a, n, 8);
    lemma_quotient_bound(b, n, 8);
    vstd::arithmetic::power::lemma_pow0(n);
    lemma_same_digits(a, b, n, 0);
}

/// A list that holds every grid point of a shift has at least `n^8` entries.
pub(crate) proof fn lemma_grid_count(shift: [i16; 8], n: int, s: Seq<[i16; 8]>)
    requires
        is_shift(shift),
        1 <= n <= 8,
        forall|k: int| s.contains(#[trigger] grid_point(shift, k, n)),
    ensures
        s.len() >= vstd::arithmetic::power::pow(n, 8),
{
    let m = vstd::arithmetic::power::pow(n, 8);
    vstd::arithmetic::power::lemma_pow_positive(n, 8);
    let dom = vstd::set_lib::set_int_range(0, m);
    vstd::set_lib::lemma_int_range(0, m);
    let f = |k: int| grid_point(shift, k, n);
    let img = dom.map(f);
    assert forall|a: int, b: int| dom.contains(a) && dom.contains(b) && #[trigger] f(a) == #[trigger] f(
        b,
    ) implies a == b by {
        lemma_grid_injective(shift, a, b, n);
    }
    vstd::set_lib::lemma_map_size(dom, img, f);
    assert(img.subset_of(s.to_set())) by {
        assert forall|p: [i16; 8]| img.contains(p) implies s.to_set().contains(p) by {
            let k = choose|k: int| dom.contains(k) && f(k) == p;
            assert(s.contains(grid_point(shift, k, n)));
        }
    }
    vstd::seq_lib::seq_to_set_is_finite(s);
    vstd::set_lib::lemma_len_subset(img, s.to_set());
    s.lemma_cardinality_of_set();
}

// ---- Codebooks of lowest-norm points ----

/// `book` holds the `n` points of lowest norm among those that `member` accepts, by norm and
/// then in lexical order: no point that is left out comes before one that is kept.
pub open spec fn is_lowest(
    book: Seq<[i16; 8]>,
    member: spec_fn([i16; 8]) -> bool,
    n: nat,
) -> bool {
    &&& book.len() == n
    &&& in_order(book)
    &&& book.no_duplicates()
    &&& forall|i: int| 0 <= i < book.len() ==> member(#[trigger] book[i])
    &&& forall|p: [i16; 8], i: int|
        member(p) && !book.contains(p) && 0 <= i < book.len() ==> (#[trigger] book[i]).leq(p)
            && #[trigger] member(p)
}

/// The lattice itself, as a set of points.
pub open spec fn lattice() -> spec_fn([i16; 8]) -> bool {
    |p: [i16; 8]| is_e8(p)
}

/// At most one codebook is the lowest.
pub proof fn lowest_is_unique(
    a: Seq<[i16; 8]>,
    b: Seq<[i16; 8]>,
    member: spec_fn([i16; 8]) -> bool,
    n: nat,
)
    requires
        is_lowest(a, member, n),
        is_lowest(b, member, n),
    ensures
        a == b,
{
    lemma_lowest_prefix(a, b, member, n, n as int);
    assert(a =~= b);
}

proof fn lemma_lowest_prefix(
    a: Seq<[i16; 8]>,
    b: Seq<[i16; 8]>,
    member: spec_fn([i16; 8]) -> bool,
    n: nat,
    k: int,
)
    requires
        is_lowest(a, member, n),
        is_lowest(b, member, n),
        0 <= k <= n,
    ensures
        forall|i: int| 0 <= i < k ==> #[trigger] a[i] == b[i],
    decreases k,
{
    if k > 0 {
        lemma_lowest_prefix(a, b, member, n, k - 1);
        lemma_lowest_step(a, b, member, n, k - 1);
        lemma_lowest_step(b, a, member, n, k - 1);
        lemma_leq_antisymmetric(a[k - 1], b[k - 1]);
    }
}

proof fn lemma_lowest_step(
    a: Seq<[i16; 8]>,
    b: Seq<[i16; 8]>,
    member: spec_fn([i16; 8]) -> bool,
    n: nat,
    k: int,
)
    requires
        is_lowest(a, member, n),
        is_lowest(b, member, n),
        0 <= k < n,
        forall|i: int| 0 <= i < k ==> #[trigger] a[i] == b[i],
    ensures
        a[k].leq(b[k]),
{
    assert(member(b[k]));
    <[i16; 8]>::leq_total(b[k], b[k]);
    if a.contains(b[k]) {
        let i = choose|i: int| 0 <= i < a.len() && a[i] == b[k];
        if i < k {
            assert(a[i] == b[i]);
            assert(b[i] != b[k]);
        } else if i > k {
            assert(a[k].leq(a[i]));
        }
    } else {
        assert(a[k].leq(b[k]) && member(b[k]));
    }
}

/// Listed points are pairwise different.
pub(crate) proof fn lemma_ball_distinct(s: Seq<[i16; 8]>, budget: int)
    requires
        is_ball(s, budget),
    ensures
        s.no_duplicates(),
{
    assert forall|i: int, j: int| 0 <= i < s.len() && 0 <= j < s.len() && i != j implies s[i]
        != s[j] by {
        if i < j {
            assert(listed_before(s[i], s[j]));
            lemma_lex_asymmetric(s[i]@, s[j]@, 0);
        } else {
            assert(listed_before(s[j], s[i]));
            lemma_lex_asymmetric(s[i]@, s[j]@, 0);
        }
    }
}

/// Sorting a ball keeps its points and leaves them distinct.
pub(crate) proof fn lemma_ball_sorted(s: Seq<[i16; 8]>, t: Seq<[i16; 8]>, budget: int)
    requires
        is_ball(s, budget),
        is_sort_of(s, t),
    ensures
        t.len() == s.len(),
        t.no_duplicates(),
        forall|i: int| 0 <= i < t.len() ==> is_e8(#[trigger] t[i]) && norm2(t[i]) <= budget,
        forall|p: [i16; 8]| is_e8(p) && norm2(p) <= budget ==> #[trigger] t.contains(p),
{
    broadcast use vstd::seq_lib::group_to_multiset_ensures;

    lemma_ball_distinct(s, budget);
    s.lemma_multiset_has_no_duplicates();
    t.lemma_multiset_has_no_duplicates_conv();
    assert(t.to_multiset().len() == s.to_multiset().len());
    assert forall|p: [i16; 8]| #![trigger t.contains(p)] #![trigger s.contains(p)] t.contains(p)
        <==> s.contains(p) by {
        assert(t.to_multiset().count(p) == s.to_multiset().count(p));
    }
    assert forall|i: int| 0 <= i < t.len() implies is_e8(#[trigger] t[i]) && norm2(t[i])
        <= budget by {
        assert(t.contains(t[i]) && s.contains(t[i]));
        let j = choose|j: int| 0 <= j < s.len() && s[j] == t[i];
        assert(is_e8(s[j]));
    }
}

/// The point belongs to the shell of squared norm `v`, among the integer points or among the
/// half-integer points.
spec fn in_shell(p: [i16; 8], odd: int, v: int) -> bool {
    norm2(p) == v && p@[0] as int % 2 == odd
}

/// `shell` lists the points of one shell among the first `n` of `raw`, in lexical order.
spec fn is_shell(shell: Seq<[i16; 8]>, raw: Seq<[i16; 8]>, odd: int, v: int, n: int) -> bool {
    &&& lex_ascending(shell, 0)
    &&& forall|k: int| 0 <= k < shell.len() ==> in_shell(#[trigger] shell[k], odd, v)
    &&& forall|k: int| 0 <= k < shell.len() ==> raw.take(n).contains(#[trigger] shell[k])
    &&& forall|i: int|
        0 <= i < n && in_shell(#[trigger] raw[i], odd, v) ==> shell.contains(raw[i])
}

proof fn lemma_shell_push(
    shell: Seq<[i16; 8]>,
    raw: Seq<[i16; 8]>,
    odd: int,
    v: int,
    n: int,
    budget: int,
)
    requires
        is_ball(raw, budget),
        0 <= n < raw.len(),
        is_shell(shell, raw, odd, v, n),
    ensures
        in_shell(raw[n], odd, v) ==> is_shell(shell.push(raw[n]), raw, odd, v, n + 1),
        !in_shell(raw[n], odd, v) ==> is_shell(shell, raw, odd, v, n + 1),
{
    let p = raw[n];
    let part = raw.take(n);
    let more = raw.take(n + 1);
    assert forall|k: int| 0 <= k < shell.len() implies more.contains(#[trigger] shell[k]) by {
        assert(part.contains(shell[k]));
        let i = choose|i: int| 0 <= i < part.len() && part[i] == shell[k];
        assert(more[i] == shell[k]);
    }
    assert(more[n] == p);
    if in_shell(p, odd, v) {
        let now = shell.push(p);
        assert forall|i: int, j: int| 0 <= i < j < now.len() implies lex_before(
            (#[trigger] now[i])@,
            (#[trigger] now[j])@,
            0,
        ) by {
            if j == shell.len() {
                assert(part.contains(shell[i]));
                let k = choose|k: int| 0 <= k < part.len() && part[k] == shell[i];
                assert(raw[k] == shell[i]);
                assert(listed_before(raw[k], raw[n]));
                assert(in_shell(shell[i], odd, v));
            }
        }
        assert forall|i: int| 0 <= i < n + 1 && in_shell(#[trigger] raw[i], odd, v) implies now.contains(
            raw[i],
        ) by {
            if i < n {
                assert(shell.contains(raw[i]));
                let k = choose|k: int| 0 <= k < shell.len() && shell[k] == raw[i];
                assert(now[k] == raw[i]);
            } else {
                assert(now[shell.len() as int] == p);
            }
        }
    }
}

/// The shells of a ball, one for each squared norm up to its budget: those of its integer points
/// or those of its half-integer points.
fn shells_of(raw: &Vec<[i16; 8]>, odd: bool, budget: i64) -> (shells: Vec<Vec<[i16; 8]>>)
    requires
        0 <= budget < 0x4000_0000,
        is_ball(raw@, budget as int),
    ensures
        shells.len() == budget + 1,
        forall|v: int|
            0 <= v <= budget ==> is_shell(
                (#[trigger] shells@[v])@,
                raw@,
                odd as int,
                v,
                raw@.len() as int,
            ),
{
    let count: usize = budget as usize + 1;
    let mut shells: Vec<Vec<[i16; 8]>> = Vec::with_capacity(count);
    let mut c: usize = 0;
    while c < count
        invariant
            c <= count,
            shells.len() == c,
            forall|v: int| 0 <= v < c ==> (#[trigger] shells@[v])@.len() == 0,
        decreases count - c,
    {
        shells.push(Vec::new());
        c += 1;
    }
    let mut i: usize = 0;
    while i < raw.len()
        invariant
            i <= raw.len(),
            count == budget + 1,
            shells.len() == count,
            is_ball(raw@, budget as int),
            forall|v: int|
                0 <= v < count ==> is_shell(
                    (#[trigger] shells@[v])@,
                    raw@,
                    odd as int,
                    v,
                    i as int,
                ),
        decreases raw.len() - i,
    {
        let p: [i16; 8] = raw[i];
        let ghost before = shells@;
        proof {
            assert(is_e8(raw@[i as int]) && norm2(raw@[i as int]) <= budget);
            lemma_norm_bounds(p@, 8);
            assert forall|v: int| 0 <= v < count implies (in_shell(p, odd as int, v) ==> is_shell(
                (#[trigger] before[v])@.push(p),
                raw@,
                odd as int,
                v,
                i + 1,
            )) && (!in_shell(p, odd as int, v) ==> is_shell(
                before[v]@,
                raw@,
                odd as int,
                v,
                i + 1,
            )) by {
                lemma_shell_push(before[v]@, raw@, odd as int, v, i as int, budget as int);
            }
        }
        if (p[0] % 2 != 0) == odd {
            let at: usize = norm_of(&p) as usize;
            shells[at].push(p);
            proof {
                assert forall|v: int| 0 <= v < count implies is_shell(
                    (#[trigger] shells@[v])@,
                    raw@,
                    odd as int,
                    v,
                    i + 1,
                ) by {
                    if v == at {
                        assert(shells@[v]@ == before[v]@.push(p));
                    } else {
                        assert(shells@[v] == before[v]);
                    }
                }
            }
        }
        i += 1;
    }
    shells
}

/// `out` holds the points of E8 with a squared norm below `v`, in order.
spec fn is_filled_below(out: Seq<[i16; 8]>, v: int) -> bool {
    &&& is_book(out)
    &&& forall|i: int| 0 <= i < out.len() ==> is_e8(#[trigger] out[i]) && norm2(out[i]) < v
    &&& forall|p: [i16; 8]| is_e8(p) && norm2(p) < v ==> #[trigger] out.contains(p)
}

proof fn lemma_shell_in_order(
    shell: Seq<[i16; 8]>,
    raw: Seq<[i16; 8]>,
    odd: int,
    v: int,
)
    requires
        is_shell(shell, raw, odd, v, raw.len() as int),
    ensures
        is_book(shell),
{
    assert forall|i: int, j: int| 0 <= i < j < shell.len() implies (#[trigger] shell[i]).leq(
        #[trigger] shell[j],
    ) && shell[i] != shell[j] by {
        assert(in_shell(shell[i], odd, v) && in_shell(shell[j], odd, v));
        assert(lex_before(shell[i]@, shell[j]@, 0));
        lemma_lex_asymmetric(shell[i]@, shell[j]@, 0);
    }
}

/// Both parts of a shell, merged, hold each of its points once.
proof fn lemma_shell_merged(
    raw: Seq<[i16; 8]>,
    even: Seq<[i16; 8]>,
    odd: Seq<[i16; 8]>,
    m: Seq<[i16; 8]>,
    v: int,
    budget: int,
)
    requires
        is_ball(raw, budget),
        0 <= v <= budget,
        is_shell(even, raw, 0, v, raw.len() as int),
        is_shell(odd, raw, 1, v, raw.len() as int),
        m.to_multiset() == even.to_multiset().add(odd.to_multiset()),
    ensures
        m.no_duplicates(),
        forall|i: int| 0 <= i < m.len() ==> is_e8(#[trigger] m[i]) && norm2(m[i]) == v,
        forall|p: [i16; 8]| is_e8(p) && norm2(p) == v ==> #[trigger] m.contains(p),
{
    broadcast use vstd::seq_lib::group_to_multiset_ensures;

    lemma_shell_in_order(even, raw, 0, v);
    lemma_shell_in_order(odd, raw, 1, v);
    even.lemma_multiset_has_no_duplicates();
    odd.lemma_multiset_has_no_duplicates();
    assert forall|p: [i16; 8]| even.contains(p) implies #[trigger] in_shell(p, 0, v) by {
        let k = choose|k: int| 0 <= k < even.len() && even[k] == p;
        assert(in_shell(even[k], 0, v));
    }
    assert forall|p: [i16; 8]| odd.contains(p) implies #[trigger] in_shell(p, 1, v) by {
        let k = choose|k: int| 0 <= k < odd.len() && odd[k] == p;
        assert(in_shell(odd[k], 1, v));
    }
    assert forall|p: [i16; 8]| #[trigger] m.to_multiset().count(p) <= 1 && (m.contains(p)
        <==> even.contains(p) || odd.contains(p)) by {
        let a = even.to_multiset();
        let b = odd.to_multiset();
        assert(m.to_multiset().count(p) == a.count(p) + b.count(p));
        if even.contains(p) {
            assert(in_shell(p, 0, v));
            assert(!in_shell(p, 1, v));
        }
    }
    m.lemma_multiset_has_no_duplicates_conv();
    assert(raw.take(raw.len() as int) =~= raw);
    assert forall|i: int| 0 <= i < m.len() implies is_e8(#[trigger] m[i]) && norm2(m[i]) == v by {
        let p = m[i];
        assert(m.contains(p));
        assert(m.to_multiset().count(p) <= 1);
        if even.contains(p) {
            let k = choose|k: int| 0 <= k < even.len() && even[k] == p;
            assert(raw.take(raw.len() as int).contains(even[k]));
            assert(in_shell(p, 0, v));
        } else {
            let k = choose|k: int| 0 <= k < odd.len() && odd[k] == p;
            assert(raw.take(raw.len() as int).contains(odd[k]));
            assert(in_shell(p, 1, v));
        }
        let j = choose|j: int| 0 <= j < raw.len() && raw[j] == p;
        assert(is_e8(raw[j]));
    }
    assert forall|p: [i16; 8]| is_e8(p) && norm2(p) == v implies #[trigger] m.contains(p) by {
        assert(raw.contains(p));
        let j = choose|j: int| 0 <= j < raw.len() && raw[j] == p;
        assert(p@[0] as int % 2 == 0 || p@[0] as int % 2 == 1);
        assert(in_shell(raw[j], 0, v) || in_shell(raw[j], 1, v));
        assert(m.to_multiset().count(p) <= 1);
    }
}

proof fn lemma_fill_shell(out: Seq<[i16; 8]>, m: Seq<[i16; 8]>, v: int)
    requires
        is_filled_below(out, v),
        in_order(m),
        m.no_duplicates(),
        forall|i: int| 0 <= i < m.len() ==> is_e8(#[trigger] m[i]) && norm2(m[i]) == v,
        forall|p: [i16; 8]| is_e8(p) && norm2(p) == v ==> #[trigger] m.contains(p),
    ensures
        is_filled_below(out + m, v + 1),
{
    let all = out + m;
    assert forall|i: int, j: int| 0 <= i < j < all.len() implies (#[trigger] all[i]).leq(
        #[trigger] all[j],
    ) && all[i] != all[j] by {
        if j < out.len() {
            assert(out[i].leq(out[j]));
        } else if i >= out.len() {
            assert(m[i - out.len()].leq(m[j - out.len()]));
        } else {
            assert(norm2(out[i]) < v);
            assert(norm2(m[j - out.len()]) == v);
        }
    }
    assert forall|i: int| 0 <= i < all.len() implies is_e8(#[trigger] all[i]) && norm2(all[i]) < v
        + 1 by {
        if i < out.len() {
            assert(is_e8(out[i]));
        } else {
            assert(is_e8(m[i - out.len()]));
        }
    }
    assert forall|p: [i16; 8]| is_e8(p) && norm2(p) < v + 1 implies #[trigger] all.contains(p) by {
        if norm2(p) < v {
            assert(out.contains(p));
            let i = choose|i: int| 0 <= i < out.len() && out[i] == p;
            assert(all[i] == p);
        } else {
            assert(m.contains(p));
            let i = choose|i: int| 0 <= i < m.len() && m[i] == p;
            assert(all[out.len() + i] == p);
        }
    }
}

/// The points of a ball in order, shell by shell.
fn sorted_ball(raw: &Vec<[i16; 8]>, budget: i64) -> (out: Vec<[i16; 8]>)
    requires
        0 <= budget < 0x4000_0000,
        is_ball(raw@, budget as int),
    ensures
        is_filled_below(out@, budget + 1),
        out.len() == raw.len(),
{
    let evens: Vec<Vec<[i16; 8]>> = shells_of(raw, false, budget);
    let odds: Vec<Vec<[i16; 8]>> = shells_of(raw, true, budget);
    let mut out: Vec<[i16; 8]> = Vec::with_capacity(raw.len());
    proof {
        assert forall|p: [i16; 8]| is_e8(p) && norm2(p) < 0 implies #[trigger] out@.contains(p) by {
            lemma_norm_bounds(p@, 8);
        }
    }
    let mut v: usize = 0;
    while v < evens.len()
        invariant
            v <= evens.len(),
            evens.len() == budget + 1,
            odds.len() == budget + 1,
            is_ball(raw@, budget as int),
            forall|q: int|
                0 <= q <= budget ==> is_shell(
                    (#[trigger] evens@[q])@,
                    raw@,
                    0,
                    q,
                    raw@.len() as int,
                ),
            forall|q: int|
                0 <= q <= budget ==> is_shell(
                    (#[trigger] odds@[q])@,
                    raw@,
                    1,
                    q,
                    raw@.len() as int,
                ),
            is_filled_below(out@, v as int),
        decreases evens.len() - v,
    {
        proof {
            lemma_shell_in_order(evens@[v as int]@, raw@, 0, v as int);
            lemma_shell_in_order(odds@[v as int]@, raw@, 1, v as int);
        }
        let m: Vec<[i16; 8]> = merge(&evens[v], &odds[v]);
        let ghost before = out@;
        let mut i: usize = 0;
        while i < m.len()
            invariant
                i <= m.len(),
                out@ == before + m@.take(i as int),
            decreases m.len() - i,
        {
            out.push(m[i]);
            i += 1;
            assert(out@ =~= before + m@.take(i as int));
        }
        proof {
            assert(m@.take(i as int) =~= m@);
            lemma_shell_merged(
                raw@,
                evens@[v as int]@,
                odds@[v as int]@,
                m@,
                v as int,
                budget as int,
            );
            lemma_fill_shell(before, m@, v as int);
        }
        v += 1;
    }
    proof {
        lemma_ball_distinct(raw@, budget as int);
        raw@.unique_seq_to_set();
        out@.unique_seq_to_set();
        assert forall|p: [i16; 8]| #[trigger] raw@.to_set().contains(p) <==> out@.to_set().contains(
            p,
        ) by {
            if raw@.contains(p) {
                let i = choose|i: int| 0 <= i < raw@.len() && raw@[i] == p;
                assert(is_e8(raw@[i]));
                assert(out@.contains(p));
            }
            if out@.contains(p) {
                let i = choose|i: int| 0 <= i < out@.len() && out@[i] == p;
                assert(is_e8(out@[i]));
                assert(raw@.contains(p));
            }
        }
        assert(raw@.to_set() =~= out@.to_set());
    }
    out
}

/// The smallest multiple of eight, from eight on, whose ball holds `n` points by its volume: a
/// ball of squared radius `s` has volume `4.059 s^4`, and `s` is a quarter of the budget.
fn likely_budget(n: usize) -> (budget: i64)
    requires
        n <= 0x100_0000,
    ensures
        budget % 8 == 0,
        8 <= budget <= 1024,
        4059 * (budget * budget * budget * budget) >= 256_000 * n || budget == 1024,
        budget > 8 ==> 4059 * ((budget - 8) * (budget - 8) * (budget - 8) * (budget - 8)) < 256_000
            * n,
{
    let mut budget: i64 = 8;
    while budget < 1024
        invariant_except_break
            n <= 0x100_0000,
            budget % 8 == 0,
            8 <= budget <= 1024,
            budget > 8 ==> 4059 * ((budget - 8) * (budget - 8) * (budget - 8) * (budget - 8))
                < 256_000 * n,
        ensures
            budget % 8 == 0,
            8 <= budget <= 1024,
            4059 * (budget * budget * budget * budget) >= 256_000 * n || budget == 1024,
            budget > 8 ==> 4059 * ((budget - 8) * (budget - 8) * (budget - 8) * (budget - 8))
                < 256_000 * n,
        decreases 1024 - budget,
    {
        assert(0 <= budget * budget <= 1024 * 1024) by (nonlinear_arith)
            requires
                0 <= budget <= 1024,
        ;
        let b2: i64 = budget * budget;
        assert(0 <= b2 * b2 <= 0x100_0000_0000) by (nonlinear_arith)
            requires
                0 <= b2 <= 0x10_0000,
        ;
        assert(b2 * b2 == budget * budget * budget * budget) by (nonlinear_arith)
            requires
                b2 == budget * budget,
        ;
        if 4059 * (b2 * b2) >= 256_000 * n as i64 {
            break;
        }
        budget += 8;
    }
    budget
}

/// The `n` lowest-norm points of E8, `n` at most `8^8`.
pub fn lowest_points(n: usize) -> (book: Vec<[i16; 8]>)
    requires
        n <= 0x100_0000,
    ensures
        is_lowest(book@, lattice(), n as nat),
{
    let mut budget: i64 = likely_budget(n);
    let mut raw: Vec<[i16; 8]> = enumerate_e8_raw(budget);
    while raw.len() < n
        invariant
            n <= 0x100_0000,
            8 <= budget <= ample_budget() + 8,
            is_ball(raw@, budget as int),
        decreases ample_budget() + 8 - budget,
    {
        proof {
            if budget >= ample_budget() {
                lemma_ample_ball(raw@, budget as int);
            }
        }
        budget += 8;
        raw = enumerate_e8_raw(budget);
    }
    let mut book: Vec<[i16; 8]> = sorted_ball(&raw, budget);
    let ghost sorted = book@;
    book.truncate(n);
    proof {
        assert(book@ =~= sorted.take(n as int));
        assert forall|p: [i16; 8], i: int|
            lattice()(p) && !book@.contains(p) && 0 <= i < book@.len() implies (
        #[trigger] book@[i]).leq(p) && #[trigger] lattice()(p) by {
            assert(book@[i] == sorted[i]);
            if norm2(p) <= budget {
                assert(sorted.contains(p));
                let j = choose|j: int| 0 <= j < sorted.len() && sorted[j] == p;
                if j < n {
                    assert(book@[j] == p);
                }
                assert(sorted[i].leq(sorted[j]));
            }
        }
    }
    book
}

proof fn lemma_ample_ball(s: Seq<[i16; 8]>, budget: int)
    requires
        is_ball(s, budget),
        budget >= ample_budget(),
    ensures
        s.len() >= 0x100_0000,
{
    let zero: [i16; 8] = [0i16, 0i16, 0i16, 0i16, 0i16, 0i16, 0i16, 0i16];
    assert(is_shift(zero)) by {
        assert(parity_from(zero@, 0, 0));
        reveal_with_fuel(sum_upto, 9);
    }
    assert forall|k: int| s.contains(#[trigger] grid_point(zero, k, 8)) by {
        lemma_grid_point(zero, k, 8);
    }
    lemma_grid_count(zero, 8, s);
    lemma_pow_eight();
}

pub(crate) proof fn lemma_pow_eight()
    ensures
        vstd::arithmetic::power::pow(8, 8) == 0x100_0000,
{
    vstd::arithmetic::power::lemma_pow1(8);
    vstd::arithmetic::power::lemma_pow_adds(8, 1, 1);
    assert(vstd::arithmetic::power::pow(8, 2) == 64);
    vstd::arithmetic::power::lemma_pow_adds(8, 2, 2);
    assert(vstd::arithmetic::power::pow(8, 4) == 4096);
    vstd::arithmetic::power::lemma_pow_adds(8, 4, 4);
}

/// `book` is strictly ordered, so that a point has at most one place in it.
pub open spec fn is_book(book: Seq<[i16; 8]>) -> bool {
    in_order(book) && book.no_duplicates()
}

/// The place of `p` in `book`, if it was kept.
pub fn index_in_book(book: &Vec<[i16; 8]>, p: &[i16; 8]) -> (r: Option<usize>)
    requires
        is_book(book@),
    ensures
        match r {
            Some(i) => i < book.len() && book@[i as int] == *p,
            None => !book@.contains(*p),
        },
{
    let mut lo: usize = 0;
    let mut hi: usize = book.len();
    while lo < hi
        invariant
            lo <= hi <= book.len(),
            is_book(book@),
            forall|i: int| 0 <= i < lo ==> #[trigger] book@[i] != *p,
            forall|i: int| hi <= i < book.len() ==> #[trigger] book@[i] != *p,
        decreases hi - lo,
    {
        let mid: usize = lo + (hi - lo) / 2;
        let q: [i16; 8] = book[mid];
        if q.no_later(p) {
            if p.no_later(&q) {
                proof {
                    lemma_leq_antisymmetric(q, *p);
                }
                return Some(mid);
            }
            proof {
                assert forall|i: int| 0 <= i < mid + 1 implies #[trigger] book@[i] != *p by {
                    if i < mid {
                        assert(book@[i].leq(book@[mid as int]));
                    }
                }
            }
            lo = mid + 1;
        } else {
            proof {
                <[i16; 8]>::leq_total(q, q);
                assert forall|i: int| mid <= i < book.len() implies #[trigger] book@[i] != *p by {
                    if mid < i {
                        assert(book@[mid as int].leq(book@[i]));
                    }
                }
            }
            hi = mid;
        }
    }
    None
}

// ---- What the lattice promises ----

/// The squared norm of a point is the sum of its squared coordinates.
pub proof fn norms_are_sums_of_squares(p: [i16; 8])
    ensures
        norm2(p) == total(Seq::new(8, |j: int| p@[j] * p@[j])),
        sum_upto(p@, 8) == total(Seq::new(8, |j: int| p@[j] as int)),
{
    lemma_norm_totals(p@, 8);
}

proof fn lemma_norm_totals(p: Seq<i16>, k: int)
    requires
        0 <= k <= p.len(),
    ensures
        norm_upto(p, k) == total(Seq::new(k as nat, |j: int| p[j] * p[j])),
        sum_upto(p, k) == total(Seq::new(k as nat, |j: int| p[j] as int)),
    decreases k,
{
    let f = |j: int| p[j] * p[j];
    let g = |j: int| p[j] as int;
    if k > 0 {
        lemma_norm_totals(p, k - 1);
        assert(Seq::new(k as nat, f) =~= Seq::new((k - 1) as nat, f).push(f(k - 1)));
        assert(Seq::new(k as nat, g) =~= Seq::new((k - 1) as nat, g).push(g(k - 1)));
        total_of_push(Seq::new((k - 1) as nat, f), f(k - 1));
        total_of_push(Seq::new((k - 1) as nat, g), g(k - 1));
    } else {
        total_of_nothing(Seq::new(0, f));
        total_of_nothing(Seq::new(0, g));
    }
}

proof fn lemma_squares_even(p: Seq<i16>, k: int)
    requires
        0 <= k <= p.len(),
        parity_from(p, 0, 0),
    ensures
        norm_upto(p, k) % 4 == 0,
        (norm_upto(p, k) - 2 * sum_upto(p, k)) % 8 == 0,
        sum_upto(p, k) % 2 == 0,
    decreases k,
{
    if k > 0 {
        lemma_squares_even(p, k - 1);
        let x = p[k - 1] as int;
        assert(x % 2 == 0);
        let h = x / 2;
        assert(x == 2 * h);
        assert(x * x == 4 * (h * h)) by (nonlinear_arith)
            requires
                x == 2 * h,
        ;
        let q = h * (h - 1);
        assert(h * h - h == q) by (nonlinear_arith)
            requires
                q == h * (h - 1),
        ;
        assert(q % 2 == 0) by {
            if h % 2 == 0 {
                let z = h / 2;
                assert(q == 2 * (z * (h - 1))) by (nonlinear_arith)
                    requires
                        q == h * (h - 1),
                        h == 2 * z,
                ;
            } else {
                let z = (h - 1) / 2;
                assert(q == 2 * (z * h)) by (nonlinear_arith)
                    requires
                        q == h * (h - 1),
                        h - 1 == 2 * z,
                ;
            }
        }
        assert(x * x - 2 * x == 4 * q);
    }
}

proof fn lemma_squares_odd(p: Seq<i16>, k: int)
    requires
        0 <= k <= p.len(),
        parity_from(p, 0, 1),
    ensures
        (norm_upto(p, k) - k) % 8 == 0,
        norm_upto(p, k) >= k,
    decreases k,
{
    if k > 0 {
        lemma_squares_odd(p, k - 1);
        let x = p[k - 1] as int;
        assert(x % 2 == 1);
        let h = (x - 1) / 2;
        assert(x == 2 * h + 1);
        let q = h * (h + 1);
        assert(x * x == 4 * q + 1) by (nonlinear_arith)
            requires
                x == 2 * h + 1,
                q == h * (h + 1),
        ;
        assert(q >= 0) by (nonlinear_arith)
            requires
                q == h * (h + 1),
        ;
        assert(q % 2 == 0) by {
            if h % 2 == 0 {
                let z = h / 2;
                assert(q == 2 * (z * (h + 1))) by (nonlinear_arith)
                    requires
                        q == h * (h + 1),
                        h == 2 * z,
                ;
            } else {
                let z = (h + 1) / 2;
                assert(q == 2 * (z * h)) by (nonlinear_arith)
                    requires
                        q == h * (h + 1),
                        h + 1 == 2 * z,
                ;
            }
        }
    }
}

/// The lattice is even: in doubled coordinates every squared norm is a multiple of eight, so that
/// no point but the origin is closer to it than the square root of two.
pub proof fn the_lattice_is_even(p: [i16; 8])
    requires
        is_e8(p),
    ensures
        norm2(p) % 8 == 0,
        norm2(p) >= 0,
        norm2(p) < 8 ==> forall|j: int| 0 <= j < 8 ==> #[trigger] p@[j] == 0,
{
    lemma_norm_bounds(p@, 8);
    if parity_from(p@, 0, 0) {
        lemma_squares_even(p@, 8);
    } else {
        lemma_squares_odd(p@, 8);
    }
    if norm2(p) < 8 {
        assert forall|j: int| 0 <= j < 8 implies #[trigger] p@[j] == 0 by {
            lemma_norm_grows(p@, 0, j);
            lemma_norm_grows(p@, j + 1, 8);
            let x = p@[j] as int;
            assert(x == 0) by (nonlinear_arith)
                requires
                    x * x <= 0,
            ;
        }
    }
}

/// Which doubled points are in the lattice: twice an integer vector is if its entries have an
/// even sum, and a vector of odd numbers is if its sum is a multiple of four.
pub proof fn lattice_points_have_one_parity_and_an_even_sum(p: [i16; 8])
    ensures
        is_e8(p) <==> total(Seq::new(8, |j: int| p@[j] as int)) % 4 == 0 && forall|i: int, j: int|
            0 <= i < 8 && 0 <= j < 8 ==> ((#[trigger] p@[i]) - (#[trigger] p@[j])) % 2 == 0,
{
    norms_are_sums_of_squares(p);
    if is_e8(p) {
        let r = p@[0] as int % 2;
        assert(parity_from(p@, 0, r));
        assert forall|i: int, j: int| 0 <= i < 8 && 0 <= j < 8 implies ((#[trigger] p@[i]) - (
        #[trigger] p@[j])) % 2 == 0 by {
            assert(p@[i] as int % 2 == r && p@[j] as int % 2 == r);
        }
    }
    if forall|i: int, j: int|
        0 <= i < 8 && 0 <= j < 8 ==> ((#[trigger] p@[i]) - (#[trigger] p@[j])) % 2 == 0 {
        let r = p@[0] as int % 2;
        assert forall|i: int| 0 <= i < 8 implies (#[trigger] p@[i]) as int % 2 == r by {
            assert((p@[i] - p@[0]) % 2 == 0);
        }
        assert(parity_from(p@, 0, r));
    }
}

/// Lexical order is decided by the first coordinate that differs.
pub proof fn lexical_order_is_by_the_first_difference(a: Seq<i16>, b: Seq<i16>, k: int)
    requires
        0 <= k <= 8,
    ensures
        lex_before(a, b, k) <==> exists|d: int|
            k <= d < 8 && #[trigger] a[d] < b[d] && forall|j: int|
                k <= j < d ==> #[trigger] a[j] == b[j],
    decreases 8 - k,
{
    if k < 8 {
        lexical_order_is_by_the_first_difference(a, b, k + 1);
        if lex_before(a, b, k) {
            if a[k] < b[k] {
                assert(a[k] < b[k] && forall|j: int| k <= j < k ==> #[trigger] a[j] == b[j]);
            } else {
                let d = choose|d: int|
                    k + 1 <= d < 8 && #[trigger] a[d] < b[d] && forall|j: int|
                        k + 1 <= j < d ==> #[trigger] a[j] == b[j];
                assert(a[d] < b[d] && forall|j: int| k <= j < d ==> #[trigger] a[j] == b[j]);
            }
        }
        if exists|d: int|
            k <= d < 8 && #[trigger] a[d] < b[d] && forall|j: int|
                k <= j < d ==> #[trigger] a[j] == b[j] {
            let d = choose|d: int|
                k <= d < 8 && #[trigger] a[d] < b[d] && forall|j: int|
                    k <= j < d ==> #[trigger] a[j] == b[j];
            if d > k {
                assert(a[k] == b[k]);
                assert(a[d] < b[d] && forall|j: int| k + 1 <= j < d ==> #[trigger] a[j] == b[j]);
            }
        }
    }
}

/// A codebook keeps the points closest to the origin: a point that was left out is no closer than
/// any that was kept. Points come in order of their norm, equal ones lexically, each once.
pub proof fn a_codebook_keeps_the_closest_points(
    book: Seq<[i16; 8]>,
    member: spec_fn([i16; 8]) -> bool,
    n: nat,
    i: int,
    j: int,
    p: [i16; 8],
)
    requires
        is_lowest(book, member, n),
        0 <= i < j < n,
        member(p),
    ensures
        book.len() == n,
        member(book[i]),
        book[i] != book[j],
        norm2(book[i]) <= norm2(book[j]),
        norm2(book[i]) == norm2(book[j]) ==> lex_before(book[i]@, book[j]@, 0),
        book.contains(p) || norm2(book[j]) <= norm2(p),
{
    assert(book[i].leq(book[j]));
    if norm2(book[i]) == norm2(book[j]) && !lex_before(book[i]@, book[j]@, 0) {
        lemma_lex_total(book[i]@, book[j]@, 0);
        assert(book[i]@ =~= book[j]@);
        assert(book[i] =~= book[j]);
    }
    if !book.contains(p) {
        assert(book[j].leq(p) && member(p));
    }
}

/// An enumeration holds each lattice point within its budget once, and nothing else.
pub proof fn an_enumeration_is_complete(out: Seq<[i16; 8]>, budget: int, p: [i16; 8])
    requires
        is_ball(out, budget),
    ensures
        out.no_duplicates(),
        out.contains(p) <==> is_e8(p) && norm2(p) <= budget,
{
    lemma_ball_distinct(out, budget);
    if out.contains(p) {
        let i = choose|i: int| 0 <= i < out.len() && out[i] == p;
        assert(is_e8(out[i]) && norm2(out[i]) <= budget);
    }
}

/// A book lists its points one after the other, each once.
pub proof fn a_book_is_strictly_ordered(book: Seq<[i16; 8]>, i: int, j: int)
    requires
        is_book(book),
        0 <= i < j < book.len(),
    ensures
        norm2(book[i]) <= norm2(book[j]),
        book[i] != book[j],
{
    assert(book[i].leq(book[j]));
}

} // verus!
