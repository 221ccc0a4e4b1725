//! Nearest-point search in the E8 lattice and the block quantizer built on it.
//!
//! Vectors are in fixed point: a coordinate is an integer in units of `1 / UNIT` of a lattice
//! unit, so that a raw doubled coordinate `R` stands for `R * HALF`. Distances are exact.

use vstd::prelude::*;
use vstd::arithmetic::power2::{lemma2_to64, lemma_pow2_pos, pow2};

use crate::lattice::{
    is_book, is_e8, is_lowest, lattice, lemma_lex_asymmetric, lemma_lex_at, lemma_norm_bounds, lemma_norm_grows,
    lex_ascending, lex_before, listed_before, norm2, norm_of, norm_upto, parity_from, sum_upto,
};
use crate::order::Ranked;
use crate::sums::{total, total_of_nothing, total_of_push};
use crate::packing::{
    all_fit, field, has_field, lemma_field_fits, pack_indices_wide, packed,
    packed_fields_round_trip, packed_len, unpack_indices_wide, values32,
};

pub use crate::lattice::{enumerate_e8_raw, index_in_book, lowest_points};

verus! {

/// One lattice unit in fixed point.
pub const UNIT: i64 = 0x400_0000;

/// One step of a raw doubled coordinate in fixed point.
pub const HALF: i64 = 0x200_0000;

/// Coordinates of fixed-point vectors whose distances are taken lie between `-REACH` and
/// `REACH`: eight squares then add up in 128 bits.
pub const REACH: i64 = 0x1000_0000_0000_0000;

/// The offset of `y` from `p` in coordinate `j`.
pub open spec fn offset(y: Seq<i64>, p: Seq<i16>, j: int) -> int {
    y[j] - p[j] * HALF
}

/// The squared distance of `y` from `p` over the first `k` coordinates.
pub open spec fn dist_upto(y: Seq<i64>, p: Seq<i16>, k: int) -> int
    decreases k,
{
    if k <= 0 {
        0
    } else {
        dist_upto(y, p, k - 1) + offset(y, p, k - 1) * offset(y, p, k - 1)
    }
}

/// The squared distance of a vector from a lattice point.
pub open spec fn dist2(y: [i64; 8], p: [i16; 8]) -> int {
    dist_upto(y@, p@, 8)
}

/// Every coordinate is within reach.
pub open spec fn in_reach(y: [i64; 8]) -> bool {
    forall|j: int| 0 <= j < 8 ==> -REACH <= (#[trigger] y@[j]) <= REACH
}

pub(crate) proof fn lemma_dist_bounds(y: [i64; 8], p: [i16; 8], k: int)
    requires
        in_reach(y),
        0 <= k <= 8,
    ensures
        0 <= dist_upto(y@, p@, k) <= k * 0x400_0000_0000_0000_0000_0000_0000_0000,
    decreases k,
{
    if k > 0 {
        lemma_dist_bounds(y, p, k - 1);
        assert(-REACH <= y@[k - 1] <= REACH);
        let d = offset(y@, p@, k - 1);
        assert(-0x2000_0000_0000_0000 <= d <= 0x2000_0000_0000_0000);
        assert(0 <= d * d <= 0x400_0000_0000_0000_0000_0000_0000_0000) by (nonlinear_arith)
            requires
                -0x2000_0000_0000_0000 <= d <= 0x2000_0000_0000_0000,
        ;
    }
}

/// The squared distance of a vector from a lattice point.
pub fn distance(y: &[i64; 8], p: &[i16; 8]) -> (d: i128)
    requires
        in_reach(*y),
    ensures
        d == dist2(*y, *p),
        0 <= d <= 0x2000_0000_0000_0000_0000_0000_0000_0000,
{
    let mut d: i128 = 0;
    let mut k: usize = 0;
    while k < 8
        invariant
            k <= 8,
            in_reach(*y),
            d == dist_upto(y@, p@, k as int),
        decreases 8 - k,
    {
        proof {
            lemma_dist_bounds(*y, *p, k as int);
            lemma_dist_bounds(*y, *p, k + 1);
            assert(-REACH <= y@[k as int] <= REACH);
        }
        let e: i64 = y[k] - p[k] as i64 * HALF;
        assert(e == offset(y@, p@, k as int));
        assert(0 <= e * e <= 0x400_0000_0000_0000_0000_0000_0000_0000) by (nonlinear_arith)
            requires
                -0x2000_0000_0000_0000 <= e <= 0x2000_0000_0000_0000,
        ;
        d = d + e as i128 * e as i128;
        k += 1;
    }
    proof {
        lemma_dist_bounds(*y, *p, 8);
    }
    d
}

// ---- Nearest point of the lattice ----

/// The offset of `y` from the point `p` in coordinate `j`. Points far out have coordinates that
/// no codebook holds.
pub open spec fn gap(y: Seq<i64>, p: Seq<i64>, j: int) -> int {
    y[j] - p[j] * HALF
}

/// The squared distance of `y` from the point `p` over the first `k` coordinates.
pub open spec fn gaps_upto(y: Seq<i64>, p: Seq<i64>, k: int) -> int
    decreases k,
{
    if k <= 0 {
        0
    } else {
        gaps_upto(y, p, k - 1) + gap(y, p, k - 1) * gap(y, p, k - 1)
    }
}

/// The sum of the first `k` coordinates of a point.
pub open spec fn total_upto(p: Seq<i64>, k: int) -> int
    decreases k,
{
    if k <= 0 {
        0
    } else {
        total_upto(p, k - 1) + p[k - 1]
    }
}

/// Every coordinate has the given parity.
pub open spec fn has_parity(p: Seq<i64>, parity: int) -> bool {
    forall|i: int| 0 <= i < p.len() ==> (#[trigger] p[i]) as int % 2 == parity
}

/// `p` is a point of E8, however far out.
pub open spec fn is_point(p: Seq<i64>) -> bool {
    &&& p.len() == 8
    &&& has_parity(p, 0) || has_parity(p, 1)
    &&& total_upto(p, 8) % 4 == 0
}

/// The coordinates of a codebook's point.
pub open spec fn widened(p: [i16; 8]) -> Seq<i64> {
    Seq::new(8, |j: int| p@[j] as i64)
}

proof fn lemma_widened_upto(y: Seq<i64>, p: [i16; 8], k: int)
    requires
        0 <= k <= 8,
    ensures
        gaps_upto(y, widened(p), k) == dist_upto(y, p@, k),
        total_upto(widened(p), k) == sum_upto(p@, k),
    decreases k,
{
    if k > 0 {
        lemma_widened_upto(y, p, k - 1);
    }
}

/// A point of a codebook is the same point with wide coordinates.
pub(crate) proof fn lemma_widened(y: [i64; 8], p: [i16; 8])
    ensures
        gaps_upto(y@, widened(p), 8) == dist2(y, p),
        is_point(widened(p)) <==> is_e8(p),
{
    lemma_widened_upto(y@, p, 8);
    let w = widened(p);
    assert forall|parity: int| has_parity(w, parity) <==> #[trigger] parity_from(p@, 0, parity) by {
        if has_parity(w, parity) {
            assert forall|i: int| 0 <= i < p@.len() implies (#[trigger] p@[i]) as int % 2 == parity by {
                assert(w[i] as int % 2 == parity);
            }
        }
    }
    assert(has_parity(w, 0) <==> parity_from(p@, 0, 0));
    assert(has_parity(w, 1) <==> parity_from(p@, 0, 1));
}

proof fn lemma_total_prefix(p: Seq<i64>, q: Seq<i64>, k: int)
    requires
        0 <= k <= p.len(),
        k <= q.len(),
        forall|i: int| 0 <= i < k ==> #[trigger] p[i] == q[i],
    ensures
        total_upto(p, k) == total_upto(q, k),
    decreases k,
{
    if k > 0 {
        lemma_total_prefix(p, q, k - 1);
    }
}

/// What it costs at least to move one coordinate off its rounding: `w` is the largest offset of
/// any rounded coordinate.
spec fn move_cost(w: int) -> int {
    UNIT * UNIT - 2 * UNIT * w
}

/// Against the coordinatewise rounding `base`, a point of the same parity whose sum differs by
/// an odd number of units is further away by at least one move.
proof fn lemma_rounding_bound(
    y: Seq<i64>,
    base: Seq<i64>,
    p: Seq<i64>,
    parity: int,
    w: int,
    k: int,
)
    requires
        y.len() == 8,
        base.len() == 8,
        p.len() == 8,
        0 <= k <= 8,
        has_parity(base, parity),
        has_parity(p, parity),
        0 <= w <= HALF,
        forall|j: int| 0 <= j < 8 ==> -w <= #[trigger] gap(y, base, j) <= w,
    ensures
        (total_upto(p, k) - total_upto(base, k)) % 2 == 0,
        gaps_upto(y, p, k) >= gaps_upto(y, base, k) + if (total_upto(p, k) - total_upto(base, k)) % 4
            != 0 {
            move_cost(w)
        } else {
            0
        },
    decreases k,
{
    if k > 0 {
        lemma_rounding_bound(y, base, p, parity, w, k - 1);
        let j = k - 1;
        assert(base[j] as int % 2 == parity && p[j] as int % 2 == parity);
        let e = gap(y, base, j);
        let f = gap(y, p, j);
        assert(-w <= e <= w);
        let t = p[j] - base[j];
        assert(f == e - t * HALF);
        if t == 0 {
            assert(f * f == e * e);
        } else {
            assert(t >= 2 || t <= -2);
            assert(f * f >= e * e + (UNIT * UNIT - 2 * UNIT * w)) by (nonlinear_arith)
                requires
                    f == e - t * HALF,
                    t >= 2 || t <= -2,
                    -w <= e <= w,
                    0 <= w <= HALF,
                    UNIT == 2 * HALF,
                    HALF == 0x200_0000,
            ;
            assert(move_cost(w) >= 0) by (nonlinear_arith)
                requires
                    move_cost(w) == UNIT * UNIT - 2 * UNIT * w,
                    0 <= w <= HALF,
                    UNIT == 2 * HALF,
                    HALF == 0x200_0000,
            ;
        }
    }
}

proof fn lemma_gaps_update(y: Seq<i64>, p: Seq<i64>, i: int, x: i64, k: int)
    requires
        y.len() == 8,
        p.len() == 8,
        0 <= i < 8,
        0 <= k <= 8,
    ensures
        gaps_upto(y, p.update(i, x), k) == gaps_upto(y, p, k) + if i < k {
            (y[i] - x * HALF) * (y[i] - x * HALF) - gap(y, p, i) * gap(y, p, i)
        } else {
            0
        },
        total_upto(p.update(i, x), k) == total_upto(p, k) + if i < k {
            x - p[i]
        } else {
            0
        },
    decreases k,
{
    if k > 0 {
        lemma_gaps_update(y, p, i, x, k - 1);
    }
}

/// `s` in whole units, rounded to nearest, halves away from zero.
pub open spec fn rounded_units(s: int) -> int {
    if s >= 0 {
        (s + HALF) / UNIT as int
    } else {
        -((HALF - s) / UNIT as int)
    }
}

/// What rounding coordinate `j` to the points of one parity leaves.
pub open spec fn residue(y: Seq<i64>, parity: int, j: int) -> int {
    let s = y[j] - parity * HALF;
    s - rounded_units(s) * UNIT
}

/// The magnitude of a residue.
pub open spec fn magnitude(r: int) -> int {
    if r >= 0 {
        r
    } else {
        -r
    }
}

/// `base` is `y` with every coordinate rounded to the points of one parity.
pub open spec fn is_rounding(y: Seq<i64>, parity: int, base: Seq<i64>) -> bool {
    &&& base.len() == 8
    &&& forall|j: int|
        0 <= j < 8 ==> #[trigger] base[j] == 2 * rounded_units(y[j] - parity * HALF) + parity
}

/// Coordinate `w` is the first of those that were rounded furthest.
pub open spec fn is_rounded_furthest(y: Seq<i64>, parity: int, w: int) -> bool {
    &&& 0 <= w < 8
    &&& forall|j: int|
        0 <= j < 8 ==> magnitude(#[trigger] residue(y, parity, j)) <= magnitude(
            residue(y, parity, w),
        ) && (j < w ==> magnitude(residue(y, parity, j)) < magnitude(residue(y, parity, w)))
}

/// `p` is the rounding of `y`; where its sum has the wrong parity, coordinate `w` went the other
/// way.
pub open spec fn is_mended(
    y: Seq<i64>,
    parity: int,
    base: Seq<i64>,
    w: int,
    p: Seq<i64>,
) -> bool {
    &&& is_rounding(y, parity, base)
    &&& is_rounded_furthest(y, parity, w)
    &&& p == if total_upto(base, 8) % 4 == 0 {
        base
    } else if residue(y, parity, w) >= 0 {
        base.update(w, (base[w] + 2) as i64)
    } else {
        base.update(w, (base[w] - 2) as i64)
    }
}

/// `p` is what `y` decodes to among the points of one parity.
pub open spec fn is_half_decoded(y: Seq<i64>, parity: int, p: Seq<i64>) -> bool {
    exists|base: Seq<i64>, w: int| #[trigger] is_mended(y, parity, base, w, p)
}

/// `p` is what `y` decodes to: the closer of what it decodes to among the integer and among the
/// half-integer points, the former if they are equally close.
pub open spec fn is_decoded(y: Seq<i64>, p: Seq<i64>) -> bool {
    exists|a: Seq<i64>, b: Seq<i64>| #[trigger]
        is_half_decoded(y, 0, a) && #[trigger] is_half_decoded(y, 1, b) && p == if gaps_upto(
            y,
            a,
            8,
        ) <= gaps_upto(y, b, 8) {
            a
        } else {
            b
        }
}

proof fn lemma_half_decoded_once(y: Seq<i64>, parity: int, p: Seq<i64>, q: Seq<i64>)
    requires
        is_half_decoded(y, parity, p),
        is_half_decoded(y, parity, q),
    ensures
        p == q,
{
    let (a, v) = choose|base: Seq<i64>, w: int| #[trigger] is_mended(y, parity, base, w, p);
    let (b, w) = choose|base: Seq<i64>, w: int| #[trigger] is_mended(y, parity, base, w, q);
    assert forall|j: int| 0 <= j < 8 implies a[j] == b[j] by {}
    assert(a =~= b);
    assert(magnitude(residue(y, parity, v)) <= magnitude(residue(y, parity, w)));
    assert(magnitude(residue(y, parity, w)) <= magnitude(residue(y, parity, v)));
    assert(v == w);
}

/// A vector decodes to one point.
pub proof fn a_vector_decodes_to_one_point(y: Seq<i64>, p: Seq<i64>, q: Seq<i64>)
    requires
        is_decoded(y, p),
        is_decoded(y, q),
    ensures
        p == q,
{
    let (a, b) = choose|a: Seq<i64>, b: Seq<i64>| #[trigger]
        is_half_decoded(y, 0, a) && #[trigger] is_half_decoded(y, 1, b) && p == if gaps_upto(
            y,
            a,
            8,
        ) <= gaps_upto(y, b, 8) {
            a
        } else {
            b
        };
    let (c, d) = choose|a: Seq<i64>, b: Seq<i64>| #[trigger]
        is_half_decoded(y, 0, a) && #[trigger] is_half_decoded(y, 1, b) && q == if gaps_upto(
            y,
            a,
            8,
        ) <= gaps_upto(y, b, 8) {
            a
        } else {
            b
        };
    lemma_half_decoded_once(y, 0, a, c);
    lemma_half_decoded_once(y, 1, b, d);
}

/// `s` in whole units, rounded to nearest, halves away from zero.
fn round_units(s: i128) -> (r: i64)
    requires
        i64::MIN - HALF <= s <= i64::MAX,
    ensures
        r == rounded_units(s as int),
        -HALF <= s - r * UNIT <= HALF,
        -0x20_0000_0001 <= r <= 0x20_0000_0000,
{
    if s >= 0 {
        ((s + HALF as i128) / UNIT as i128) as i64
    } else {
        -(((HALF as i128 - s) / UNIT as i128) as i64)
    }
}

/// The nearest point to `y` among the integer points of the lattice, or among its half-integer
/// points: every coordinate is rounded, and if the sum then has the wrong parity, the
/// coordinate that was rounded furthest goes the other way.
#[verifier::rlimit(60)]
fn nearest_d8(y: &[i64; 8], odd: bool) -> (pt: [i64; 8])
    ensures
        is_half_decoded(y@, odd as int, pt@),
        has_parity(pt@, odd as int),
        total_upto(pt@, 8) % 4 == 0,
        forall|p: Seq<i64>|
            p.len() == 8 && has_parity(p, odd as int) && total_upto(p, 8) % 4 == 0 ==> gaps_upto(
                y@,
                pt@,
                8,
            ) <= #[trigger] gaps_upto(y@, p, 8),
        forall|j: int| 0 <= j < 8 ==> -UNIT <= #[trigger] gap(y@, pt@, j) <= UNIT,
{
    let ghost parity = odd as int;
    let shift: i64 = if odd {
        1
    } else {
        0
    };
    let mut pt: [i64; 8] = [0i64; 8];
    let mut total: i64 = 0;
    let mut worst: usize = 0;
    let mut worst_err: i64 = -1;
    let mut worst_dir: i64 = 1;
    let mut i: usize = 0;
    while i < 8
        invariant
            i <= 8,
            parity == odd as int,
            shift == parity,
            forall|j: int|
                0 <= j < i ==> {
                    &&& (#[trigger] pt@[j]) as int % 2 == parity
                    &&& -0x40_0000_0002 <= pt@[j] <= 0x40_0000_0002
                },
            forall|j: int|
                0 <= j < i ==> -worst_err <= #[trigger] gap(y@, pt@, j) <= worst_err,
            forall|j: int|
                0 <= j < i ==> #[trigger] pt@[j] == 2 * rounded_units(y@[j] - parity * HALF)
                    + parity,
            forall|j: int|
                0 <= j < i ==> magnitude(#[trigger] residue(y@, parity, j)) <= worst_err,
            i > 0 ==> magnitude(residue(y@, parity, worst as int)) == worst_err && (worst_dir == 1
                <==> residue(y@, parity, worst as int) >= 0) && forall|j: int|
                0 <= j < worst ==> magnitude(#[trigger] residue(y@, parity, j)) < worst_err,
            total == total_upto(pt@, i as int),
            -0x40_0000_0002 * i <= total <= 0x40_0000_0002 * i,
            -1 <= worst_err <= HALF,
            i == 0 ==> worst_err == -1,
            i > 0 ==> {
                &&& worst < i
                &&& worst_err >= 0
                &&& worst_dir == 1 || worst_dir == -1
                &&& worst_dir == 1 ==> gap(y@, pt@, worst as int) == worst_err
                &&& worst_dir == -1 ==> gap(y@, pt@, worst as int) == -worst_err
            },
        decreases 8 - i,
    {
        let s: i128 = y[i] as i128 - (shift * HALF) as i128;
        let r: i64 = round_units(s);
        let raw: i64 = 2 * r + shift;
        let resid: i64 = (s - r as i128 * UNIT as i128) as i64;
        let err: i64 = if resid >= 0 {
            resid
        } else {
            -resid
        };
        let ghost before = pt@;
        pt[i] = raw;
        proof {
            assert(resid == residue(y@, parity, i as int));
            assert(err == magnitude(resid as int));
            assert forall|j: int| 0 <= j < i implies #[trigger] pt@[j] == 2 * rounded_units(
                y@[j] - parity * HALF,
            ) + parity by {
                assert(pt@[j] == before[j]);
            }
            assert(gap(y@, pt@, i as int) == resid);
            lemma_total_prefix(pt@, before, i as int);
            assert forall|j: int| 0 <= j < i implies gap(y@, pt@, j) == #[trigger] gap(
                y@,
                before,
                j,
            ) by {
                assert(pt@[j] == before[j]);
            }
            assert forall|j: int| 0 <= j < i implies (#[trigger] pt@[j]) as int % 2 == parity
                && -0x40_0000_0002 <= pt@[j] <= 0x40_0000_0002 by {
                assert(pt@[j] == before[j]);
            }
            assert forall|j: int| 0 <= j < i implies -worst_err <= #[trigger] gap(y@, pt@, j)
                <= worst_err by {
                assert(gap(y@, pt@, j) == gap(y@, before, j));
            }
            if i > 0 {
                assert(gap(y@, pt@, worst as int) == gap(y@, before, worst as int));
            }
        }
        total = total + raw;
        if err > worst_err {
            worst_err = err;
            worst = i;
            worst_dir = if resid >= 0 {
                1
            } else {
                -1
            };
        }
        i += 1;
    }
    let ghost base = pt@;
    let ghost w = worst_err as int;
    proof {
        assert(has_parity(base, parity));
        assert(is_rounding(y@, parity, base));
        assert(is_rounded_furthest(y@, parity, worst as int));
    }
    if total % 4 != 0 {
        let moved: i64 = pt[worst] + 2 * worst_dir;
        pt[worst] = moved;
        proof {
            lemma_gaps_update(y@, base, worst as int, moved, 8);
            assert(pt@ =~= base.update(worst as int, moved));
            assert(is_mended(y@, parity, base, worst as int, pt@));
            assert(has_parity(pt@, parity)) by {
                assert forall|j: int| 0 <= j < 8 implies (#[trigger] pt@[j]) as int % 2 == parity by {
                    assert(base[j] as int % 2 == parity);
                }
            }
            let e = gap(y@, base, worst as int);
            let f = y@[worst as int] - moved * HALF;
            assert(f == e - worst_dir * UNIT);
            assert(f * f - e * e == UNIT * UNIT - 2 * UNIT * w) by (nonlinear_arith)
                requires
                    f == e - worst_dir * UNIT,
                    e == worst_dir * w,
                    worst_dir == 1 || worst_dir == -1,
            ;
            lemma_even_sum(base, parity, 8);
            assert forall|p: Seq<i64>|
                p.len() == 8 && has_parity(p, parity) && total_upto(p, 8) % 4
                    == 0 implies gaps_upto(y@, pt@, 8) <= #[trigger] gaps_upto(y@, p, 8) by {
                lemma_rounding_bound(y@, base, p, parity, w, 8);
            }
        }
    } else {
        proof {
            assert(is_mended(y@, parity, base, worst as int, pt@));
            assert forall|p: Seq<i64>|
                p.len() == 8 && has_parity(p, parity) && total_upto(p, 8) % 4
                    == 0 implies gaps_upto(y@, pt@, 8) <= #[trigger] gaps_upto(y@, p, 8) by {
                lemma_rounding_bound(y@, base, p, parity, w, 8);
            }
        }
    }
    pt
}

/// Eight coordinates of one parity have an even sum.
proof fn lemma_even_sum(p: Seq<i64>, parity: int, k: int)
    requires
        p.len() == 8,
        0 <= k <= 8,
        has_parity(p, parity),
    ensures
        (total_upto(p, k) - k * parity) % 2 == 0,
    decreases k,
{
    assert(0 * parity == 0);
    if k > 0 {
        lemma_even_sum(p, parity, k - 1);
        assert(p[k - 1] as int % 2 == parity);
        assert(k * parity == (k - 1) * parity + parity) by (nonlinear_arith);
    }
}

/// The squared distance of `y` from a point that is at most a unit away in every coordinate.
fn close_distance(y: &[i64; 8], p: &[i64; 8]) -> (d: i64)
    requires
        forall|j: int| 0 <= j < 8 ==> -UNIT <= #[trigger] gap(y@, p@, j) <= UNIT,
    ensures
        d == gaps_upto(y@, p@, 8),
{
    let mut d: i64 = 0;
    let mut k: usize = 0;
    while k < 8
        invariant
            k <= 8,
            forall|j: int| 0 <= j < 8 ==> -UNIT <= #[trigger] gap(y@, p@, j) <= UNIT,
            d == gaps_upto(y@, p@, k as int),
            0 <= d <= k * 0x10_0000_0000_0000,
        decreases 8 - k,
    {
        let e: i128 = y[k] as i128 - p[k] as i128 * HALF as i128;
        assert(e == gap(y@, p@, k as int));
        let f: i64 = e as i64;
        assert(0 <= f * f <= 0x10_0000_0000_0000) by (nonlinear_arith)
            requires
                -0x400_0000 <= f <= 0x400_0000,
        ;
        d = d + f * f;
        k += 1;
    }
    d
}

/// The point of E8 nearest to `y`, in raw doubled coordinates.
pub fn e8_nearest(y: &[i64; 8]) -> (pt: [i64; 8])
    ensures
        is_point(pt@),
        forall|p: Seq<i64>| is_point(p) ==> gaps_upto(y@, pt@, 8) <= #[trigger] gaps_upto(y@, p, 8),
        is_decoded(y@, pt@),
{
    let a: [i64; 8] = nearest_d8(y, false);
    let b: [i64; 8] = nearest_d8(y, true);
    if close_distance(y, &a) <= close_distance(y, &b) {
        a
    } else {
        b
    }
}

/// A point with narrow coordinates, if they fit.
pub fn narrowed(p: &[i64; 8]) -> (r: Option<[i16; 8]>)
    ensures
        match r {
            Some(q) => widened(q) == p@,
            None => forall|q: [i16; 8]| #[trigger] widened(q) != p@,
        },
{
    let mut q: [i16; 8] = [0i16; 8];
    let mut j: usize = 0;
    while j < 8
        invariant
            j <= 8,
            forall|k: int| 0 <= k < j ==> #[trigger] q@[k] == p@[k],
        decreases 8 - j,
    {
        let x: i64 = p[j];
        if x < -0x8000 || x > 0x7fff {
            proof {
                assert forall|q: [i16; 8]| #[trigger] widened(q) != p@ by {
                    assert(widened(q)[j as int] == q@[j as int]);
                }
            }
            return None;
        }
        q[j] = x as i16;
        j += 1;
    }
    assert(widened(q) =~= p@);
    Some(q)
}

/// The vector is the lattice point itself.
pub open spec fn lies_on(y: Seq<i64>, p: Seq<i64>) -> bool {
    forall|j: int| 0 <= j < 8 ==> #[trigger] y[j] == p[j] * HALF
}

/// A lattice point is its own nearest lattice point.
pub proof fn lattice_points_decode_to_themselves(y: Seq<i64>, p: Seq<i64>, nearest: Seq<i64>)
    requires
        lies_on(y, p),
        p.len() == 8,
        nearest.len() == 8,
        gaps_upto(y, nearest, 8) <= gaps_upto(y, p, 8),
    ensures
        nearest == p,
{
    lemma_on_point(y, p, p, 8);
    lemma_on_point(y, p, nearest, 8);
    assert(nearest =~= p);
}

/// A distance from a lattice point is zero only where the coordinates agree.
proof fn lemma_on_point(y: Seq<i64>, p: Seq<i64>, q: Seq<i64>, k: int)
    requires
        lies_on(y, p),
        0 <= k <= 8,
    ensures
        gaps_upto(y, q, k) >= 0,
        (forall|j: int| 0 <= j < k ==> p[j] == q[j]) ==> gaps_upto(y, q, k) == 0,
        gaps_upto(y, q, k) == 0 ==> forall|j: int| 0 <= j < k ==> p[j] == q[j],
    decreases k,
{
    if k > 0 {
        lemma_on_point(y, p, q, k - 1);
        let d = gap(y, q, k - 1);
        assert(y[k - 1] == p[k - 1] * HALF);
        assert(d == (p[k - 1] - q[k - 1]) * HALF) by (nonlinear_arith)
            requires
                d == p[k - 1] * HALF - q[k - 1] * HALF,
        ;
        assert(d * d >= 0) by (nonlinear_arith);
        assert(d * d == 0 <==> d == 0) by (nonlinear_arith);
    }
}

// ---- Points near a vector ----

/// The widest ball that is enumerated, in squared distance.
pub const WIDEST: i128 = 0x40_0000_0000_0000_0000;

/// No point with narrow coordinates has a larger squared norm.
pub const LARGEST: i64 = 0x2_0000_0000;

/// `p` agrees with `cur` below `pos` and has the given parity from there on; from there on its
/// squared distance from `centre` is at most `left` and its squared norm at most `room`, and its
/// coordinates, added to `sum`, come to a multiple of four.
spec fn completes_near(
    p: Seq<i16>,
    cur: Seq<i16>,
    pos: int,
    parity: int,
    centre: Seq<i64>,
    left: int,
    room: int,
    sum: int,
) -> bool {
    &&& p.len() == 8
    &&& forall|i: int| 0 <= i < pos ==> #[trigger] p[i] == cur[i]
    &&& parity_from(p, pos, parity)
    &&& dist_upto(centre, p, 8) - dist_upto(centre, p, pos) <= left
    &&& norm_upto(p, 8) - norm_upto(p, pos) <= room
    &&& (sum + sum_upto(p, 8) - sum_upto(p, pos)) % 4 == 0
}

proof fn lemma_dist_grows(y: Seq<i64>, p: Seq<i16>, j: int, k: int)
    requires
        0 <= j <= k <= 8,
    ensures
        0 <= dist_upto(y, p, j) <= dist_upto(y, p, k),
    decreases k,
{
    if k > 0 {
        let d = offset(y, p, k - 1);
        assert(d * d >= 0) by (nonlinear_arith);
        if j < k {
            lemma_dist_grows(y, p, j, k - 1);
        } else {
            lemma_dist_grows(y, p, j - 1, k - 1);
        }
    }
}

/// A completion stays within what is left in the next coordinate.
proof fn lemma_near_coordinate(
    p: Seq<i16>,
    cur: Seq<i16>,
    pos: int,
    parity: int,
    centre: Seq<i64>,
    left: int,
    room: int,
    sum: int,
)
    requires
        0 <= pos < 8,
        completes_near(p, cur, pos, parity, centre, left, room, sum),
    ensures
        offset(centre, p, pos) * offset(centre, p, pos) <= left,
        p[pos] * p[pos] <= room,
{
    lemma_norm_grows(p, pos + 1, 8);
    lemma_dist_grows(centre, p, pos + 1, 8);
}

/// The square of the distance of raw coordinate `x` from `c`.
spec fn gap_square(c: int, x: int) -> int {
    (c - x * HALF) * (c - x * HALF)
}

/// The square of the distance of raw coordinate `r` from `c`.
fn square_gap(c: i64, r: i64) -> (d: i128)
    requires
        -REACH <= c <= REACH,
        -0x8_0000_1000 <= r <= 0x8_0000_1000,
    ensures
        d == gap_square(c as int, r as int),
        d >= 0,
{
    let h: i128 = r as i128 * 0x200_0000;
    assert(h == r * HALF);
    let e: i128 = c as i128 - h;
    assert(0 <= e * e <= 0x1000_0000_0000_0000_0000_0000_0000_0000) by (nonlinear_arith)
        requires
            -0x4000_0000_0000_0000 <= e <= 0x4000_0000_0000_0000,
    ;
    e * e
}

/// The smallest raw coordinate of the given parity that may lie within `left` of `c`: no smaller
/// one does.
fn first_near(c: i64, left: i128, parity: i64) -> (r: i64)
    requires
        -REACH <= c <= REACH,
        0 <= left <= WIDEST,
        0 <= parity <= 1,
    ensures
        r as int % 2 == parity,
        -0x8_0000_1000 <= r <= 0x8_0000_1000,
        forall|x: int|
            x < r && x % 2 == parity ==> #[trigger] gap_square(c as int, x) > left,
{
    let mut r: i64 = c / HALF;
    proof {
        assert(-0x8_0000_0000 <= r <= 0x8_0000_0000);
    }
    if r * HALF > c {
        r -= 1;
    }
    if (r % 2 == 0) != (parity == 0) {
        r -= 1;
    }
    loop
        invariant
            -REACH <= c <= REACH,
            0 <= left <= WIDEST,
            0 <= parity <= 1,
            r as int % 2 == parity,
            r * HALF <= c,
            -0x8_0000_0a00 <= r <= 0x8_0000_0000,
        ensures
            r as int % 2 == parity,
            r * HALF <= c,
            -0x8_0000_0a00 <= r <= 0x8_0000_0000,
            gap_square(c as int, r as int) > left,
        decreases r + 0x8_0000_0a00,
    {
        let d: i128 = square_gap(c, r);
        if d > left {
            break;
        }
        proof {
            let e = c - r * HALF;
            assert(e <= 0x8_0000_0000) by (nonlinear_arith)
                requires
                    e * e <= 0x40_0000_0000_0000_0000,
                    e >= 0,
            ;
        }
        r -= 2;
    }
    proof {
        assert forall|x: int| x < r + 2 && x % 2 == parity implies #[trigger] gap_square(
            c as int,
            x,
        ) > left by {
            assert(x <= r);
            let e = c - r * HALF;
            let f = c - x * HALF;
            assert(f * f >= e * e) by (nonlinear_arith)
                requires
                    f >= e,
                    e >= 0,
            ;
        }
    }
    r + 2
}

/// Appends every completion of the first `pos` coordinates of `cur` that lies within what is
/// left, in lexical order.
#[verifier::rlimit(60)]
fn ball_rec(
    pos: usize,
    left: i128,
    room: i64,
    sum_so_far: i64,
    parity: i64,
    centre: &[i64; 8],
    cur: &mut [i16; 8],
    out: &mut Vec<[i16; 8]>,
)
    requires
        pos <= 8,
        0 <= parity <= 1,
        in_reach(*centre),
        0 <= left <= WIDEST,
        0 <= room <= LARGEST,
        -i64::MAX + (8 - pos) * 0x8000 <= sum_so_far <= i64::MAX - (8 - pos) * 0x8000,
    ensures
        forall|i: int| 0 <= i < pos ==> final(cur)@[i] == old(cur)@[i],
        final(out)@.len() >= old(out)@.len(),
        final(out)@.take(old(out)@.len() as int) == old(out)@,
        forall|i: int|
            old(out)@.len() <= i < final(out)@.len() ==> completes_near(
                (#[trigger] final(out)@[i])@,
                old(cur)@,
                pos as int,
                parity as int,
                centre@,
                left as int,
                room as int,
                sum_so_far as int,
            ),
        forall|p: [i16; 8]|
            completes_near(
                p@,
                old(cur)@,
                pos as int,
                parity as int,
                centre@,
                left as int,
                room as int,
                sum_so_far as int,
            )
                ==> #[trigger] final(out)@.skip(old(out)@.len() as int).contains(p),
        lex_ascending(final(out)@, old(out)@.len() as int),
    decreases 8 - pos,
{
    let ghost cur0 = cur@;
    let ghost out0 = out@;
    let ghost n0 = out@.len() as int;
    let ghost c = centre@;
    if pos == 8 {
        if sum_so_far % 4 == 0 {
            out.push(*cur);
            proof {
                assert(out@[n0] == *cur);
                assert(out@.take(n0) =~= out0);
            }
        } else {
            assert(out@.take(n0) =~= out0);
        }
        proof {
            assert forall|p: [i16; 8]|
                completes_near(
                    p@,
                    cur0,
                    8,
                    parity as int,
                    c,
                    left as int,
                    room as int,
                    sum_so_far as int,
                ) implies #[trigger] out@.skip(n0).contains(p) by {
                assert(p@ =~= cur0);
                assert(p == *cur);
                assert(out@.skip(n0)[0] == p);
            }
        }
        return;
    }
    assert(-REACH <= c[pos as int] <= REACH);
    let here: i64 = centre[pos];
    let mut r: i64 = first_near(here, left, parity);
    let ghost first = r;
    if r < -0x8000 {
        r = -0x8000 + parity;
    }
    proof {
        assert(out@.take(n0) =~= out0);
        assert forall|p: [i16; 8]|
            completes_near(
                p@,
                cur0,
                pos as int,
                parity as int,
                c,
                left as int,
                room as int,
                sum_so_far as int,
            ) && p@[pos as int]
                < r implies #[trigger] out@.skip(n0).contains(p) by {
            lemma_near_coordinate(
                p@,
                cur0,
                pos as int,
                parity as int,
                c,
                left as int,
                room as int,
                sum_so_far as int,
            );
            assert(p@[pos as int] as int % 2 == parity);
            let x = p@[pos as int] as int;
            assert(x < first);
            assert(gap_square(here as int, x) > left);
        }
    }
    loop
        invariant
            pos < 8,
            cur0.len() == 8,
            c == centre@,
            here == c[pos as int],
            -REACH <= here <= REACH,
            in_reach(*centre),
            0 <= parity <= 1,
            0 <= left <= WIDEST,
            0 <= room <= LARGEST,
            -0x8000 <= r <= 0x8_0000_1000,
            r as int % 2 == parity,
            -i64::MAX + (8 - pos) * 0x8000 <= sum_so_far <= i64::MAX - (8 - pos) * 0x8000,
            forall|i: int| 0 <= i < pos ==> #[trigger] cur@[i] == cur0[i],
            n0 <= out@.len(),
            out@.take(n0) == out0,
            n0 == out0.len(),
            forall|i: int|
                n0 <= i < out@.len() ==> completes_near(
                    (#[trigger] out@[i])@,
                    cur0,
                    pos as int,
                    parity as int,
                    c,
                    left as int,
                    room as int,
                    sum_so_far as int,
                ) && out@[i]@[pos as int] < r,
            forall|p: [i16; 8]|
                completes_near(
                    p@,
                    cur0,
                    pos as int,
                    parity as int,
                    c,
                    left as int,
                    room as int,
                    sum_so_far as int,
                )
                    && p@[pos as int] < r ==> #[trigger] out@.skip(n0).contains(p),
            lex_ascending(out@, n0),
        ensures
            forall|i: int| 0 <= i < pos ==> #[trigger] cur@[i] == cur0[i],
            n0 <= out@.len(),
            out@.take(n0) == out0,
            forall|i: int|
                n0 <= i < out@.len() ==> completes_near(
                    (#[trigger] out@[i])@,
                    cur0,
                    pos as int,
                    parity as int,
                    c,
                    left as int,
                    room as int,
                    sum_so_far as int,
                ),
            forall|p: [i16; 8]|
                completes_near(
                    p@,
                    cur0,
                    pos as int,
                    parity as int,
                    c,
                    left as int,
                    room as int,
                    sum_so_far as int,
                )
                    ==> #[trigger] out@.skip(n0).contains(p),
            lex_ascending(out@, n0),
        decreases 0x8_0000_1002 - r,
    {
        if r > 0x7fff {
            break;
        }
        assert(0 <= r * r <= 0x4000_0000) by (nonlinear_arith)
            requires
                -0x8000 <= r <= 0x7fff,
        ;
        if r * r > room {
            proof {
                assert forall|p: [i16; 8]|
                    completes_near(
                        p@,
                        cur0,
                        pos as int,
                        parity as int,
                        c,
                        left as int,
                        room as int,
                        sum_so_far as int,
                    ) && (r >= 0 || p@[pos as int] < r + 2) implies #[trigger] out@.skip(
                    n0,
                ).contains(p) by {
                    lemma_near_coordinate(
                        p@,
                        cur0,
                        pos as int,
                        parity as int,
                        c,
                        left as int,
                        room as int,
                        sum_so_far as int,
                    );
                    let x = p@[pos as int] as int;
                    assert(x % 2 == parity);
                    if x >= r && r >= 0 {
                        assert(x * x >= r * r) by (nonlinear_arith)
                            requires
                                x >= r,
                                r >= 0,
                        ;
                    }
                }
            }
            if r >= 0 {
                break;
            }
            r += 2;
            continue;
        }
        let d: i128 = square_gap(here, r);
        if d > left {
            if r * HALF >= here {
                proof {
                    assert forall|p: [i16; 8]|
                        completes_near(
                            p@,
                            cur0,
                            pos as int,
                            parity as int,
                            c,
                            left as int,
                            room as int,
                            sum_so_far as int,
                        ) implies #[trigger] out@.skip(n0).contains(p) by {
                        lemma_near_coordinate(
                            p@,
                            cur0,
                            pos as int,
                            parity as int,
                            c,
                            left as int,
                            room as int,
                            sum_so_far as int,
                        );
                        let x = p@[pos as int] as int;
                        if x >= r {
                            let e = here - r * HALF;
                            let f = here - x * HALF;
                            assert(f * f >= e * e) by (nonlinear_arith)
                                requires
                                    f <= e,
                                    e <= 0,
                            ;
                        }
                    }
                }
                break;
            }
            proof {
                assert forall|p: [i16; 8]|
                    completes_near(
                        p@,
                        cur0,
                        pos as int,
                        parity as int,
                        c,
                        left as int,
                        room as int,
                        sum_so_far as int,
                    )
                        && p@[pos as int] < r + 2 implies #[trigger] out@.skip(n0).contains(p) by {
                    lemma_near_coordinate(
                        p@,
                        cur0,
                        pos as int,
                        parity as int,
                        c,
                        left as int,
                        room as int,
                        sum_so_far as int,
                    );
                    let x = p@[pos as int] as int;
                    assert(x % 2 == parity);
                    assert(x != r);
                }
            }
            r += 2;
            continue;
        }
        let ghost mid = out@;
        let ghost n1 = out@.len() as int;
        cur[pos] = r as i16;
        let ghost at = cur@;
        ball_rec(pos + 1, left - d, room - r * r, sum_so_far + r, parity, centre, cur, out);
        proof {
            let now = out@;
            assert forall|i: int| 0 <= i < pos implies #[trigger] cur@[i] == cur0[i] by {
                assert(cur@[i] == at[i]);
            }
            assert(now.take(n0) =~= out0) by {
                assert forall|i: int| 0 <= i < n0 implies now[i] == out0[i] by {
                    assert(now.take(n1)[i] == mid[i]);
                    assert(mid.take(n0)[i] == out0[i]);
                }
            }
            assert forall|i: int| n0 <= i < now.len() implies completes_near(
                (#[trigger] now[i])@,
                cur0,
                pos as int,
                parity as int,
                c,
                left as int,
                room as int,
                sum_so_far as int,
            ) && now[i]@[pos as int] < r + 2 && (i < n1 ==> now[i] == mid[i]) && (i >= n1
                ==> now[i]@[pos as int] == r) by {
                if i < n1 {
                    assert(now.take(n1)[i] == mid[i]);
                } else {
                    let p = now[i]@;
                    assert(completes_near(
                        p,
                        at,
                        pos + 1,
                        parity as int,
                        c,
                        left - d,
                        room - r * r,
                        sum_so_far + r,
                    ));
                    assert(p[pos as int] == at[pos as int]);
                    assert forall|q: int| 0 <= q < pos implies #[trigger] p[q] == cur0[q] by {
                        assert(p[q] == at[q]);
                    }
                }
            }
            assert forall|p: [i16; 8]|
                completes_near(
                    p@,
                    cur0,
                    pos as int,
                    parity as int,
                    c,
                    left as int,
                    room as int,
                    sum_so_far as int,
                )
                    && p@[pos as int] < r + 2 implies #[trigger] now.skip(n0).contains(p) by {
                let x = p@[pos as int] as int;
                assert(x % 2 == parity);
                if x < r {
                    assert(mid.skip(n0).contains(p));
                    let i = choose|i: int| 0 <= i < mid.skip(n0).len() && mid.skip(n0)[i] == p;
                    assert(now[n0 + i] == mid[n0 + i]);
                    assert(now.skip(n0)[i] == p);
                } else {
                    assert(x == r);
                    assert(completes_near(
                        p@,
                        at,
                        pos + 1,
                        parity as int,
                        c,
                        left - d,
                        room - r * r,
                        sum_so_far + r,
                    ));
                    assert(now.skip(n1).contains(p));
                    let i = choose|i: int| 0 <= i < now.skip(n1).len() && now.skip(n1)[i] == p;
                    assert(now.skip(n0)[n1 - n0 + i] == p);
                }
            }
            assert forall|i: int, j: int| n0 <= i < j < now.len() implies lex_before(
                (#[trigger] now[i])@,
                (#[trigger] now[j])@,
                0,
            ) by {
                if j < n1 {
                    assert(now[i] == mid[i] && now[j] == mid[j]);
                } else if i < n1 {
                    assert(now[i] == mid[i]);
                    assert(now[j]@[pos as int] == r);
                    assert(completes_near(
                        now[i]@,
                        cur0,
                        pos as int,
                        parity as int,
                        c,
                        left as int,
                        room as int,
                        sum_so_far as int,
                    ));
                    assert(completes_near(
                        now[j]@,
                        cur0,
                        pos as int,
                        parity as int,
                        c,
                        left as int,
                        room as int,
                        sum_so_far as int,
                    ));
                    lemma_lex_at(now[i]@, now[j]@, 0, pos as int);
                }
            }
        }
        r += 2;
    }
}

/// `out` lists the points of E8 within `budget` of `centre` and with a squared norm of at most
/// `room`, each once: first the integer points, then the half-integer points, both in lexical
/// order.
pub open spec fn is_lens(
    out: Seq<[i16; 8]>,
    centre: [i64; 8],
    budget: int,
    room: int,
) -> bool {
    &&& forall|i: int|
        0 <= i < out.len() ==> is_e8(#[trigger] out[i]) && dist2(centre, out[i]) <= budget
            && norm2(out[i]) <= room
    &&& forall|p: [i16; 8]|
        is_e8(p) && dist2(centre, p) <= budget && norm2(p) <= room ==> #[trigger] out.contains(p)
    &&& forall|i: int, j: int|
        0 <= i < j < out.len() ==> listed_before(#[trigger] out[i], #[trigger] out[j])
}

/// `out` lists the points of E8 within `budget` of `centre`, each once: first the integer
/// points, then the half-integer points, both in lexical order.
pub open spec fn is_ball_around(out: Seq<[i16; 8]>, centre: [i64; 8], budget: int) -> bool {
    &&& forall|i: int|
        0 <= i < out.len() ==> is_e8(#[trigger] out[i]) && dist2(centre, out[i]) <= budget
    &&& forall|p: [i16; 8]|
        is_e8(p) && dist2(centre, p) <= budget ==> #[trigger] out.contains(p)
    &&& forall|i: int, j: int|
        0 <= i < j < out.len() ==> listed_before(#[trigger] out[i], #[trigger] out[j])
}

/// All points of E8 within a squared distance of `budget` of `centre`.
pub fn enumerate_e8_ball(centre: &[i64; 8], budget: i128) -> (out: Vec<[i16; 8]>)
    requires
        in_reach(*centre),
        budget <= WIDEST,
    ensures
        is_ball_around(out@, *centre, budget as int),
{
    let out: Vec<[i16; 8]> = enumerate_e8_lens(centre, budget, LARGEST);
    proof {
        assert forall|p: [i16; 8]| is_e8(p) && dist2(*centre, p) <= budget implies #[trigger] out@.contains(
            p,
        ) by {
            lemma_norm_bounds(p@, 8);
        }
    }
    out
}

/// All points of E8 within a squared distance of `budget` of `centre` that have a squared norm of
/// at most `room`.
pub fn enumerate_e8_lens(centre: &[i64; 8], budget: i128, room: i64) -> (out: Vec<[i16; 8]>)
    requires
        in_reach(*centre),
        budget <= WIDEST,
        0 <= room <= LARGEST,
    ensures
        is_lens(out@, *centre, budget as int, room as int),
{
    let mut out: Vec<[i16; 8]> = Vec::new();
    if budget < 0 {
        proof {
            assert forall|p: [i16; 8]|
                is_e8(p) && dist2(*centre, p) <= budget && norm2(p) <= room implies #[trigger] out@.contains(p) by {
                lemma_dist_bounds(*centre, p, 8);
            }
        }
        return out;
    }
    let mut cur: [i16; 8] = [0i16; 8];
    let ghost origin = cur@;
    ball_rec(0, budget, room, 0, 0, centre, &mut cur, &mut out);
    let ghost even = out@;
    let ghost n = out@.len() as int;
    let ghost start = cur@;
    ball_rec(0, budget, room, 0, 1, centre, &mut cur, &mut out);
    proof {
        let all = out@;
        assert forall|i: int| 0 <= i < n implies #[trigger] all[i] == even[i] by {
            assert(all.take(n)[i] == even[i]);
        }
        assert forall|p: [i16; 8]|
            is_e8(p) && dist2(*centre, p) <= budget && norm2(p) <= room implies #[trigger] all.contains(p) by {
            if parity_from(p@, 0, 0) {
                assert(completes_near(p@, origin, 0, 0, centre@, budget as int, room as int, 0));
                assert(even.skip(0).contains(p));
                let i = choose|i: int| 0 <= i < even.skip(0).len() && even.skip(0)[i] == p;
                assert(all[i] == p);
            } else {
                assert(completes_near(p@, start, 0, 1, centre@, budget as int, room as int, 0));
                assert(all.skip(n).contains(p));
                let i = choose|i: int| 0 <= i < all.skip(n).len() && all.skip(n)[i] == p;
                assert(all[n + i] == p);
            }
        }
        assert forall|i: int, j: int| 0 <= i < j < all.len() implies listed_before(
            #[trigger] all[i],
            #[trigger] all[j],
        ) by {
            if i < n {
                assert(all[i] == even[i]);
                assert(parity_from(even[i]@, 0, 0));
            } else {
                assert(parity_from(all[i]@, 0, 1));
            }
            if j < n {
                assert(all[j] == even[j]);
                assert(parity_from(even[j]@, 0, 0));
            } else {
                assert(parity_from(all[j]@, 0, 1));
            }
        }
    }
    out
}

// ---- Nearest point of a codebook ----

/// No point of `book` is closer to `y` than the one at `i`.
pub open spec fn is_nearest(book: Seq<[i16; 8]>, y: [i64; 8], i: int) -> bool {
    &&& 0 <= i < book.len()
    &&& forall|j: int| 0 <= j < book.len() ==> dist2(y, book[i]) <= #[trigger] dist2(y, book[j])
}

/// Where `book` holds the point that `y` decodes to, that is the point at `i`.
pub open spec fn keeps_decoded(book: Seq<[i16; 8]>, y: [i64; 8], i: int) -> bool {
    forall|p: [i16; 8]| is_decoded(y@, #[trigger] widened(p)) && book.contains(p) ==> book[i] == p
}

/// Every point of `book` is on the lattice.
pub open spec fn on_lattice(book: Seq<[i16; 8]>) -> bool {
    forall|i: int| 0 <= i < book.len() ==> is_e8(#[trigger] book[i])
}

/// The nearest point of `book` by a full scan: the first, if several are equally near.
pub fn nearest_exhaustive(book: &Vec<[i16; 8]>, y: &[i64; 8]) -> (r: (usize, i128))
    requires
        book.len() > 0,
        in_reach(*y),
    ensures
        is_nearest(book@, *y, r.0 as int),
        r.1 == dist2(*y, book@[r.0 as int]),
        forall|j: int| 0 <= j < r.0 ==> r.1 < #[trigger] dist2(*y, book@[j]),
{
    let mut best: usize = 0;
    let mut best_d: i128 = distance(y, &book[0]);
    let mut i: usize = 1;
    while i < book.len()
        invariant
            best < i <= book.len(),
            in_reach(*y),
            best_d == dist2(*y, book@[best as int]),
            forall|j: int| 0 <= j < i ==> best_d <= #[trigger] dist2(*y, book@[j]),
            forall|j: int| 0 <= j < best ==> best_d < #[trigger] dist2(*y, book@[j]),
        decreases book.len() - i,
    {
        let d: i128 = distance(y, &book[i]);
        if d < best_d {
            best_d = d;
            best = i;
        }
        i += 1;
    }
    (best, best_d)
}

/// The nearest point of `book`, given one of its points and that point's distance: every lattice
/// point that is at most that far away, and no further out than the last point of the book, is
/// looked up, and the nearest that was kept wins. Where the distance is too large for that, the
/// book is scanned.
pub(crate) fn nearest_from_seed(book: &Vec<[i16; 8]>, y: &[i64; 8], seed: usize, d: i128) -> (r: (
    usize,
    i128,
))
    requires
        is_book(book@),
        on_lattice(book@),
        seed < book.len(),
        in_reach(*y),
        d == dist2(*y, book@[seed as int]),
        d >= 0,
    ensures
        is_nearest(book@, *y, r.0 as int),
        r.1 == dist2(*y, book@[r.0 as int]),
{
    if d > WIDEST {
        return nearest_exhaustive(book, y);
    }
    let top: i64 = norm_of(&book[book.len() - 1]);
    proof {
        lemma_norm_bounds(book@[book@.len() - 1]@, 8);
    }
    let near: Vec<[i16; 8]> = enumerate_e8_lens(y, d, top);
    let mut best: usize = seed;
    let mut best_d: i128 = d;
    let mut i: usize = 0;
    while i < near.len()
        invariant
            i <= near.len(),
            best < book.len(),
            is_book(book@),
            in_reach(*y),
            best_d == dist2(*y, book@[best as int]),
            best_d <= d,
            forall|j: int, k: int|
                0 <= j < i && 0 <= k < book.len() && #[trigger] near@[j] == #[trigger] book@[k]
                    ==> best_d <= dist2(*y, book@[k]),
        decreases near.len() - i,
    {
        if let Some(k) = index_in_book(book, &near[i]) {
            let e: i128 = distance(y, &near[i]);
            if e < best_d {
                best_d = e;
                best = k;
            }
        } else {
            proof {
                assert forall|k: int| 0 <= k < book.len() implies near@[i as int] != #[trigger] book@[k] by {
                    if near@[i as int] == book@[k] {
                        assert(book@.contains(near@[i as int]));
                    }
                }
            }
        }
        i += 1;
    }
    proof {
        assert forall|k: int| 0 <= k < book.len() implies best_d <= #[trigger] dist2(
            *y,
            book@[k],
        ) by {
            if dist2(*y, book@[k]) <= d {
                assert(is_e8(book@[k]));
                if k < book.len() - 1 {
                    assert(book@[k].leq(book@[book@.len() - 1]));
                }
                assert(near@.contains(book@[k]));
                let j = choose|j: int| 0 <= j < near@.len() && near@[j] == book@[k];
                assert(near@[j] == book@[k]);
            }
        }
    }
    (best, best_d)
}

/// Block quantizer over the `2^(8 * bits)` lowest-norm points of E8.
pub struct E8Quantizer {
    dim: usize,
    bits: u8,
    raw: Vec<[i16; 8]>,
}

impl E8Quantizer {
    /// The dimension of the vectors.
    pub closed spec fn dim(&self) -> nat {
        self.dim as nat
    }

    /// The rate in bits per coordinate.
    pub closed spec fn bits(&self) -> nat {
        self.bits as nat
    }

    /// The codebook, in raw doubled coordinates.
    pub closed spec fn book(&self) -> Seq<[i16; 8]> {
        self.raw@
    }

    /// The codebook holds the lowest-norm points, one for each block index.
    pub open spec fn wf(&self) -> bool {
        &&& self.dim() % 8 == 0
        &&& 1 <= self.bits() <= 3
        &&& is_lowest(self.book(), lattice(), pow2(8 * self.bits()))
    }

    /// The quantizer for vectors of dimension `dim`, a multiple of eight, at one to three bits
    /// per coordinate.
    pub fn new(dim: usize, bits: u8) -> (q: Self)
        requires
            dim % 8 == 0,
            1 <= bits <= 3,
        ensures
            q.wf(),
            q.dim() == dim,
            q.bits() == bits,
    {
        let n_code: usize = if bits == 1 {
            0x100
        } else if bits == 2 {
            0x1_0000
        } else {
            0x100_0000
        };
        proof {
            lemma2_to64();
        }
        let raw: Vec<[i16; 8]> = lowest_points(n_code);
        E8Quantizer { dim, bits, raw }
    }

    /// How many points the codebook has.
    pub fn n_code(&self) -> (n: usize)
        ensures
            n == self.book().len(),
    {
        self.raw.len()
    }

    /// The point with index `i`.
    pub fn point(&self, i: usize) -> (p: [i16; 8])
        requires
            i < self.book().len(),
        ensures
            p == self.book()[i as int],
    {
        self.raw[i]
    }

    /// The index of `p` in the codebook, if it was kept.
    pub fn index_of_raw(&self, p: &[i16; 8]) -> (r: Option<usize>)
        requires
            self.wf(),
        ensures
            match r {
                Some(i) => i < self.book().len() && self.book()[i as int] == *p,
                None => !self.book().contains(*p),
            },
    {
        index_in_book(&self.raw, p)
    }

    /// A codeword near `y` and its distance: `y` is shrunk until its nearest lattice point was
    /// kept.
    fn seed_inside_shell(&self, y: &[i64; 8]) -> (r: (usize, i128))
        requires
            self.wf(),
            in_reach(*y),
        ensures
            r.0 < self.book().len(),
            r.1 == dist2(*y, self.book()[r.0 as int]),
            r.1 >= 0,
    {
        proof {
            lemma_pow2_pos(8 * self.bits as nat);
        }
        let zero: [i16; 8] = [0i16; 8];
        let mut best: usize = match self.index_of_raw(&zero) {
            Some(i) => i,
            None => 0,
        };
        let mut best_d: i128 = distance(y, &self.raw[best]);
        let mut lo: i64 = 0;
        let mut hi: i64 = 0x4000;
        let mut round: usize = 0;
        while round < 14
            invariant
                self.wf(),
                in_reach(*y),
                best < self.raw.len(),
                best_d == dist2(*y, self.raw@[best as int]),
                best_d >= 0,
                0 <= lo <= hi <= 0x4000,
            decreases 14 - round,
        {
            let mid: i64 = (lo + hi) / 2;
            let z: [i64; 8] = shrunk(y, mid);
            let hit: Option<usize> = match narrowed(&e8_nearest(&z)) {
                Some(pt) => self.index_of_raw(&pt),
                None => None,
            };
            match hit {
                Some(i) => {
                    let d: i128 = distance(y, &self.raw[i]);
                    if d < best_d {
                        best_d = d;
                        best = i;
                    }
                    lo = mid;
                },
                None => {
                    hi = mid;
                },
            }
            round += 1;
        }
        (best, best_d)
    }

    /// The index of the codeword nearest to `y`.
    ///
    /// The nearest point of the whole lattice is the answer whenever it was kept. Otherwise
    /// the search starts from some codeword and looks at every lattice point that is no
    /// further away.
    pub fn nearest_block(&self, y: &[i64; 8]) -> (i: usize)
        requires
            self.wf(),
            in_reach(*y),
        ensures
            is_nearest(self.book(), *y, i as int),
            keeps_decoded(self.book(), *y, i as int),
    {
        proof {
            assert(on_lattice(self.raw@)) by {
                assert forall|i: int| 0 <= i < self.raw@.len() implies is_e8(
                    #[trigger] self.raw@[i],
                ) by {
                    assert(lattice()(self.raw@[i]));
                }
            }
        }
        let wide: [i64; 8] = e8_nearest(y);
        proof {
            assert forall|p: [i16; 8]| is_decoded(y@, #[trigger] widened(p)) implies widened(p)
                == wide@ by {
                a_vector_decodes_to_one_point(y@, widened(p), wide@);
            }
        }
        if let Some(pt) = narrowed(&wide) {
            proof {
                assert forall|p: [i16; 8]| #[trigger] widened(p) == wide@ implies p == pt by {
                    assert forall|j: int| 0 <= j < 8 implies p@[j] == pt@[j] by {
                        assert(widened(p)[j] == widened(pt)[j]);
                    }
                    assert(p@ =~= pt@);
                    assert(p =~= pt);
                }
            }
            if let Some(i) = self.index_of_raw(&pt) {
                proof {
                    lemma_widened(*y, pt);
                    assert forall|j: int| 0 <= j < self.raw@.len() implies dist2(*y, pt)
                        <= #[trigger] dist2(*y, self.raw@[j]) by {
                        assert(is_e8(self.raw@[j]));
                        lemma_widened(*y, self.raw@[j]);
                    }
                }
                return i;
            }
        }
        let (seed, d): (usize, i128) = self.seed_inside_shell(y);
        let (best, _d): (usize, i128) = nearest_from_seed(&self.raw, y, seed, d);
        best
    }

    /// The packed block indices of a vector: for each block of eight coordinates the index of
    /// its nearest codeword, which is the point that the block decodes to wherever that was kept.
    pub fn encode(&self, blocks: &Vec<[i64; 8]>) -> (codes: Vec<u8>)
        requires
            self.wf(),
            8 * blocks.len() == self.dim(),
            forall|b: int| 0 <= b < blocks.len() ==> in_reach(#[trigger] blocks@[b]),
        ensures
            exists|idx: Seq<nat>|
                {
                    &&& idx.len() == blocks.len()
                    &&& forall|b: int|
                        0 <= b < blocks.len() ==> is_nearest(
                            self.book(),
                            blocks@[b],
                            #[trigger] idx[b] as int,
                        )
                    &&& forall|b: int|
                        0 <= b < blocks.len() ==> keeps_decoded(
                            self.book(),
                            blocks@[b],
                            #[trigger] idx[b] as int,
                        )
                    &&& codes@ == #[trigger] packed(idx, 8 * self.bits())
                },
            codes.len() == packed_len(blocks@.len(), 8 * self.bits()),
    {
        let mut idx: Vec<u32> = Vec::with_capacity(blocks.len());
        let ghost n = pow2(8 * self.bits as nat);
        proof {
            lemma2_to64();
        }
        let mut b: usize = 0;
        while b < blocks.len()
            invariant
                b <= blocks.len(),
                self.wf(),
                n == pow2(8 * self.bits as nat),
                n <= 0x100_0000,
                forall|k: int| 0 <= k < blocks.len() ==> in_reach(#[trigger] blocks@[k]),
                idx.len() == b,
                forall|k: int|
                    0 <= k < b ==> is_nearest(
                        self.raw@,
                        blocks@[k],
                        (#[trigger] idx@[k]) as int,
                    ) && keeps_decoded(self.raw@, blocks@[k], idx@[k] as int),
            decreases blocks.len() - b,
        {
            let i: usize = self.nearest_block(&blocks[b]);
            idx.push(i as u32);
            b += 1;
        }
        let ghost vals = values32(idx@);
        proof {
            assert(all_fit(vals, 8 * self.bits as nat)) by {
                assert forall|k: int| 0 <= k < vals.len() implies (#[trigger] vals[k]) < n by {
                    assert(is_nearest(self.raw@, blocks@[k], idx@[k] as int));
                }
            }
            assert forall|k: int| 0 <= k < blocks.len() implies is_nearest(
                self.book(),
                blocks@[k],
                #[trigger] vals[k] as int,
            ) && keeps_decoded(self.book(), blocks@[k], vals[k] as int) by {
                assert(is_nearest(self.raw@, blocks@[k], idx@[k] as int));
            }
        }
        pack_indices_wide(idx.as_slice(), 8 * self.bits)
    }

    /// The codewords that a record names. A block that the record does not hold in full reads
    /// as the first codeword.
    pub fn decode(&self, codes: &[u8]) -> (points: Vec<[i16; 8]>)
        requires
            self.wf(),
        ensures
            points.len() == self.dim() / 8,
            forall|b: int|
                0 <= b < points.len() ==> #[trigger] points@[b] == self.book()[if has_field(
                    codes@,
                    8 * self.bits(),
                    b,
                ) {
                    field(codes@, 8 * self.bits(), b) as int
                } else {
                    0
                }],
    {
        let n: usize = self.dim / 8;
        let mut scratch: Vec<u32> = vec![0u32; n];
        let ghost w = 8 * self.bits as nat;
        unpack_indices_wide(codes, 8 * self.bits, scratch.as_mut_slice());
        let mut points: Vec<[i16; 8]> = Vec::with_capacity(n);
        let mut b: usize = 0;
        while b < n
            invariant
                b <= n == scratch.len(),
                self.wf(),
                w == 8 * self.bits as nat,
                forall|k: int|
                    0 <= k < n ==> #[trigger] scratch@[k] == if has_field(codes@, w, k) {
                        field(codes@, w, k)
                    } else {
                        0
                    },
                points.len() == b,
                forall|k: int|
                    0 <= k < b ==> #[trigger] points@[k] == self.raw@[if has_field(codes@, w, k) {
                        field(codes@, w, k) as int
                    } else {
                        0
                    }],
            decreases n - b,
        {
            proof {
                lemma_pow2_pos(w);
                lemma_field_fits(codes@, w, b as int);
            }
            let at: usize = scratch[b] as usize;
            points.push(self.raw[at]);
            b += 1;
        }
        points
    }

    /// A record decodes to the nearest codeword of every block.
    pub proof fn record_decodes_to_the_nearest(
        &self,
        blocks: Seq<[i64; 8]>,
        idx: Seq<nat>,
        b: int,
    )
        requires
            self.wf(),
            idx.len() == blocks.len(),
            forall|k: int|
                0 <= k < blocks.len() ==> is_nearest(self.book(), blocks[k], #[trigger] idx[k] as int),
            0 <= b < blocks.len(),
        ensures
            ({
                let codes = packed(idx, 8 * self.bits());
                &&& has_field(codes, 8 * self.bits(), b)
                &&& is_nearest(
                    self.book(),
                    blocks[b],
                    field(codes, 8 * self.bits(), b) as int,
                )
            }),
    {
        assert(all_fit(idx, 8 * self.bits())) by {
            assert forall|k: int| 0 <= k < idx.len() implies (#[trigger] idx[k]) < pow2(
                8 * self.bits(),
            ) by {
                assert(is_nearest(self.book(), blocks[k], idx[k] as int));
            }
        }
        packed_fields_round_trip(idx, 8 * self.bits(), b);
        assert(is_nearest(self.book(), blocks[b], idx[b] as int));
    }

    /// The sums of the codebook's raw coordinates and of their squares, from which its mean and
    /// variance follow.
    pub fn coordinate_sums(&self) -> (r: (i64, i64))
        requires
            self.wf(),
        ensures
            r.0 == book_sum(self.book(), self.book().len() as int),
            r.1 == book_norm(self.book(), self.book().len() as int),
    {
        proof {
            lemma2_to64();
        }
        sums_of(&self.raw)
    }
}

/// The sum of all coordinates of the first `k` points.
pub open spec fn book_sum(book: Seq<[i16; 8]>, k: int) -> int
    decreases k,
{
    if k <= 0 {
        0
    } else {
        book_sum(book, k - 1) + sum_upto(book[k - 1]@, 8)
    }
}

/// The sum of the squared norms of the first `k` points.
pub open spec fn book_norm(book: Seq<[i16; 8]>, k: int) -> int
    decreases k,
{
    if k <= 0 {
        0
    } else {
        book_norm(book, k - 1) + norm2(book[k - 1])
    }
}

/// The sums of the coordinates of `book` and of their squares.
pub(crate) fn sums_of(book: &Vec<[i16; 8]>) -> (r: (i64, i64))
    requires
        book.len() <= 0x100_0000,
    ensures
        r.0 == book_sum(book@, book@.len() as int),
        r.1 == book_norm(book@, book@.len() as int),
        0 <= r.1 <= 0x2_0000_0000 * book.len(),
        -0x4_0000 * book.len() <= r.0 <= 0x4_0000 * book.len(),
{
    let mut total: i64 = 0;
    let mut squares: i64 = 0;
    let mut i: usize = 0;
    while i < book.len()
        invariant
            i <= book.len() <= 0x100_0000,
            total == book_sum(book@, i as int),
            squares == book_norm(book@, i as int),
            0 <= squares <= 0x2_0000_0000 * i,
            -0x4_0000 * i <= total <= 0x4_0000 * i,
        decreases book.len() - i,
    {
        let p: [i16; 8] = book[i];
        proof {
            lemma_norm_bounds(p@, 8);
        }
        let n: i64 = norm_of(&p);
        let s: i64 = sum_of(&p);
        total = total + s;
        squares = squares + n;
        i += 1;
    }
    (total, squares)
}

/// The sum of the coordinates of a point.
fn sum_of(p: &[i16; 8]) -> (s: i64)
    ensures
        s == sum_upto(p@, 8),
{
    let mut s: i64 = 0;
    let mut k: usize = 0;
    while k < 8
        invariant
            k <= 8,
            s == sum_upto(p@, k as int),
        decreases 8 - k,
    {
        proof {
            lemma_norm_bounds(p@, k as int);
        }
        s = s + p[k] as i64;
        k += 1;
    }
    s
}

/// `v` times `mid / 2^14`, rounded towards zero.
pub open spec fn scaled(v: int, mid: int) -> int {
    if v >= 0 {
        (v * mid) / 0x4000
    } else {
        -((-v * mid) / 0x4000)
    }
}

/// `y` times `mid / 2^14`, rounded towards zero.
pub(crate) fn shrunk(y: &[i64; 8], mid: i64) -> (z: [i64; 8])
    requires
        in_reach(*y),
        0 <= mid <= 0x4000,
    ensures
        in_reach(z),
        forall|j: int| 0 <= j < 8 ==> #[trigger] z@[j] == scaled(y@[j] as int, mid as int),
{
    let mut z: [i64; 8] = [0i64; 8];
    let mut j: usize = 0;
    while j < 8
        invariant
            j <= 8,
            in_reach(*y),
            0 <= mid <= 0x4000,
            forall|k: int|
                0 <= k < j ==> -REACH <= (#[trigger] z@[k]) <= REACH && z@[k] == scaled(
                    y@[k] as int,
                    mid as int,
                ),
        decreases 8 - j,
    {
        assert(-REACH <= y@[j as int] <= REACH);
        let v: i64 = y[j];
        let a: i64 = if v >= 0 {
            v
        } else {
            -v
        };
        assert(0 <= a * mid <= a * 0x4000) by (nonlinear_arith)
            requires
                0 <= a,
                0 <= mid <= 0x4000,
        ;
        let s: i64 = (a as i128 * mid as i128 / 0x4000) as i64;
        z[j] = if v >= 0 {
            s
        } else {
            -s
        };
        j += 1;
    }
    z
}

// ---- What the quantizer promises ----

/// A squared distance is the sum of the squared offsets of all eight coordinates.
pub proof fn distances_are_euclidean(y: [i64; 8], p: [i16; 8])
    ensures
        dist2(y, p) == total(
            Seq::new(8, |j: int| (y@[j] - p@[j] * 0x200_0000) * (y@[j] - p@[j] * 0x200_0000)),
        ),
{
    lemma_dist_total(y@, p@, 8);
}

proof fn lemma_dist_total(y: Seq<i64>, p: Seq<i16>, k: int)
    requires
        0 <= k,
    ensures
        dist_upto(y, p, k) == total(
            Seq::new(k as nat, |j: int| (y[j] - p[j] * 0x200_0000) * (y[j] - p[j] * 0x200_0000)),
        ),
    decreases k,
{
    let f = |j: int| (y[j] - p[j] * 0x200_0000) * (y[j] - p[j] * 0x200_0000);
    if k > 0 {
        lemma_dist_total(y, p, k - 1);
        assert(Seq::new(k as nat, f) =~= Seq::new((k - 1) as nat, f).push(f(k - 1)));
        total_of_push(Seq::new((k - 1) as nat, f), f(k - 1));
    } else {
        total_of_nothing(Seq::new(0, f));
    }
}

/// The same for points far out, and what makes them points of the lattice.
pub proof fn far_points_are_lattice_points(y: Seq<i64>, p: Seq<i64>)
    requires
        p.len() == 8,
    ensures
        gaps_upto(y, p, 8) == total(
            Seq::new(8, |j: int| (y[j] - p[j] * 0x200_0000) * (y[j] - p[j] * 0x200_0000)),
        ),
        is_point(p) <==> total(Seq::new(8, |j: int| p[j] as int)) % 4 == 0 && forall|i: int, j: int|
            0 <= i < 8 && 0 <= j < 8 ==> ((#[trigger] p[i]) - (#[trigger] p[j])) % 2 == 0,
{
    lemma_gaps_total(y, p, 8);
    if is_point(p) {
        let r = p[0] as int % 2;
        assert(has_parity(p, r));
        assert forall|i: int, j: int| 0 <= i < 8 && 0 <= j < 8 implies ((#[trigger] p[i]) - (
        #[trigger] p[j])) % 2 == 0 by {
            assert(p[i] as int % 2 == r && p[j] as int % 2 == r);
        }
    }
    if forall|i: int, j: int|
        0 <= i < 8 && 0 <= j < 8 ==> ((#[trigger] p[i]) - (#[trigger] p[j])) % 2 == 0 {
        let r = p[0] as int % 2;
        assert forall|i: int| 0 <= i < 8 implies (#[trigger] p[i]) as int % 2 == r by {
            assert((p[i] - p[0]) % 2 == 0);
        }
        assert(has_parity(p, r));
    }
}

proof fn lemma_gaps_total(y: Seq<i64>, p: Seq<i64>, k: int)
    requires
        0 <= k,
    ensures
        gaps_upto(y, p, k) == total(
            Seq::new(k as nat, |j: int| (y[j] - p[j] * 0x200_0000) * (y[j] - p[j] * 0x200_0000)),
        ),
        total_upto(p, k) == total(Seq::new(k as nat, |j: int| p[j] as int)),
    decreases k,
{
    let f = |j: int| (y[j] - p[j] * 0x200_0000) * (y[j] - p[j] * 0x200_0000);
    let g = |j: int| p[j] as int;
    if k > 0 {
        lemma_gaps_total(y, p, k - 1);
        assert(Seq::new(k as nat, f) =~= Seq::new((k - 1) as nat, f).push(f(k - 1)));
        assert(Seq::new(k as nat, g) =~= Seq::new((k - 1) as nat, g).push(g(k - 1)));
        total_of_push(Seq::new((k - 1) as nat, f), f(k - 1));
        total_of_push(Seq::new((k - 1) as nat, g), g(k - 1));
    } else {
        total_of_nothing(Seq::new(0, f));
        total_of_nothing(Seq::new(0, g));
    }
}

/// No codeword is closer than the chosen one.
pub proof fn no_codeword_is_closer(book: Seq<[i16; 8]>, y: [i64; 8], i: int, j: int)
    requires
        is_nearest(book, y, i),
        0 <= j < book.len(),
    ensures
        0 <= i < book.len(),
        dist2(y, book[i]) <= dist2(y, book[j]),
{
}

/// A quantizer has `256^bits` codewords, all of them points of the lattice, and the origin is the
/// first.
pub proof fn the_codebook_fills_the_rate(q: E8Quantizer)
    requires
        q.wf(),
    ensures
        q.book().len() == vstd::arithmetic::power::pow(256, q.bits()),
        forall|i: int| 0 <= i < q.book().len() ==> is_e8(#[trigger] q.book()[i]),
        forall|j: int| 0 <= j < 8 ==> #[trigger] q.book()[0]@[j] == 0,
{
    lemma2_to64();
    reveal_with_fuel(vstd::arithmetic::power::pow, 5);
    assert(pow2(8) == 256 && pow2(16) == 65536 && pow2(24) == 16777216);
    let book = q.book();
    assert forall|i: int| 0 <= i < book.len() implies is_e8(#[trigger] book[i]) by {
        assert(lattice()(book[i]));
    }
    let zero: [i16; 8] = [0i16, 0i16, 0i16, 0i16, 0i16, 0i16, 0i16, 0i16];
    assert(is_e8(zero)) by {
        assert(parity_from(zero@, 0, 0));
        reveal_with_fuel(sum_upto, 9);
    }
    assert(norm2(zero) == 0) by {
        reveal_with_fuel(norm_upto, 9);
    }
    assert(lattice()(zero));
    if book.contains(zero) {
        let i = choose|i: int| 0 <= i < book.len() && book[i] == zero;
        if i > 0 {
            assert(book[0].leq(book[i]));
        }
    } else {
        assert(book[0].leq(zero) && lattice()(zero));
    }
    crate::lattice::the_lattice_is_even(book[0]);
}

/// The sums that the scale of a codebook follows from run over all its points.
pub proof fn scale_sums_run_over_all_points(book: Seq<[i16; 8]>, k: int)
    requires
        0 <= k <= book.len(),
    ensures
        book_sum(book, k) == total(Seq::new(k as nat, |i: int| sum_upto(book[i]@, 8))),
        book_norm(book, k) == total(Seq::new(k as nat, |i: int| norm2(book[i]))),
    decreases k,
{
    let f = |i: int| sum_upto(book[i]@, 8);
    let g = |i: int| norm2(book[i]);
    if k > 0 {
        scale_sums_run_over_all_points(book, k - 1);
        assert(Seq::new(k as nat, f) =~= Seq::new((k - 1) as nat, f).push(f(k - 1)));
        assert(Seq::new(k as nat, g) =~= Seq::new((k - 1) as nat, g).push(g(k - 1)));
        total_of_push(Seq::new((k - 1) as nat, f), f(k - 1));
        total_of_push(Seq::new((k - 1) as nat, g), g(k - 1));
    } else {
        total_of_nothing(Seq::new(0, f));
        total_of_nothing(Seq::new(0, g));
    }
}

/// An enumeration around a vector holds each lattice point within its budget once, and nothing
/// else.
pub proof fn an_enumeration_around_a_vector_is_complete(
    out: Seq<[i16; 8]>,
    centre: [i64; 8],
    budget: int,
    p: [i16; 8],
)
    requires
        is_ball_around(out, centre, budget),
    ensures
        out.no_duplicates(),
        out.contains(p) <==> is_e8(p) && dist2(centre, p) <= budget,
{
    if out.contains(p) {
        let i = choose|i: int| 0 <= i < out.len() && out[i] == p;
        assert(is_e8(out[i]) && dist2(centre, out[i]) <= budget);
    }
    assert forall|i: int, j: int| 0 <= i < out.len() && 0 <= j < out.len() && i != j implies out[i]
        != out[j] by {
        if i < j {
            assert(listed_before(out[i], out[j]));
            lemma_lex_asymmetric(out[i]@, out[j]@, 0);
        } else {
            assert(listed_before(out[j], out[i]));
            lemma_lex_asymmetric(out[j]@, out[i]@, 0);
        }
    }
}

/// A lens holds each lattice point that is within both budgets once, and nothing else.
pub proof fn a_lens_is_complete(
    out: Seq<[i16; 8]>,
    centre: [i64; 8],
    budget: int,
    room: int,
    p: [i16; 8],
)
    requires
        is_lens(out, centre, budget, room),
    ensures
        out.no_duplicates(),
        out.contains(p) <==> is_e8(p) && dist2(centre, p) <= budget && norm2(p) <= room,
{
    if out.contains(p) {
        let i = choose|i: int| 0 <= i < out.len() && out[i] == p;
        assert(is_e8(out[i]) && dist2(centre, out[i]) <= budget && norm2(out[i]) <= room);
    }
    assert forall|i: int, j: int| 0 <= i < out.len() && 0 <= j < out.len() && i != j implies out[i]
        != out[j] by {
        if i < j {
            assert(listed_before(out[i], out[j]));
            lemma_lex_asymmetric(out[i]@, out[j]@, 0);
        } else {
            assert(listed_before(out[j], out[i]));
            lemma_lex_asymmetric(out[j]@, out[i]@, 0);
        }
    }
}

/// The lattice point nearest to a vector is the one that is chosen, if the book holds it.
pub proof fn a_decoded_point_in_the_book_is_chosen(
    book: Seq<[i16; 8]>,
    y: [i64; 8],
    i: int,
    p: [i16; 8],
)
    requires
        keeps_decoded(book, y, i),
        is_decoded(y@, widened(p)),
        book.contains(p),
    ensures
        book[i] == p,
{
}

/// A vector is shrunk towards zero: each coordinate keeps its sign, and is the largest whole
/// number that does not exceed its share.
pub proof fn shrinking_rounds_towards_zero(v: int, mid: int)
    requires
        0 <= mid,
    ensures
        scaled(-v, mid) == -scaled(v, mid),
        v >= 0 ==> 0 <= scaled(v, mid) * 0x4000 <= v * mid < (scaled(v, mid) + 1) * 0x4000,
{
    if v >= 0 {
        assert(v * mid >= 0) by (nonlinear_arith)
            requires
                v >= 0,
                mid >= 0,
        ;
    }
    assert(-(-v) == v);
    if v == 0 {
        assert(0 * mid == 0) by (nonlinear_arith);
        assert(-0int * mid == 0) by (nonlinear_arith);
    }
}

} // verus!
