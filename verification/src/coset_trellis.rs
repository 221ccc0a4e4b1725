//! Trellis-coded vector quantization over the cosets of E8.
//!
//! E8 splits into eight cosets of an index-eight sublattice. Each coset keeps a book of its
//! lowest-norm points. A record is a path through a trellis that names one coset per block of
//! eight coordinates, together with the index of a point in that coset's book; the encoder
//! finds the path whose points are closest to the vector as a whole.

use vstd::arithmetic::power2::{lemma2_to64, lemma_pow2_pos, lemma_pow2_strictly_increases, pow2};
use vstd::prelude::*;

use crate::e8::{
    dist2, dist_upto, distance, e8_nearest, in_reach, is_nearest, nearest_from_seed, offset,
    on_lattice, shrunk, HALF, REACH,
};
use crate::lattice::{
    ample_budget, enumerate_e8_raw, grid_point, index_in_book, is_ball, is_book, is_e8, is_lowest,
    is_shift, lemma_ball_distinct, lemma_ball_sorted, lemma_grid_count, lemma_grid_point, lemma_norm_grows,
    lemma_pow_eight, norm2, norm_upto, parity_from, sum_upto,
};
use crate::order::{in_order, merge_sort, Ranked};
use crate::packing::{
    all_fit, field, has_field, lemma_field_fits, pack_indices_wide, packed,
    packed_fields_round_trip, unpack_indices_wide, values32,
};
use crate::viterbi::{
    best_branches, best_start, cheapest_path, coset_for, coset_named, cost_table, costs_bounded,
    is_path, lemma_chosen_is_path, walk, DEAREST,
};

use crate::sums::{total, total_is_monotone};

verus! {

/// Branch bits per step.
pub const K_BITS: u8 = 2;

/// Cosets in the partition.
pub const N_COSETS: usize = 8;

/// Half the difference of two coordinates, modulo two.
pub open spec fn label_bit(a: int, b: int) -> int {
    ((a - b) / 2) % 2
}

/// The three-bit label of a point's coset.
pub open spec fn coset(p: [i16; 8]) -> int {
    4 * label_bit(p@[0] as int, p@[1] as int) + 2 * label_bit(p@[2] as int, p@[3] as int)
        + label_bit(p@[4] as int, p@[5] as int)
}

/// The points of one coset.
pub open spec fn coset_points(c: int) -> spec_fn([i16; 8]) -> bool {
    |p: [i16; 8]| is_e8(p) && coset(p) == c
}

fn label_bit_of(a: i16, b: i16) -> (r: usize)
    requires
        (a - b) % 2 == 0,
    ensures
        r == label_bit(a as int, b as int),
        r < 2,
{
    let d: i32 = a as i32 - b as i32;
    if d % 4 == 0 {
        0
    } else {
        1
    }
}

/// The three-bit coset label of a point of E8.
pub fn coset_of(r: &[i16; 8]) -> (c: usize)
    requires
        is_e8(*r),
    ensures
        c == coset(*r),
        c < N_COSETS,
{
    proof {
        assert(r@[0] as int % 2 == r@[1] as int % 2);
        assert(r@[2] as int % 2 == r@[3] as int % 2);
        assert(r@[4] as int % 2 == r@[5] as int % 2);
    }
    4 * label_bit_of(r[0], r[1]) + 2 * label_bit_of(r[2], r[3]) + label_bit_of(r[4], r[5])
}

/// `s` is the sum of `a` and `b`.
pub open spec fn is_sum(a: [i16; 8], b: [i16; 8], s: [i16; 8]) -> bool {
    forall|j: int| 0 <= j < 8 ==> #[trigger] s@[j] == a@[j] + b@[j]
}

proof fn lemma_sum_of_sums(a: [i16; 8], b: [i16; 8], s: [i16; 8], k: int)
    requires
        is_sum(a, b, s),
        0 <= k <= 8,
    ensures
        sum_upto(s@, k) == sum_upto(a@, k) + sum_upto(b@, k),
    decreases k,
{
    if k > 0 {
        lemma_sum_of_sums(a, b, s, k - 1);
        assert(s@[k - 1] == a@[k - 1] + b@[k - 1]);
    }
}

/// The lattice is closed under addition.
pub proof fn lattice_is_closed(a: [i16; 8], b: [i16; 8], s: [i16; 8])
    requires
        is_e8(a),
        is_e8(b),
        is_sum(a, b, s),
    ensures
        is_e8(s),
{
    lemma_sum_of_sums(a, b, s, 8);
    let p = a@[0] as int % 2;
    let q = b@[0] as int % 2;
    let r = (p + q) % 2;
    assert forall|i: int| 0 <= i < 8 implies (#[trigger] s@[i]) as int % 2 == r by {
        assert(a@[i] as int % 2 == p);
        assert(b@[i] as int % 2 == q);
    }
    assert(parity_from(s@, 0, r));
}

proof fn lemma_label_bit_adds(a0: int, a1: int, b0: int, b1: int)
    requires
        (a0 - a1) % 2 == 0,
        (b0 - b1) % 2 == 0,
    ensures
        label_bit(a0 + b0, a1 + b1) == (label_bit(a0, a1) + label_bit(b0, b1)) % 2,
{
}

/// The partition is closed: a point plus a point of the sublattice stays in its coset.
pub proof fn cosets_are_closed(a: [i16; 8], z: [i16; 8], s: [i16; 8])
    requires
        is_e8(a),
        is_e8(z),
        coset(z) == 0,
        is_sum(a, z, s),
    ensures
        is_e8(s),
        coset(s) == coset(a),
{
    lattice_is_closed(a, z, s);
    assert(a@[0] as int % 2 == a@[1] as int % 2 && a@[2] as int % 2 == a@[3] as int % 2
        && a@[4] as int % 2 == a@[5] as int % 2);
    assert(z@[0] as int % 2 == z@[1] as int % 2 && z@[2] as int % 2 == z@[3] as int % 2
        && z@[4] as int % 2 == z@[5] as int % 2);
    assert(s@[0] == a@[0] + z@[0] && s@[1] == a@[1] + z@[1] && s@[2] == a@[2] + z@[2] && s@[3]
        == a@[3] + z@[3] && s@[4] == a@[4] + z@[4] && s@[5] == a@[5] + z@[5]);
    lemma_label_bit_adds(a@[0] as int, a@[1] as int, z@[0] as int, z@[1] as int);
    lemma_label_bit_adds(a@[2] as int, a@[3] as int, z@[2] as int, z@[3] as int);
    lemma_label_bit_adds(a@[4] as int, a@[5] as int, z@[4] as int, z@[5] as int);
}

/// A point of coset `c` with small coordinates.
spec fn representative(c: int) -> [i16; 8] {
    let x = (c / 4) % 2;
    let y = (c / 2) % 2;
    let z = c % 2;
    [
        (2 * x) as i16,
        0i16,
        (2 * y) as i16,
        0i16,
        (2 * z) as i16,
        0i16,
        (2 * ((x + y + z) % 2)) as i16,
        0i16,
    ]
}

proof fn lemma_representative(c: int)
    requires
        0 <= c < 8,
    ensures
        is_shift(representative(c)),
        coset(representative(c)) == c,
        norm2(representative(c)) <= 32,
{
    let p = representative(c);
    reveal_with_fuel(sum_upto, 9);
    reveal_with_fuel(norm_upto, 9);
    assert(parity_from(p@, 0, 0)) by {
        assert forall|i: int| 0 <= i < 8 implies (#[trigger] p@[i]) as int % 2 == 0 by {
            assert(i == 0 || i == 1 || i == 2 || i == 3 || i == 4 || i == 5 || i == 6 || i == 7);
        }
    }
    assert forall|i: int| 0 <= i < 8 implies 0 <= (#[trigger] p@[i]) <= 2 by {
        assert(i == 0 || i == 1 || i == 2 || i == 3 || i == 4 || i == 5 || i == 6 || i == 7);
    }
    assert forall|i: int| 0 <= i < 8 implies 0 <= (#[trigger] p@[i]) * p@[i] <= 4 by {
        let x = p@[i] as int;
        assert(0 <= x * x <= 4) by (nonlinear_arith)
            requires
                0 <= x <= 2,
        ;
    }
}

/// Points that differ by multiples of eight lie in the same coset.
proof fn lemma_same_coset(a: [i16; 8], b: [i16; 8])
    requires
        is_e8(a),
        is_e8(b),
        forall|j: int| 0 <= j < 8 ==> ((#[trigger] a@[j]) - b@[j]) % 8 == 0,
    ensures
        coset(a) == coset(b),
{
    assert(a@[0] as int % 2 == a@[1] as int % 2 && a@[2] as int % 2 == a@[3] as int % 2
        && a@[4] as int % 2 == a@[5] as int % 2);
    assert((a@[0] - b@[0]) % 8 == 0 && (a@[1] - b@[1]) % 8 == 0 && (a@[2] - b@[2]) % 8 == 0 && (
    a@[3] - b@[3]) % 8 == 0 && (a@[4] - b@[4]) % 8 == 0 && (a@[5] - b@[5]) % 8 == 0);
}

// ---- Books ----

/// `book` holds the first points of coset `c` in `sorted`, in order, up to `most` of them.
spec fn is_prefix_of_coset(
    book: Seq<[i16; 8]>,
    sorted: Seq<[i16; 8]>,
    c: int,
    most: nat,
    k: int,
) -> bool {
    &&& book.len() <= most
    &&& in_order(book)
    &&& book.no_duplicates()
    &&& forall|i: int|
        0 <= i < book.len() ==> coset(#[trigger] book[i]) == c && sorted.take(k).contains(book[i])
    &&& forall|j: int|
        0 <= j < k && coset(#[trigger] sorted[j]) == c ==> book.contains(sorted[j]) || (book.len()
            == most && forall|i: int| 0 <= i < book.len() ==> (#[trigger] book[i]).leq(sorted[j]))
}

/// Deals the sorted points of a ball out to the books of their cosets, up to `most` each.
fn deal(sorted: &Vec<[i16; 8]>, most: usize) -> (books: Vec<Vec<[i16; 8]>>)
    requires
        in_order(sorted@),
        sorted@.no_duplicates(),
        on_lattice(sorted@),
    ensures
        books.len() == 8,
        forall|c: int|
            0 <= c < 8 ==> is_prefix_of_coset(
                (#[trigger] books@[c])@,
                sorted@,
                c,
                most as nat,
                sorted@.len() as int,
            ),
{
    let mut books: Vec<Vec<[i16; 8]>> = Vec::with_capacity(8);
    let mut c: usize = 0;
    while c < 8
        invariant
            c <= 8,
            books.len() == c,
            forall|q: int|
                0 <= q < c ==> is_prefix_of_coset(
                    (#[trigger] books@[q])@,
                    sorted@,
                    q,
                    most as nat,
                    0,
                ),
        decreases 8 - c,
    {
        books.push(Vec::new());
        c += 1;
    }
    let mut k: usize = 0;
    while k < sorted.len()
        invariant
            k <= sorted.len(),
            in_order(sorted@),
            sorted@.no_duplicates(),
            on_lattice(sorted@),
            books.len() == 8,
            forall|q: int|
                0 <= q < 8 ==> is_prefix_of_coset(
                    (#[trigger] books@[q])@,
                    sorted@,
                    q,
                    most as nat,
                    k as int,
                ),
        decreases sorted.len() - k,
    {
        let p: [i16; 8] = sorted[k];
        assert(is_e8(sorted@[k as int]));
        let c: usize = coset_of(&p);
        let ghost before = books@;
        if books[c].len() < most {
            books[c].push(p);
            proof {
                lemma_deal_push(before[c as int]@, sorted@, c as int, most as nat, k as int);
            }
        } else {
            proof {
                lemma_deal_skip(before[c as int]@, sorted@, c as int, most as nat, k as int);
            }
        }
        proof {
            assert forall|q: int| 0 <= q < 8 implies is_prefix_of_coset(
                (#[trigger] books@[q])@,
                sorted@,
                q,
                most as nat,
                k + 1,
            ) by {
                if q != c {
                    assert(books@[q] == before[q]);
                    lemma_deal_other(before[q]@, sorted@, q, most as nat, k as int);
                }
            }
        }
        k += 1;
    }
    books
}

proof fn lemma_take_next(sorted: Seq<[i16; 8]>, k: int)
    requires
        0 <= k < sorted.len(),
    ensures
        sorted.take(k + 1) == sorted.take(k).push(sorted[k]),
        forall|p: [i16; 8]|
            sorted.take(k).contains(p) ==> #[trigger] sorted.take(k + 1).contains(p),
        sorted.take(k + 1).contains(sorted[k]),
{
    let a = sorted.take(k);
    let b = sorted.take(k + 1);
    assert(b =~= a.push(sorted[k]));
    assert(b[k] == sorted[k]);
    assert forall|p: [i16; 8]| a.contains(p) implies #[trigger] b.contains(p) by {
        let i = choose|i: int| 0 <= i < a.len() && a[i] == p;
        assert(b[i] == p);
    }
}

proof fn lemma_deal_other(book: Seq<[i16; 8]>, sorted: Seq<[i16; 8]>, c: int, most: nat, k: int)
    requires
        0 <= k < sorted.len(),
        is_prefix_of_coset(book, sorted, c, most, k),
        coset(sorted[k]) != c,
    ensures
        is_prefix_of_coset(book, sorted, c, most, k + 1),
{
    lemma_take_next(sorted, k);
}

proof fn lemma_deal_skip(book: Seq<[i16; 8]>, sorted: Seq<[i16; 8]>, c: int, most: nat, k: int)
    requires
        0 <= k < sorted.len(),
        in_order(sorted),
        is_prefix_of_coset(book, sorted, c, most, k),
        book.len() == most,
    ensures
        is_prefix_of_coset(book, sorted, c, most, k + 1),
{
    lemma_take_next(sorted, k);
    assert forall|i: int| 0 <= i < book.len() implies (#[trigger] book[i]).leq(sorted[k]) by {
        assert(sorted.take(k).contains(book[i]));
        let j = choose|j: int| 0 <= j < k && sorted.take(k)[j] == book[i];
        assert(sorted[j].leq(sorted[k]));
    }
}

proof fn lemma_deal_push(book: Seq<[i16; 8]>, sorted: Seq<[i16; 8]>, c: int, most: nat, k: int)
    requires
        0 <= k < sorted.len(),
        in_order(sorted),
        sorted.no_duplicates(),
        is_prefix_of_coset(book, sorted, c, most, k),
        coset(sorted[k]) == c,
        book.len() < most,
    ensures
        is_prefix_of_coset(book.push(sorted[k]), sorted, c, most, k + 1),
{
    lemma_take_next(sorted, k);
    let p = sorted[k];
    let next = book.push(p);
    assert forall|i: int| 0 <= i < book.len() implies (#[trigger] book[i]).leq(p) && book[i]
        != p by {
        assert(sorted.take(k).contains(book[i]));
        let j = choose|j: int| 0 <= j < k && sorted.take(k)[j] == book[i];
        assert(sorted[j].leq(sorted[k]));
        assert(sorted[j] != sorted[k]);
    }
    assert forall|i: int, j: int| 0 <= i < j < next.len() implies (#[trigger] next[i]).leq(
        #[trigger] next[j],
    ) by {
        assert(next[i] == book[i]);
        if j < book.len() {
            assert(next[j] == book[j]);
        }
    }
    assert(next.no_duplicates());
    assert forall|i: int| 0 <= i < next.len() implies coset(#[trigger] next[i]) == c && sorted.take(
        k + 1,
    ).contains(next[i]) by {
        if i < book.len() {
            assert(next[i] == book[i]);
        }
    }
    assert forall|j: int| 0 <= j < k + 1 && coset(#[trigger] sorted[j]) == c implies next.contains(
        sorted[j],
    ) by {
        if j < k {
            assert(book.contains(sorted[j]));
            let i = choose|i: int| 0 <= i < book.len() && book[i] == sorted[j];
            assert(next[i] == sorted[j]);
        } else {
            assert(next[book.len() as int] == p);
        }
    }
}

/// A full book that was dealt from a whole ball holds the lowest points of its coset.
proof fn lemma_full_book(
    book: Seq<[i16; 8]>,
    sorted: Seq<[i16; 8]>,
    c: int,
    most: nat,
    budget: int,
)
    requires
        is_prefix_of_coset(book, sorted, c, most, sorted.len() as int),
        book.len() == most,
        forall|i: int|
            0 <= i < sorted.len() ==> is_e8(#[trigger] sorted[i]) && norm2(sorted[i]) <= budget,
        forall|p: [i16; 8]| is_e8(p) && norm2(p) <= budget ==> #[trigger] sorted.contains(p),
    ensures
        is_lowest(book, coset_points(c), most),
{
    assert(sorted.take(sorted.len() as int) =~= sorted);
    assert forall|i: int| 0 <= i < book.len() implies is_e8(#[trigger] book[i]) && norm2(book[i])
        <= budget && coset(book[i]) == c by {
        assert(sorted.contains(book[i]));
        let j = choose|j: int| 0 <= j < sorted.len() && sorted[j] == book[i];
        assert(is_e8(sorted[j]));
    }
    assert forall|i: int| 0 <= i < book.len() implies coset_points(c)(#[trigger] book[i]) by {
        assert(is_e8(book[i]) && coset(book[i]) == c);
    }
    assert forall|p: [i16; 8], i: int|
        coset_points(c)(p) && !book.contains(p) && 0 <= i < book.len() implies (
    #[trigger] book[i]).leq(p) && #[trigger] coset_points(c)(p) by {
        if norm2(p) <= budget {
            assert(sorted.contains(p));
            let j = choose|j: int| 0 <= j < sorted.len() && sorted[j] == p;
            assert(coset(sorted[j]) == c);
        }
    }
}

/// The points of coset `c` in a list.
spec fn of_coset(s: Seq<[i16; 8]>, c: int) -> Seq<[i16; 8]> {
    s.filter(|p: [i16; 8]| coset(p) == c)
}

/// How many points of each coset a list holds.
fn count_cosets(raw: &Vec<[i16; 8]>) -> (counts: [usize; 8])
    requires
        on_lattice(raw@),
    ensures
        forall|c: int| 0 <= c < 8 ==> #[trigger] counts@[c] == of_coset(raw@, c).len(),
{
    let mut counts: [usize; 8] = [0usize; 8];
    let mut k: usize = 0;
    proof {
        assert forall|c: int| 0 <= c < 8 implies #[trigger] counts@[c] == of_coset(
            raw@.take(0),
            c,
        ).len() by {
            raw@.take(0).lemma_filter_len(|p: [i16; 8]| coset(p) == c);
        }
    }
    while k < raw.len()
        invariant
            k <= raw.len(),
            on_lattice(raw@),
            forall|c: int|
                0 <= c < 8 ==> #[trigger] counts@[c] == of_coset(raw@.take(k as int), c).len()
                    && counts@[c] <= k,
        decreases raw.len() - k,
    {
        assert(is_e8(raw@[k as int]));
        let at: usize = coset_of(&raw[k]);
        let ghost before = counts@;
        proof {
            lemma_take_next(raw@, k as int);
            assert(counts@[at as int] <= k);
        }
        counts[at] = counts[at] + 1;
        proof {
            assert forall|c: int| 0 <= c < 8 implies #[trigger] counts@[c] == of_coset(
                raw@.take(k + 1),
                c,
            ).len() && counts@[c] <= k + 1 by {
                let pred = |p: [i16; 8]| coset(p) == c;
                raw@.take(k as int).lemma_filter_len_push(pred, raw@[k as int]);
                assert(before[c] == of_coset(raw@.take(k as int), c).len() && before[c] <= k);
            }
        }
        k += 1;
    }
    assert(raw@.take(k as int) =~= raw@);
    counts
}

/// In an ample ball every coset has at least `8^8` points.
proof fn lemma_ample_cosets(raw: Seq<[i16; 8]>, c: int, budget: int)
    requires
        0 <= c < 8,
        is_ball(raw, budget),
        budget >= ample_budget(),
    ensures
        of_coset(raw, c).len() >= 0x100_0000,
{
    let shift = representative(c);
    let pred = |p: [i16; 8]| coset(p) == c;
    lemma_representative(c);
    assert forall|k: int| of_coset(raw, c).contains(#[trigger] grid_point(shift, k, 8)) by {
        lemma_grid_point(shift, k, 8);
        let p = grid_point(shift, k, 8);
        lemma_same_coset(p, shift);
        assert(raw.contains(p));
        let j = choose|j: int| 0 <= j < raw.len() && raw[j] == p;
        raw.lemma_filter_contains(pred, j);
    }
    lemma_grid_count(shift, 8, of_coset(raw, c));
    lemma_pow_eight();
}

/// A book is full once the ball holds enough points of its coset.
proof fn lemma_book_fills(
    book: Seq<[i16; 8]>,
    raw: Seq<[i16; 8]>,
    sorted: Seq<[i16; 8]>,
    c: int,
    most: nat,
    budget: int,
)
    requires
        is_ball(raw, budget),
        of_coset(raw, c).len() >= most,
        is_prefix_of_coset(book, sorted, c, most, sorted.len() as int),
        forall|p: [i16; 8]| is_e8(p) && norm2(p) <= budget ==> #[trigger] sorted.contains(p),
    ensures
        book.len() == most,
{
    let kept = of_coset(raw, c);
    let pred = |p: [i16; 8]| coset(p) == c;
    if book.len() < most {
        lemma_ball_distinct(raw, budget);
        lemma_filter_distinct(raw, pred);
        kept.unique_seq_to_set();
        vstd::seq_lib::seq_to_set_is_finite(book);
        assert(kept.to_set().subset_of(book.to_set())) by {
            assert forall|p: [i16; 8]| kept.to_set().contains(p) implies book.to_set().contains(
                p,
            ) by {
                let i = choose|i: int| 0 <= i < kept.len() && kept[i] == p;
                raw.lemma_filter_pred(pred, i);
                raw.lemma_filter_contains_rev(pred, kept[i]);
                assert(raw.contains(p));
                let j = choose|j: int| 0 <= j < raw.len() && raw[j] == p;
                assert(is_e8(raw[j]) && norm2(raw[j]) <= budget);
                assert(sorted.contains(p));
                let k = choose|k: int| 0 <= k < sorted.len() && sorted[k] == p;
                assert(coset(sorted[k]) == c);
                assert(book.contains(sorted[k]));
            }
        }
        vstd::set_lib::lemma_len_subset(kept.to_set(), book.to_set());
        book.lemma_cardinality_of_set();
    }
}

/// Filtering keeps entries distinct.
proof fn lemma_filter_distinct(s: Seq<[i16; 8]>, pred: spec_fn([i16; 8]) -> bool)
    requires
        s.no_duplicates(),
    ensures
        s.filter(pred).no_duplicates(),
    decreases s.len(),
{
    reveal(Seq::filter);
    if s.len() > 0 {
        let rest = s.drop_last();
        lemma_filter_distinct(rest, pred);
        let f = rest.filter(pred);
        if pred(s.last()) {
            assert forall|i: int| 0 <= i < f.len() implies f[i] != s.last() by {
                rest.lemma_filter_contains_rev(pred, f[i]);
                let j = choose|j: int| 0 <= j < rest.len() && rest[j] == f[i];
                assert(s[j] == f[i]);
            }
        }
    }
}

/// For each coset the book of its `most` lowest-norm points.
pub fn coset_books(most: usize) -> (books: Vec<Vec<[i16; 8]>>)
    requires
        most <= 0x100_0000,
    ensures
        books.len() == 8,
        forall|c: int|
            0 <= c < 8 ==> is_lowest((#[trigger] books@[c])@, coset_points(c), most as nat),
{
    let mut budget: i64 = 8;
    loop
        invariant
            most <= 0x100_0000,
            8 <= budget <= ample_budget() + 8,
        decreases ample_budget() + 8 - budget,
    {
        let raw: Vec<[i16; 8]> = enumerate_e8_raw(budget);
        assert(on_lattice(raw@));
        let counts: [usize; 8] = count_cosets(&raw);
        let mut enough: bool = true;
        let mut c: usize = 0;
        while c < 8
            invariant
                c <= 8,
                enough <==> forall|q: int| 0 <= q < c ==> (#[trigger] counts@[q]) >= most,
            decreases 8 - c,
        {
            if counts[c] < most {
                enough = false;
            }
            c += 1;
        }
        if enough {
            let sorted: Vec<[i16; 8]> = merge_sort(&raw);
            proof {
                lemma_ball_sorted(raw@, sorted@, budget as int);
            }
            let books: Vec<Vec<[i16; 8]>> = deal(&sorted, most);
            proof {
                assert forall|q: int| 0 <= q < 8 implies is_lowest(
                    (#[trigger] books@[q])@,
                    coset_points(q),
                    most as nat,
                ) by {
                    assert(counts@[q] >= most);
                    lemma_book_fills(books@[q]@, raw@, sorted@, q, most as nat, budget as int);
                    lemma_full_book(books@[q]@, sorted@, q, most as nat, budget as int);
                }
            }
            return books;
        }
        proof {
            if budget >= ample_budget() {
                assert forall|q: int| 0 <= q < 8 implies (#[trigger] counts@[q]) >= most by {
                    lemma_ample_cosets(raw@, q, budget as int);
                }
            }
        }
        budget += 8;
    }
}

// ---- Records ----

/// Coordinates of the vectors that are encoded lie between `-CORE` and `CORE`: the squared
/// distances of all their blocks then add up in 128 bits.
pub const CORE: i64 = 0x1000_0000_0000;

/// Every coordinate can be encoded.
pub open spec fn in_core(y: [i64; 8]) -> bool {
    forall|j: int| 0 <= j < 8 ==> -CORE <= (#[trigger] y@[j]) <= CORE
}

proof fn lemma_core_reach(y: [i64; 8])
    requires
        in_core(y),
    ensures
        in_reach(y),
{
    assert forall|j: int| 0 <= j < 8 implies -REACH <= (#[trigger] y@[j]) <= REACH by {
        assert(-CORE <= y@[j] <= CORE);
    }
}

proof fn lemma_core_bounds(y: [i64; 8], p: [i16; 8], k: int)
    requires
        in_core(y),
        0 <= k <= 8,
    ensures
        0 <= dist_upto(y@, p@, k) <= k * 0x400_0000_0000_0000_0000_0000,
    decreases k,
{
    if k > 0 {
        lemma_core_bounds(y, p, k - 1);
        assert(-CORE <= y@[k - 1] <= CORE);
        let d = offset(y@, p@, k - 1);
        assert(0 <= d * d <= 0x400_0000_0000_0000_0000_0000) by (nonlinear_arith)
            requires
                -0x2000_0000_0000 <= d <= 0x2000_0000_0000,
        ;
    }
}

/// `v` in `k` bytes, least significant first.
pub open spec fn le_bytes(v: nat, k: nat) -> Seq<u8>
    decreases k,
{
    if k == 0 {
        Seq::empty()
    } else {
        seq![(v % 256) as u8] + le_bytes(v / 256, (k - 1) as nat)
    }
}

/// The number that `s` writes, least significant byte first.
pub open spec fn from_le(s: Seq<u8>) -> nat
    decreases s.len(),
{
    if s.len() == 0 {
        0
    } else {
        s[0] as nat + 256 * from_le(s.skip(1))
    }
}

/// Bytes read back as the number they were written from.
proof fn lemma_le_round_trip(v: nat, k: nat)
    requires
        v < pow2(8 * k),
    ensures
        le_bytes(v, k).len() == k,
        from_le(le_bytes(v, k)) == v,
    decreases k,
{
    lemma2_to64();
    if k > 0 {
        vstd::arithmetic::power2::lemma_pow2_adds(8, (8 * (k - 1)) as nat);
        assert(8 + 8 * (k - 1) == 8 * k);
        assert(v / 256 < pow2((8 * (k - 1)) as nat)) by (nonlinear_arith)
            requires
                v < 256 * pow2((8 * (k - 1)) as nat),
        ;
        lemma_le_round_trip(v / 256, (k - 1) as nat);
        let s = le_bytes(v, k);
        assert(s.skip(1) =~= le_bytes(v / 256, (k - 1) as nat));
    }
}

/// The costs of the eight cosets for each block: the squared distance to the nearest point of
/// the coset's book.
pub open spec fn is_cost_table(
    books: Seq<Vec<[i16; 8]>>,
    blocks: Seq<[i64; 8]>,
    table: Seq<Seq<int>>,
) -> bool {
    &&& table.len() == blocks.len()
    &&& forall|b: int| 0 <= b < table.len() ==> (#[trigger] table[b]).len() == 8
    &&& forall|b: int, c: int|
        0 <= b < table.len() && 0 <= c < 8 ==> is_least(
            books[c]@,
            blocks[b],
            #[trigger] table[b][c],
        )
}

/// `d` is the squared distance of `y` from its nearest point in `book`.
pub open spec fn is_least(book: Seq<[i16; 8]>, y: [i64; 8], d: int) -> bool {
    exists|i: int| #[trigger] is_nearest(book, y, i) && d == dist2(y, book[i])
}

/// The symbol of a step: the branch, then the index in `m` bits.
pub open spec fn symbols(branches: Seq<nat>, idx: Seq<nat>, m: nat) -> Seq<nat> {
    Seq::new(branches.len(), |b: int| branches[b] * pow2(m) + idx[b])
}

/// A record: the start state, then the symbols, packed.
pub open spec fn record(
    start: nat,
    branches: Seq<nat>,
    idx: Seq<nat>,
    mem: nat,
    m: nat,
) -> Seq<u8> {
    le_bytes(start, (mem + 7) as nat / 8) + packed(symbols(branches, idx, m), m + 2)
}

/// `idx` names, for each block, the nearest point of the coset that the path reaches.
pub open spec fn follows_path(
    books: Seq<Vec<[i16; 8]>>,
    blocks: Seq<[i64; 8]>,
    n: nat,
    start: nat,
    branches: Seq<nat>,
    idx: Seq<nat>,
) -> bool {
    &&& idx.len() == blocks.len()
    &&& forall|b: int|
        0 <= b < blocks.len() ==> is_nearest(
            books[coset_named(walk(n, start, branches, b as nat), branches[b]) as int]@,
            blocks[b],
            #[trigger] idx[b] as int,
        )
}

/// `rec` records the cheapest path under the costs of `table`.
pub open spec fn is_encoding(
    books: Seq<Vec<[i16; 8]>>,
    blocks: Seq<[i64; 8]>,
    mem: nat,
    m: nat,
    table: Seq<Seq<int>>,
    idx: Seq<nat>,
    rec: Seq<u8>,
) -> bool {
    let n = pow2(mem);
    let start = best_start(table, n);
    let branches = best_branches(table, n);
    &&& is_cost_table(books, blocks, table)
    &&& follows_path(books, blocks, n, start, branches, idx)
    &&& rec == record(start, branches, idx, mem, m)
}

/// The `b`-th symbol of a record; zero where the record does not hold it in full.
pub open spec fn symbol_at(rec: Seq<u8>, mem: nat, m: nat, b: int) -> nat {
    let body = rec.skip((mem + 7) as int / 8);
    if has_field(body, m + 2, b) {
        field(body, m + 2, b)
    } else {
        0
    }
}

/// The branches of a record of `len` steps.
pub open spec fn branches_of(rec: Seq<u8>, mem: nat, m: nat, len: nat) -> Seq<nat> {
    Seq::new(len, |b: int| symbol_at(rec, mem, m, b) / pow2(m))
}

/// The start state of a record.
pub open spec fn start_in(rec: Seq<u8>, mem: nat) -> nat {
    from_le(rec.take((mem + 7) as int / 8))
}

/// The coset that step `b` of a record reaches.
pub open spec fn coset_at(rec: Seq<u8>, mem: nat, m: nat, len: nat, b: int) -> nat {
    let branches = branches_of(rec, mem, m, len);
    coset_named(walk(pow2(mem), start_in(rec, mem), branches, b as nat), branches[b])
}

/// Trellis-coded quantizer over the cosets of E8.
pub struct CosetTrellis {
    dim: usize,
    mem: u8,
    m_bits: u8,
    books: Vec<Vec<[i16; 8]>>,
}

impl CosetTrellis {
    /// The dimension of the vectors.
    pub closed spec fn dim(&self) -> nat {
        self.dim as nat
    }

    /// The memory of the trellis, in bits of state.
    pub closed spec fn mem(&self) -> nat {
        self.mem as nat
    }

    /// The width of an index within a coset's book.
    pub closed spec fn m_bits(&self) -> nat {
        self.m_bits as nat
    }

    /// The books of the eight cosets.
    pub closed spec fn books(&self) -> Seq<Vec<[i16; 8]>> {
        self.books@
    }

    /// Each coset keeps its `2^m` lowest-norm points.
    pub open spec fn wf(&self) -> bool {
        &&& self.dim() % 8 == 0
        &&& self.dim() <= u32::MAX
        &&& 1 <= self.mem() <= 20
        &&& 5 <= self.m_bits() <= 21
        &&& self.books().len() == 8
        &&& forall|c: int|
            0 <= c < 8 ==> is_lowest(
                (#[trigger] self.books()[c])@,
                coset_points(c),
                pow2(self.m_bits()),
            )
    }

    /// The quantizer for vectors of dimension `dim`, a multiple of eight, at one to three bits
    /// per coordinate. The memory is twelve bits unless given, and never outside one to twenty.
    pub fn new(dim: usize, bits: u8, mem: Option<u8>) -> (q: Self)
        requires
            dim % 8 == 0,
            dim <= u32::MAX,
            1 <= bits <= 3,
        ensures
            q.wf(),
            q.dim() == dim,
            q.m_bits() == 8 * bits - 3,
            q.mem() == match mem {
                None => 12,
                Some(m) => if m < 1 {
                    1
                } else if m > 20 {
                    20
                } else {
                    m as nat
                },
            },
    {
        let mem: u8 = match mem {
            None => 12,
            Some(m) => if m < 1 {
                1
            } else if m > 20 {
                20
            } else {
                m
            },
        };
        let m_bits: u8 = 8 * bits - (K_BITS + 1);
        let per_coset: usize = if bits == 1 {
            0x20
        } else if bits == 2 {
            0x2000
        } else {
            0x20_0000
        };
        proof {
            lemma2_to64();
        }
        let books: Vec<Vec<[i16; 8]>> = coset_books(per_coset);
        CosetTrellis { dim, mem, m_bits, books }
    }

    /// The points of the book of coset `c`.
    pub fn book(&self, c: usize) -> (b: &Vec<[i16; 8]>)
        requires
            self.wf(),
            c < 8,
        ensures
            b == self.books()[c as int],
    {
        &self.books[c]
    }

    proof fn lemma_books(&self, c: int)
        requires
            self.wf(),
            0 <= c < 8,
        ensures
            is_book(self.books()[c]@),
            on_lattice(self.books()[c]@),
            self.books()[c]@.len() == pow2(self.m_bits()),
            0 < self.books()[c]@.len() <= 0x20_0000,
            forall|j: int| 0 <= j < 8 ==> -5 <= (#[trigger] self.books()[c]@[0]@[j]) <= 5,
    {
        let book = self.books()[c]@;
        lemma2_to64();
        lemma_pow2_pos(self.m_bits());
        if self.m_bits() < 21 {
            lemma_pow2_strictly_increases(self.m_bits(), 21);
        }
        assert(on_lattice(book)) by {
            assert forall|i: int| 0 <= i < book.len() implies is_e8(#[trigger] book[i]) by {
                assert(coset_points(c)(book[i]));
            }
        }
        let p = representative(c);
        lemma_representative(c);
        assert(coset_points(c)(p));
        if book.contains(p) {
            let i = choose|i: int| 0 <= i < book.len() && book[i] == p;
            if i > 0 {
                assert(book[0].leq(book[i]));
            }
        } else {
            assert(book[0].leq(p) && coset_points(c)(p));
        }
        assert(norm2(book[0]) <= 32);
        assert forall|j: int| 0 <= j < 8 implies -5 <= (#[trigger] book[0]@[j]) <= 5 by {
            lemma_norm_grows(book[0]@, 0, j);
            lemma_norm_grows(book[0]@, j + 1, 8);
            let x = book[0]@[j] as int;
            assert(-5 <= x <= 5) by (nonlinear_arith)
                requires
                    x * x <= 32,
            ;
        }
    }

    /// The nearest point to `y` in the book of coset `c`, by a full scan.
    pub fn nearest_in_coset_exhaustive(&self, c: usize, y: &[i64; 8]) -> (r: (usize, i128))
        requires
            self.wf(),
            c < 8,
            in_reach(*y),
        ensures
            is_nearest(self.books()[c as int]@, *y, r.0 as int),
            r.1 == dist2(*y, self.books()[c as int]@[r.0 as int]),
            forall|j: int|
                0 <= j < r.0 ==> r.1 < #[trigger] dist2(*y, self.books()[c as int]@[j]),
    {
        proof {
            self.lemma_books(c as int);
        }
        crate::e8::nearest_exhaustive(&self.books[c], y)
    }

    /// The nearest point to `y` in the book of coset `c`, with its squared distance.
    ///
    /// A point of the book close to `y` bounds the answer; every lattice point that is no
    /// further away is looked up, and the nearest that the book holds wins.
    pub fn nearest_in_coset(&self, c: usize, y: &[i64; 8]) -> (r: (usize, i128))
        requires
            self.wf(),
            c < 8,
            in_reach(*y),
        ensures
            is_nearest(self.books()[c as int]@, *y, r.0 as int),
            r.1 == dist2(*y, self.books()[c as int]@[r.0 as int]),
    {
        proof {
            self.lemma_books(c as int);
        }
        let t: [i16; 8] = self.books[c][0];
        let mut best: usize = 0;
        let mut best_d: i128 = distance(y, &t);
        let mut lo: i64 = 0;
        let mut hi: i64 = 0x1000;
        let mut round: usize = 0;
        while round < 12
            invariant
                self.wf(),
                c < 8,
                in_reach(*y),
                is_book(self.books@[c as int]@),
                on_lattice(self.books@[c as int]@),
                forall|j: int| 0 <= j < 8 ==> -5 <= (#[trigger] t@[j]) <= 5,
                best < self.books@[c as int]@.len(),
                best_d == dist2(*y, self.books@[c as int]@[best as int]),
                best_d >= 0,
                0 <= lo <= hi <= 0x1000,
            decreases 12 - round,
        {
            let mid: i64 = (lo + hi) / 2;
            let z: [i64; 8] = shrunk(y, 4 * mid);
            let moved: [i64; 8] = less_shift(&z, &t);
            let pt: [i64; 8] = e8_nearest(&moved);
            let hit: Option<usize> = match plus_shift(&pt, &t) {
                Some(r) => index_in_book(&self.books[c], &r),
                None => None,
            };
            match hit {
                Some(i) => {
                    let d: i128 = distance(y, &self.books[c][i]);
                    if d < best_d {
                        best_d = d;
                        best = i;
                    }
                    lo = mid;
                },
                None => {
                    hi = mid;
                },
            }
            round += 1;
        }
        nearest_from_seed(&self.books[c], y, best, best_d)
    }

    /// For each block and each coset the index of the nearest point and its squared distance.
    fn block_costs(&self, blocks: &Vec<[i64; 8]>) -> (r: (Vec<[u32; 8]>, Vec<[i128; 8]>))
        requires
            self.wf(),
            forall|b: int| 0 <= b < blocks.len() ==> in_core(#[trigger] blocks@[b]),
        ensures
            r.0.len() == blocks.len(),
            r.1.len() == blocks.len(),
            costs_bounded(r.1@),
            is_cost_table(self.books(), blocks@, cost_table(r.1@)),
            forall|b: int, c: int|
                0 <= b < blocks.len() && 0 <= c < 8 ==> is_nearest(
                    self.books()[c]@,
                    blocks@[b],
                    #[trigger] r.0@[b]@[c] as int,
                ),
    {
        let mut near: Vec<[u32; 8]> = Vec::with_capacity(blocks.len());
        let mut costs: Vec<[i128; 8]> = Vec::with_capacity(blocks.len());
        let mut b: usize = 0;
        while b < blocks.len()
            invariant
                b <= blocks.len(),
                self.wf(),
                forall|k: int| 0 <= k < blocks.len() ==> in_core(#[trigger] blocks@[k]),
                near.len() == b,
                costs.len() == b,
                forall|k: int, c: int|
                    0 <= k < b && 0 <= c < 8 ==> is_nearest(
                        self.books@[c]@,
                        blocks@[k],
                        #[trigger] near@[k]@[c] as int,
                    ),
                forall|k: int, c: int|
                    0 <= k < b && 0 <= c < 8 ==> (#[trigger] costs@[k]@[c]) == dist2(
                        blocks@[k],
                        self.books@[c]@[near@[k]@[c] as int],
                    ) && 0 <= costs@[k]@[c] <= DEAREST,
            decreases blocks.len() - b,
        {
            let y: [i64; 8] = blocks[b];
            assert(in_core(blocks@[b as int]));
            let mut at: [u32; 8] = [0u32; 8];
            let mut cost: [i128; 8] = [0i128; 8];
            let mut c: usize = 0;
            while c < 8
                invariant
                    c <= 8,
                    self.wf(),
                    in_core(y),
                    forall|q: int|
                        0 <= q < c ==> is_nearest(
                            self.books@[q]@,
                            y,
                            #[trigger] at@[q] as int,
                        ),
                    forall|q: int|
                        0 <= q < c ==> (#[trigger] cost@[q]) == dist2(
                            y,
                            self.books@[q]@[at@[q] as int],
                        ) && 0 <= cost@[q] <= DEAREST,
                decreases 8 - c,
            {
                proof {
                    self.lemma_books(c as int);
                }
                proof {
                    lemma_core_reach(y);
                }
                let (i, d): (usize, i128) = self.nearest_in_coset(c, &y);
                proof {
                    lemma_core_bounds(y, self.books@[c as int]@[i as int], 8);
                }
                at[c] = i as u32;
                cost[c] = d;
                c += 1;
            }
            near.push(at);
            costs.push(cost);
            b += 1;
        }
        proof {
            let table = cost_table(costs@);
            assert forall|k: int, c: int| 0 <= k < table.len() && 0 <= c < 8 implies is_least(
                self.books()[c]@,
                blocks@[k],
                #[trigger] table[k][c],
            ) by {
                assert(table[k][c] == costs@[k]@[c]);
                assert(is_nearest(self.books()[c]@, blocks@[k], near@[k]@[c] as int));
            }
        }
        (near, costs)
    }

    /// Encodes a vector, given as blocks of eight coordinates: the path through the trellis
    /// that brings the vector closest to its reconstruction, wherever it starts.
    #[verifier::rlimit(60)]
    pub fn encode(&self, blocks: &Vec<[i64; 8]>) -> (rec: Vec<u8>)
        requires
            self.wf(),
            8 * blocks.len() == self.dim(),
            forall|b: int| 0 <= b < blocks.len() ==> in_core(#[trigger] blocks@[b]),
        ensures
            exists|table: Seq<Seq<int>>, idx: Seq<nat>| #[trigger]
                is_encoding(
                    self.books(),
                    blocks@,
                    self.mem(),
                    self.m_bits(),
                    table,
                    idx,
                    rec@,
                ),
    {
        let (near, costs): (Vec<[u32; 8]>, Vec<[i128; 8]>) = self.block_costs(blocks);
        let n: usize = two_to_the(self.mem);
        let scale: u32 = two_to_the(self.m_bits) as u32;
        let (start, branches): (usize, Vec<u8>) = cheapest_path(&costs, n);
        let ghost table = cost_table(costs@);
        let ghost nn = pow2(self.mem as nat);
        let ghost path = best_branches(table, nn);
        let ghost m = self.m_bits as nat;
        proof {
            lemma_chosen_is_path(table, nn);
        }
        let len: usize = blocks.len();
        let mut syms: Vec<u32> = Vec::with_capacity(len);
        let ghost mut idx: Seq<nat> = Seq::empty();
        let mut st: usize = start;
        let mut b: usize = 0;
        while b < len
            invariant
                b <= len == blocks.len(),
                self.wf(),
                near.len() == len,
                branches.len() == len,
                n == nn,
                nn == pow2(self.mem as nat),
                m == self.m_bits as nat,
                scale == pow2(m),
                0 < n <= 0x10_0000,
                path.len() == len,
                forall|k: int|
                    0 <= k < len ==> #[trigger] branches@[k] == path[k] && branches@[k] < 4,
                forall|k: int, c: int|
                    0 <= k < len && 0 <= c < 8 ==> is_nearest(
                        self.books@[c]@,
                        blocks@[k],
                        #[trigger] near@[k]@[c] as int,
                    ),
                st == walk(nn, start as nat, path, b as nat),
                st < n,
                syms.len() == b,
                idx.len() == b,
                forall|k: int|
                    0 <= k < b ==> is_nearest(
                        self.books@[coset_named(
                            walk(nn, start as nat, path, k as nat),
                            path[k],
                        ) as int]@,
                        blocks@[k],
                        #[trigger] idx[k] as int,
                    ) && idx[k] < scale,
                forall|k: int| 0 <= k < b ==> #[trigger] syms@[k] == path[k] * scale + idx[k],
            decreases len - b,
        {
            let br: usize = branches[b] as usize;
            assert(branches@[b as int] == path[b as int]);
            let c: usize = coset_for(st, br);
            let i: u32 = near[b][c];
            proof {
                self.lemma_books(c as int);
                assert(is_nearest(self.books@[c as int]@, blocks@[b as int], near@[b as int]@[
                    c as int
                ] as int));
                assert(br * scale + i < 4 * 0x20_0000) by (nonlinear_arith)
                    requires
                        br < 4,
                        i < scale,
                        scale <= 0x20_0000,
                ;
                assert(br * scale >= 0) by (nonlinear_arith);
                assert((st * 4 + br) % n as int >= 0);
            }
            syms.push(br as u32 * scale + i);
            proof {
                idx = idx.push(i as nat);
            }
            st = (st * 4 + br) % n;
            b += 1;
        }
        let ghost vals = values32(syms@);
        let width: u8 = K_BITS + self.m_bits;
        proof {
            assert(vals =~= symbols(path, idx, m));
            lemma_symbols_fit(path, idx, m);
        }
        let mut codes: Vec<u8> = pack_indices_wide(syms.as_slice(), width);
        let sb: usize = (self.mem as usize + 7) / 8;
        let mut rec: Vec<u8> = Vec::with_capacity(sb);
        let mut left: usize = start;
        let mut k: usize = 0;
        while k < sb
            invariant
                k <= sb,
                rec@ + le_bytes(left as nat, (sb - k) as nat) == le_bytes(start as nat, sb as nat),
            decreases sb - k,
        {
            let ghost before = rec@;
            let ghost was = left as nat;
            rec.push((left % 256) as u8);
            left = left / 256;
            k += 1;
            assert(rec@ + le_bytes(left as nat, (sb - k) as nat) =~= before + le_bytes(
                was,
                (sb - k + 1) as nat,
            ));
        }
        assert(rec@ =~= le_bytes(start as nat, sb as nat));
        rec.append(&mut codes);
        proof {
            assert(is_cost_table(self.books(), blocks@, table));
            assert(follows_path(self.books(), blocks@, nn, best_start(table, nn), path, idx));
            assert(is_encoding(
                self.books(),
                blocks@,
                self.mem(),
                self.m_bits(),
                table,
                idx,
                rec@,
            ));
        }
        rec
    }

    /// The points that a record names: the start state is read, and each branch symbol leads
    /// to a coset in whose book the index is looked up.
    pub fn decode(&self, rec: &[u8]) -> (points: Vec<[i16; 8]>)
        requires
            self.wf(),
            rec.len() >= (self.mem() + 7) as nat / 8,
        ensures
            points.len() == self.dim() / 8,
            forall|b: int|
                0 <= b < points.len() ==> #[trigger] points@[b] == self.books()[coset_at(
                    rec@,
                    self.mem(),
                    self.m_bits(),
                    points@.len(),
                    b,
                ) as int]@[(symbol_at(rec@, self.mem(), self.m_bits(), b) % pow2(
                    self.m_bits(),
                )) as int],
    {
        let len: usize = self.dim / 8;
        let sb: usize = (self.mem as usize + 7) / 8;
        let n: usize = two_to_the(self.mem);
        let scale: u32 = two_to_the(self.m_bits) as u32;
        let ghost nn = pow2(self.mem as nat);
        let ghost m = self.m_bits as nat;
        let ghost mem = self.mem as nat;
        let mut st: usize = 0;
        let mut k: usize = sb;
        while k > 0
            invariant
                k <= sb <= 3,
                sb <= rec.len(),
                st == from_le(rec@.subrange(k as int, sb as int)),
                k == 3 ==> st == 0,
                k == 2 ==> st < 0x100,
                k == 1 ==> st < 0x1_0000,
                k == 0 ==> st < 0x100_0000,
                sb - k == 0 ==> st == 0,
            decreases k,
        {
            k -= 1;
            proof {
                let s = rec@.subrange(k as int, sb as int);
                assert(s.skip(1) =~= rec@.subrange(k + 1, sb as int));
                assert(s[0] == rec@[k as int]);
            }
            st = rec[k] as usize + 256 * st;
        }
        assert(rec@.subrange(0, sb as int) =~= rec@.take(sb as int));
        let ghost start = st as nat;
        let body: Vec<u8> = tail_of(rec, sb);
        let mut scratch: Vec<u32> = vec![0u32; len];
        unpack_indices_wide(body.as_slice(), K_BITS + self.m_bits, scratch.as_mut_slice());
        let ghost branches = branches_of(rec@, mem, m, len as nat);
        let mut points: Vec<[i16; 8]> = Vec::with_capacity(len);
        let mut b: usize = 0;
        while b < len
            invariant
                b <= len == scratch.len(),
                self.wf(),
                n == nn,
                nn == pow2(self.mem as nat),
                mem == self.mem as nat,
                m == self.m_bits as nat,
                scale == pow2(m),
                0 < n <= 0x10_0000,
                scale > 0,
                start == start_in(rec@, mem),
                branches == branches_of(rec@, mem, m, len as nat),
                forall|k: int|
                    0 <= k < len ==> #[trigger] scratch@[k] == symbol_at(rec@, mem, m, k),
                st == walk(nn, start, branches, b as nat),
                st < 0x100_0000,
                points.len() == b,
                forall|k: int|
                    0 <= k < b ==> #[trigger] points@[k] == self.books@[coset_at(
                        rec@,
                        mem,
                        m,
                        len as nat,
                        k,
                    ) as int]@[(symbol_at(rec@, mem, m, k) % pow2(m)) as int],
            decreases len - b,
        {
            let sym: u32 = scratch[b];
            proof {
                lemma_symbol_branch(rec@, mem, m, b as int);
                assert(branches[b as int] == symbol_at(rec@, mem, m, b as int) / pow2(m));
            }
            let br: usize = (sym / scale) as usize;
            let c: usize = coset_for(st, br);
            proof {
                self.lemma_books(c as int);
                vstd::arithmetic::div_mod::lemma_mod_bound(sym as int, scale as int);
            }
            let i: usize = (sym % scale) as usize;
            points.push(self.books[c][i]);
            st = (st * 4 + br) % n;
            b += 1;
        }
        points
    }

    /// A record decodes to the path that the encoder chose: each block reads back as the
    /// nearest point of the coset that the path reaches there.
    pub proof fn record_decodes_to_the_chosen_path(
        &self,
        blocks: Seq<[i64; 8]>,
        start: nat,
        branches: Seq<nat>,
        idx: Seq<nat>,
        b: int,
    )
        requires
            self.wf(),
            is_path(pow2(self.mem()), start, branches, blocks.len()),
            follows_path(self.books(), blocks, pow2(self.mem()), start, branches, idx),
            0 <= b < blocks.len(),
        ensures
            ({
                let rec = record(start, branches, idx, self.mem(), self.m_bits());
                let m = self.m_bits();
                &&& start_in(rec, self.mem()) == start
                &&& branches_of(rec, self.mem(), m, blocks.len()) == branches
                &&& symbol_at(rec, self.mem(), m, b) % pow2(m) == idx[b]
                &&& is_nearest(
                    self.books()[coset_at(rec, self.mem(), m, blocks.len(), b) as int]@,
                    blocks[b],
                    (symbol_at(rec, self.mem(), m, b) % pow2(m)) as int,
                )
            }),
    {
        let mem = self.mem();
        let m = self.m_bits();
        let sb = (mem + 7) as nat / 8;
        let rec = record(start, branches, idx, mem, m);
        let syms = symbols(branches, idx, m);
        assert forall|k: int| 0 <= k < idx.len() implies (#[trigger] idx[k]) < pow2(m) by {
            let c = coset_named(
                walk(pow2(mem), start, branches, k as nat),
                branches[k],
            );
            assert(branches[k] < 4);
            assert(is_nearest(self.books()[c as int]@, blocks[k], idx[k] as int));
            self.lemma_books(c as int);
        }
        lemma_symbols_fit(branches, idx, m);
        if mem < 8 * sb {
            lemma_pow2_strictly_increases(mem, 8 * sb);
        }
        lemma_le_round_trip(start, sb);
        let head = le_bytes(start, sb);
        let body = packed(syms, m + 2);
        assert(rec.take(sb as int) =~= head);
        assert(rec.skip(sb as int) =~= body);
        lemma_pow2_pos(m);
        assert forall|k: int| 0 <= k < blocks.len() implies symbol_at(rec, mem, m, k) == syms[k]
            && syms[k] / pow2(m) == #[trigger] branches[k] && syms[k] % pow2(m) == idx[k] by {
            packed_fields_round_trip(syms, m + 2, k);
            vstd::arithmetic::div_mod::lemma_fundamental_div_mod_converse(
                syms[k] as int,
                pow2(m) as int,
                branches[k] as int,
                idx[k] as int,
            );
        }
        let read = branches_of(rec, mem, m, blocks.len());
        assert forall|k: int| 0 <= k < blocks.len() implies read[k] == #[trigger] branches[k] by {
        }
        assert(read =~= branches);
        assert(branches[b] < 4);
        assert(is_nearest(
            self.books()[coset_named(
                walk(pow2(mem), start, branches, b as nat),
                branches[b],
            ) as int]@,
            blocks[b],
            idx[b] as int,
        ));
    }
}

proof fn lemma_symbols_fit(branches: Seq<nat>, idx: Seq<nat>, m: nat)
    requires
        branches.len() == idx.len(),
        forall|k: int| 0 <= k < branches.len() ==> (#[trigger] branches[k]) < 4,
        forall|k: int| 0 <= k < idx.len() ==> (#[trigger] idx[k]) < pow2(m),
    ensures
        all_fit(symbols(branches, idx, m), m + 2),
{
    lemma2_to64();
    vstd::arithmetic::power2::lemma_pow2_adds(2, m);
    let syms = symbols(branches, idx, m);
    assert forall|k: int| 0 <= k < syms.len() implies (#[trigger] syms[k]) < pow2(m + 2) by {
        assert(branches[k] < 4 && idx[k] < pow2(m));
        let x = branches[k];
        let p = pow2(m);
        assert(x * p + idx[k] < 4 * p) by (nonlinear_arith)
            requires
                x < 4,
                idx[k] < p,
        ;
    }
}

/// A symbol names one of four branches.
proof fn lemma_symbol_branch(rec: Seq<u8>, mem: nat, m: nat, b: int)
    ensures
        symbol_at(rec, mem, m, b) / pow2(m) < 4,
        symbol_at(rec, mem, m, b) < 4 * pow2(m),
{
    lemma2_to64();
    vstd::arithmetic::power2::lemma_pow2_adds(2, m);
    lemma_pow2_pos(m);
    let body = rec.skip((mem + 7) as int / 8);
    lemma_field_fits(body, m + 2, b);
    let s = symbol_at(rec, mem, m, b);
    let p = pow2(m);
    assert(s < 4 * p);
    assert(s / p < 4) by (nonlinear_arith)
        requires
            s < 4 * p,
            p > 0,
    ;
}

/// `2^k`.
fn two_to_the(k: u8) -> (r: usize)
    requires
        k <= 21,
    ensures
        r == pow2(k as nat),
        0 < r <= 0x20_0000,
        k <= 20 ==> r <= 0x10_0000,
{
    let mut r: usize = 1;
    let mut i: u8 = 0;
    proof {
        lemma2_to64();
        if k < 20 {
            lemma_pow2_strictly_increases(k as nat, 20);
        }
    }
    while i < k
        invariant
            i <= k <= 21,
            r == pow2(i as nat),
            pow2(21) == 0x20_0000,
            pow2(1) == 2,
        decreases k - i,
    {
        proof {
            vstd::arithmetic::power2::lemma_pow2_adds(i as nat, 1);
            if i + 1 < 21 {
                lemma_pow2_strictly_increases((i + 1) as nat, 21);
            }
        }
        r = r * 2;
        i += 1;
    }
    proof {
        lemma_pow2_pos(k as nat);
        if k < 21 {
            lemma_pow2_strictly_increases(k as nat, 21);
        }
    }
    r
}

/// The bytes from `from` on.
fn tail_of(data: &[u8], from: usize) -> (v: Vec<u8>)
    requires
        from <= data.len(),
    ensures
        v@ == data@.skip(from as int),
{
    let mut v: Vec<u8> = Vec::new();
    let mut i: usize = from;
    while i < data.len()
        invariant
            from <= i <= data.len(),
            v@ == data@.subrange(from as int, i as int),
        decreases data.len() - i,
    {
        v.push(data[i]);
        i += 1;
        assert(v@ =~= data@.subrange(from as int, i as int));
    }
    assert(v@ =~= data@.skip(from as int));
    v
}

/// `z` less the point `t`.
fn less_shift(z: &[i64; 8], t: &[i16; 8]) -> (r: [i64; 8])
    requires
        in_reach(*z),
    ensures
        forall|j: int| 0 <= j < 8 ==> #[trigger] r@[j] == z@[j] - t@[j] * HALF,
{
    let mut r: [i64; 8] = [0i64; 8];
    let mut j: usize = 0;
    while j < 8
        invariant
            j <= 8,
            in_reach(*z),
            forall|k: int| 0 <= k < j ==> #[trigger] r@[k] == z@[k] - t@[k] * HALF,
        decreases 8 - j,
    {
        assert(-REACH <= z@[j as int] <= REACH);
        r[j] = z[j] - t[j] as i64 * HALF;
        j += 1;
    }
    r
}

/// The sum of two points, if its coordinates are narrow.
fn plus_shift(p: &[i64; 8], t: &[i16; 8]) -> (r: Option<[i16; 8]>)
    ensures
        match r {
            Some(s) => forall|j: int| 0 <= j < 8 ==> #[trigger] s@[j] == p@[j] + t@[j],
            None => exists|j: int|
                0 <= j < 8 && !(i16::MIN <= (#[trigger] p@[j]) + t@[j] <= i16::MAX),
        },
{
    let mut s: [i16; 8] = [0i16; 8];
    let mut j: usize = 0;
    while j < 8
        invariant
            j <= 8,
            forall|k: int| 0 <= k < j ==> #[trigger] s@[k] == p@[k] + t@[k],
        decreases 8 - j,
    {
        let x: i128 = p[j] as i128 + t[j] as i128;
        if x < -0x8000 || x > 0x7fff {
            assert(!(i16::MIN <= p@[j as int] + t@[j as int] <= i16::MAX));
            return None;
        }
        s[j] = x as i16;
        j += 1;
    }
    Some(s)
}

// ---- What the codec promises ----

/// The label of a coset: its bits tell whether the first, second and third pair of coordinates
/// differ by an odd number of lattice units.
pub proof fn a_label_tells_differences(p: [i16; 8])
    requires
        is_e8(p),
    ensures
        0 <= coset(p) < 8,
        coset(p) / 4 == 0 <==> (p@[0] - p@[1]) % 4 == 0,
        (coset(p) / 2) % 2 == 0 <==> (p@[2] - p@[3]) % 4 == 0,
        coset(p) % 2 == 0 <==> (p@[4] - p@[5]) % 4 == 0,
{
    assert(p@[0] as int % 2 == p@[1] as int % 2);
    assert(p@[2] as int % 2 == p@[3] as int % 2);
    assert(p@[4] as int % 2 == p@[5] as int % 2);
}

/// The start state is written lowest byte first.
pub proof fn the_start_is_little_endian(v: nat, k: nat, i: int)
    requires
        0 <= i < k,
    ensures
        le_bytes(v, k).len() == k,
        i == 0 ==> le_bytes(v, k)[i] == v % 256,
        i > 0 ==> le_bytes(v, k)[i] == le_bytes(v / 256, (k - 1) as nat)[i - 1],
    decreases k,
{
    lemma_le_len(v, k);
    lemma_le_len(v / 256, (k - 1) as nat);
}

proof fn lemma_le_len(v: nat, k: nat)
    ensures
        le_bytes(v, k).len() == k,
    decreases k,
{
    if k > 0 {
        lemma_le_len(v / 256, (k - 1) as nat);
    }
}

/// What a path and a choice of codewords leave of the blocks: the squared distances of all blocks
/// from their codewords, summed.
pub open spec fn distortion(
    books: Seq<Vec<[i16; 8]>>,
    blocks: Seq<[i64; 8]>,
    n: nat,
    start: nat,
    branches: Seq<nat>,
    idx: Seq<nat>,
) -> int {
    total(
        Seq::new(
            blocks.len(),
            |b: int|
                dist2(
                    blocks[b],
                    books[coset_named(
                        walk(n, start, branches, b as nat),
                        branches[b],
                    ) as int]@[idx[b] as int],
                ),
        ),
    )
}

/// No record is closer to a vector than its encoding: whatever start state, path and codewords
/// are taken, they leave at least as much of the vector.
pub proof fn no_record_is_closer(
    books: Seq<Vec<[i16; 8]>>,
    blocks: Seq<[i64; 8]>,
    mem: nat,
    m: nat,
    table: Seq<Seq<int>>,
    idx: Seq<nat>,
    rec: Seq<u8>,
    start: nat,
    branches: Seq<nat>,
    other: Seq<nat>,
)
    requires
        books.len() == 8,
        is_encoding(books, blocks, mem, m, table, idx, rec),
        is_path(pow2(mem), start, branches, blocks.len()),
        other.len() == blocks.len(),
        forall|b: int|
            0 <= b < blocks.len() ==> (#[trigger] other[b]) < books[coset_named(
                walk(pow2(mem), start, branches, b as nat),
                branches[b],
            ) as int]@.len(),
    ensures
        distortion(
            books,
            blocks,
            pow2(mem),
            best_start(table, pow2(mem)),
            best_branches(table, pow2(mem)),
            idx,
        ) <= distortion(books, blocks, pow2(mem), start, branches, other),
        rec == record(
            best_start(table, pow2(mem)),
            best_branches(table, pow2(mem)),
            idx,
            mem,
            m,
        ),
{
    let n = pow2(mem);
    lemma_pow2_pos(mem);
    let s0 = best_start(table, n);
    let p0 = best_branches(table, n);
    let len = blocks.len();
    crate::viterbi::chosen_path_is_optimal(table, n, start, branches);
    crate::viterbi::a_path_costs_what_its_steps_cost(table, n, s0, p0, len);
    crate::viterbi::a_path_costs_what_its_steps_cost(table, n, start, branches, len);
    let f = |b: int| table[b][coset_named(walk(n, s0, p0, b as nat), p0[b]) as int];
    let g = |b: int| table[b][coset_named(walk(n, start, branches, b as nat), branches[b]) as int];
    let x = |b: int|
        dist2(
            blocks[b],
            books[coset_named(walk(n, s0, p0, b as nat), p0[b]) as int]@[idx[b] as int],
        );
    let y = |b: int|
        dist2(
            blocks[b],
            books[coset_named(
                walk(n, start, branches, b as nat),
                branches[b],
            ) as int]@[other[b] as int],
        );
    let xs = Seq::new(len, x);
    let fs = Seq::new(len, f);
    let gs = Seq::new(len, g);
    let ys = Seq::new(len, y);
    assert forall|b: int| 0 <= b < len implies #[trigger] xs[b] == fs[b] by {
        assert(p0[b] < 4);
        let c = coset_named(walk(n, s0, p0, b as nat), p0[b]) as int;
        assert(0 <= c < 8);
        assert(is_least(books[c]@, blocks[b], table[b][c]));
        assert(is_nearest(books[c]@, blocks[b], idx[b] as int));
        let i = choose|i: int| #[trigger]
            is_nearest(books[c]@, blocks[b], i) && table[b][c] == dist2(blocks[b], books[c]@[i]);
        assert(dist2(blocks[b], books[c]@[i]) <= dist2(blocks[b], books[c]@[idx[b] as int]));
        assert(dist2(blocks[b], books[c]@[idx[b] as int]) <= dist2(blocks[b], books[c]@[i]));
    }
    assert(xs =~= fs);
    assert forall|b: int| 0 <= b < len implies (#[trigger] gs[b]) <= ys[b] by {
        assert(branches[b] < 4);
        let c = coset_named(walk(n, start, branches, b as nat), branches[b]) as int;
        assert(0 <= c < 8);
        assert(is_least(books[c]@, blocks[b], table[b][c]));
        let i = choose|i: int| #[trigger]
            is_nearest(books[c]@, blocks[b], i) && table[b][c] == dist2(blocks[b], books[c]@[i]);
        assert(other[b] < books[c]@.len());
        assert(dist2(blocks[b], books[c]@[i]) <= dist2(blocks[b], books[c]@[other[b] as int]));
    }
    total_is_monotone(gs, ys);
}

} // verus!
