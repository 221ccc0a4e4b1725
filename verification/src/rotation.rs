//! The shape of the data-oblivious rotation: its power-of-two blocks, its seeded signs, and how
//! it is selected.

use vstd::arithmetic::power2::pow2;
use vstd::prelude::*;

use crate::datasets::{is_power_of_two, powers_of_two_are_powers};
use crate::prng::{a_stream_goes_on, output, splitmix64, state_after};
use crate::text::{
    chars_of, decimal, decimal_reads_back, natural_upto, parse_natural, same_text,
};

verus! {

/// `p` is the largest power of two that is at most `n`.
pub open spec fn is_largest_power(n: nat, p: nat) -> bool {
    is_power_of_two(p) && p <= n < 2 * p
}

/// The blocks cover `0..dim` one after the other, each the largest power of two that fits.
pub open spec fn is_tiling(blocks: Seq<(usize, usize)>, dim: nat) -> bool {
    &&& forall|i: int| 0 <= i < blocks.len() ==> #[trigger] is_tile(blocks, dim, i)
    &&& end_of(blocks, blocks.len() as int) == dim
}

/// Block `i` starts where the one before it ends and is as large as it can be.
pub open spec fn is_tile(blocks: Seq<(usize, usize)>, dim: nat, i: int) -> bool {
    &&& blocks[i].0 == end_of(blocks, i)
    &&& is_largest_power((dim - blocks[i].0) as nat, blocks[i].1 as nat)
}

/// Where the first `i` blocks end.
pub open spec fn end_of(blocks: Seq<(usize, usize)>, i: int) -> int {
    if i <= 0 {
        0
    } else {
        blocks[i - 1].0 + blocks[i - 1].1
    }
}

/// The sign of coordinate `i` in round `r`: plus where the draw is odd.
pub open spec fn sign_at(seed: u64, dim: nat, r: int, i: int) -> bool {
    output(seed, (r * dim + i) as nat) % 2 == 1
}

/// A blockwise rotation: rounds of seeded sign flips, each followed by a Walsh-Hadamard
/// transform of every block.
pub struct Rotation {
    blocks: Vec<(usize, usize)>,
    rounds: Vec<Vec<bool>>,
}

/// The largest power of two that is at most `n`.
fn largest_power(n: usize) -> (p: usize)
    requires
        n > 0,
    ensures
        is_largest_power(n as nat, p as nat),
{
    let mut p: usize = 1;
    while p <= n / 2
        invariant
            1 <= p <= n,
            is_power_of_two(p as nat),
        decreases n - p,
    {
        p = p * 2;
    }
    p
}

impl Rotation {
    pub closed spec fn blocks(&self) -> Seq<(usize, usize)> {
        self.blocks@
    }

    pub closed spec fn rounds(&self) -> Seq<Vec<bool>> {
        self.rounds@
    }

    /// The rotation of dimension `dim` with `n_rounds` rounds, at least one.
    pub fn with_rounds(dim: usize, seed: u64, n_rounds: usize) -> (r: Self)
        ensures
            is_tiling(r.blocks(), dim as nat),
            r.rounds().len() == if n_rounds == 0 {
                1
            } else {
                n_rounds as nat
            },
            forall|k: int| 0 <= k < r.rounds().len() ==> (#[trigger] r.rounds()[k]).len() == dim,
            forall|k: int, i: int|
                0 <= k < r.rounds().len() && 0 <= i < dim ==> #[trigger] r.rounds()[k]@[i]
                    == sign_at(seed, dim as nat, k, i),
            forall|k: int, i: int|
                0 <= k < r.rounds().len() && 0 <= i < dim ==> (#[trigger] r.rounds()[k]@[i]
                    <==> output(seed, (k * dim + i) as nat) % 2 == 1),
    {
        let mut blocks: Vec<(usize, usize)> = Vec::new();
        let mut start: usize = 0;
        while start < dim
            invariant
                start <= dim,
                start == end_of(blocks@, blocks@.len() as int),
                forall|i: int|
                    0 <= i < blocks@.len() ==> #[trigger] is_tile(blocks@, dim as nat, i),
            decreases dim - start,
        {
            let size: usize = largest_power(dim - start);
            let ghost before = blocks@;
            blocks.push((start, size));
            proof {
                assert forall|i: int| 0 <= i < blocks@.len() implies #[trigger] is_tile(
                    blocks@,
                    dim as nat,
                    i,
                ) by {
                    assert(end_of(blocks@, i) == end_of(before, i));
                    if i < before.len() {
                        assert(is_tile(before, dim as nat, i));
                    }
                }
            }
            start = start + size;
        }
        let total: usize = if n_rounds == 0 {
            1
        } else {
            n_rounds
        };
        let mut rounds: Vec<Vec<bool>> = Vec::with_capacity(total);
        let mut state: u64 = seed;
        let mut k: usize = 0;
        proof {
            assert(0 * dim == 0);
        }
        while k < total
            invariant
                k <= total,
                rounds.len() == k,
                state == state_after(seed, (k * dim) as nat),
                forall|q: int| 0 <= q < k ==> (#[trigger] rounds@[q]).len() == dim,
                forall|q: int, i: int|
                    0 <= q < k && 0 <= i < dim ==> #[trigger] rounds@[q]@[i] == sign_at(
                        seed,
                        dim as nat,
                        q,
                        i,
                    ),
            decreases total - k,
        {
            let mut signs: Vec<bool> = Vec::with_capacity(dim);
            let mut i: usize = 0;
            let ghost base = k * dim;
            assert(base >= 0) by (nonlinear_arith)
                requires
                    base == k * dim,
                    k >= 0,
                    dim >= 0,
            ;
            while i < dim
                invariant
                    i <= dim,
                    base == k * dim,
                    base >= 0,
                    signs.len() == i,
                    state == state_after(seed, (base + i) as nat),
                    forall|j: int|
                        0 <= j < i ==> #[trigger] signs@[j] == sign_at(
                            seed,
                            dim as nat,
                            k as int,
                            j,
                        ),
                decreases dim - i,
            {
                let z: u64 = splitmix64(&mut state);
                assert(state == state_after(seed, (base + i + 1) as nat));
                assert(z == output(seed, (base + i) as nat));
                signs.push(z % 2 == 1);
                i += 1;
            }
            assert((k + 1) * dim == k * dim + dim) by (nonlinear_arith);
            rounds.push(signs);
            k += 1;
        }
        Rotation { blocks, rounds }
    }

    /// The start and the size of each block.
    pub fn block_list(&self) -> (b: &Vec<(usize, usize)>)
        ensures
            b@ == self.blocks(),
    {
        &self.blocks
    }

    /// The signs of each round, in the order in which they are applied; plus is true.
    pub fn sign_rounds(&self) -> (r: &Vec<Vec<bool>>)
        ensures
            r@ == self.rounds(),
    {
        &self.rounds
    }
}

proof fn lemma_block_inside(blocks: Seq<(usize, usize)>, dim: nat, j: int)
    requires
        is_tiling(blocks, dim),
        0 <= j < blocks.len(),
    ensures
        blocks[j].0 + blocks[j].1 <= dim,
    decreases j,
{
    assert(is_tile(blocks, dim, j));
    if j > 0 {
        lemma_block_inside(blocks, dim, j - 1);
    }
}

/// Blocks lie inside the vector and do not overlap.
pub proof fn blocks_do_not_overlap(blocks: Seq<(usize, usize)>, dim: nat, i: int, j: int)
    requires
        is_tiling(blocks, dim),
        0 <= i < j < blocks.len(),
    ensures
        blocks[i].0 + blocks[i].1 <= blocks[j].0,
        blocks[j].0 + blocks[j].1 <= dim,
    decreases j - i,
{
    assert(is_tile(blocks, dim, j));
    lemma_block_inside(blocks, dim, j);
    if i < j - 1 {
        blocks_do_not_overlap(blocks, dim, i, j - 1);
    } else {
        assert(is_tile(blocks, dim, i));
    }
}

/// A dimension that is a power of two makes a single block.
pub proof fn a_power_of_two_is_one_block(blocks: Seq<(usize, usize)>, dim: nat)
    requires
        is_tiling(blocks, dim),
        is_power_of_two(dim),
    ensures
        blocks.len() == 1,
        blocks[0] == (0usize, dim as usize),
{
    assert(dim >= 1);
    if blocks.len() == 0 {
        assert(end_of(blocks, 0) == 0);
    }
    assert(is_tile(blocks, dim, 0));
    lemma_powers_apart(dim, blocks[0].1 as nat);
    if blocks.len() > 1 {
        assert(is_tile(blocks, dim, 1));
    }
}

/// Two powers of two less than a factor of two apart are equal.
proof fn lemma_powers_apart(a: nat, b: nat)
    requires
        is_power_of_two(a),
        is_power_of_two(b),
        b <= a < 2 * b,
    ensures
        a == b,
    decreases a,
{
    if a > 1 && b > 1 {
        lemma_powers_apart(a / 2, b / 2);
    }
}

/// A number that a setting gives, `default` if it is missing or not a number.
pub open spec fn setting_or(text: Option<Seq<char>>, max: nat, default: nat) -> nat {
    match text {
        None => default,
        Some(t) => match natural_upto(t, max) {
            Some(v) => v,
            None => default,
        },
    }
}

/// The content of a setting.
pub open spec fn text_of(t: Option<&str>) -> Option<Seq<char>> {
    match t {
        None => None,
        Some(s) => Some(s@),
    }
}

/// A number that a setting gives, `default` if it is missing or not a number.
pub fn number_setting(text: Option<&str>, max: u64, default: u64) -> (v: u64)
    ensures
        v == setting_or(text_of(text), max as nat, default as nat),
{
    match text {
        None => default,
        Some(t) => match parse_natural(&chars_of(t), max) {
            Some(v) => v,
            None => default,
        },
    }
}

/// The seed of the rotation that every codec shares: 42 unless a setting says otherwise.
pub fn rotation_seed(setting: Option<&str>) -> (seed: u64)
    ensures
        seed == setting_or(text_of(setting), u64::MAX as nat, 42),
{
    number_setting(setting, u64::MAX, 42)
}

/// How many rounds a rotation has: three unless a setting says otherwise.
pub fn rotation_rounds(setting: Option<&str>) -> (rounds: u64)
    ensures
        rounds == setting_or(text_of(setting), usize::MAX as nat, 3),
{
    number_setting(setting, usize::MAX as u64, 3)
}

/// Which rotation is used.
#[derive(Clone, Copy, Debug, PartialEq, Eq, Structural)]
pub enum RotorKind {
    /// The data-oblivious rotation.
    Hadamard,
    /// The eigenbasis of a sample.
    Pca,
    /// The eigenbasis, turned towards the hypercube.
    Itq,
}

/// The rotation that a setting asks for; a learned one needs a sample.
pub fn rotor_kind(setting: Option<&str>, sample_len: usize) -> (kind: RotorKind)
    ensures
        kind == match setting {
            None => RotorKind::Hadamard,
            Some(s) => if s@ == "pca"@ && sample_len > 0 {
                RotorKind::Pca
            } else if s@ == "itq"@ && sample_len > 0 {
                RotorKind::Itq
            } else {
                RotorKind::Hadamard
            },
        },
{
    match setting {
        None => RotorKind::Hadamard,
        Some(s) => {
            if same_text(s, "pca") && sample_len > 0 {
                RotorKind::Pca
            } else if same_text(s, "itq") && sample_len > 0 {
                RotorKind::Itq
            } else {
                RotorKind::Hadamard
            }
        },
    }
}

/// The place of the value nearest to `value` in an ascending codebook: the lower of two that are
/// equally near.
pub open spec fn is_nearest_level(value: int, book: Seq<i64>, i: int) -> bool {
    &&& 0 <= i < book.len()
    &&& forall|j: int|
        0 <= j < book.len() ==> gap(value, book[i] as int) <= #[trigger] gap(value, book[j] as int)
    &&& forall|j: int|
        0 <= j < i && book[j] < book[i] ==> gap(value, book[i] as int) < #[trigger] gap(
            value,
            book[j] as int,
        )
}

/// The distance of two values.
pub open spec fn gap(a: int, b: int) -> int {
    if a < b {
        b - a
    } else {
        a - b
    }
}

/// The values of a codebook do not descend.
pub open spec fn ascending(book: Seq<i64>) -> bool {
    forall|i: int, j: int| 0 <= i < j < book.len() ==> (#[trigger] book[i]) <= (#[trigger] book[j])
}

/// The place of the value nearest to `value` in an ascending codebook.
pub fn nearest_index(value: i64, book: &Vec<i64>) -> (i: u16)
    requires
        0 < book.len() <= 0x1_0000,
        ascending(book@),
    ensures
        is_nearest_level(value as int, book@, i as int),
{
    let mut lo: usize = 0;
    let mut hi: usize = book.len();
    while lo < hi
        invariant
            lo <= hi <= book.len(),
            ascending(book@),
            forall|j: int| 0 <= j < lo ==> (#[trigger] book@[j]) < value,
            forall|j: int| hi <= j < book.len() ==> (#[trigger] book@[j]) >= value,
        decreases hi - lo,
    {
        let mid: usize = lo + (hi - lo) / 2;
        if book[mid] < value {
            proof {
                assert forall|j: int| 0 <= j < mid + 1 implies (#[trigger] book@[j]) < value by {
                    if j < mid {
                        assert(book@[j] <= book@[mid as int]);
                    }
                }
            }
            lo = mid + 1;
        } else {
            proof {
                assert forall|j: int| mid <= j < book.len() implies (#[trigger] book@[j])
                    >= value by {
                    if mid < j {
                        assert(book@[mid as int] <= book@[j]);
                    }
                }
            }
            hi = mid;
        }
    }
    let pos: usize = lo;
    if pos == 0 {
        proof {
            assert forall|j: int| 0 <= j < book@.len() implies gap(value as int, book@[0] as int)
                <= #[trigger] gap(value as int, book@[j] as int) by {
                if j > 0 {
                    assert(book@[0] <= book@[j]);
                }
                assert(book@[0] >= value);
            }
        }
        0
    } else if pos == book.len() {
        proof {
            let last = book@.len() - 1;
            assert forall|j: int| 0 <= j < book@.len() implies gap(value as int, book@[last] as int)
                <= #[trigger] gap(value as int, book@[j] as int) by {
                if j < last {
                    assert(book@[j] <= book@[last]);
                }
                assert(book@[last] < value);
            }
        }
        (book.len() - 1) as u16
    } else {
        let below: i128 = value as i128 - book[pos - 1] as i128;
        let above: i128 = book[pos] as i128 - value as i128;
        proof {
            assert(book@[pos - 1] < value);
            assert(book@[pos as int] >= value);
            assert forall|j: int| 0 <= j < book@.len() implies #[trigger] gap(
                value as int,
                book@[j] as int,
            ) >= if j < pos {
                below as int
            } else {
                above as int
            } by {
                if j < pos {
                    if j < pos - 1 {
                        assert(book@[j] <= book@[pos - 1]);
                    }
                    assert(book@[j] < value);
                } else {
                    if j > pos {
                        assert(book@[pos as int] <= book@[j]);
                    }
                }
            }
        }
        if below <= above {
            (pos - 1) as u16
        } else {
            pos as u16
        }
    }
}

// ---- What the rotation promises ----

/// Every round has fresh signs: a later round has the signs that the first round has where the
/// generator was left, and the rounds, laid end to end, are the low bits of successive outputs.
pub proof fn every_round_has_fresh_signs(seed: u64, dim: nat, r: nat, i: nat)
    requires
        i < dim,
    ensures
        sign_at(seed, dim, r as int, i as int) == sign_at(
            state_after(seed, r * dim),
            dim,
            0,
            i as int,
        ),
        sign_at(seed, dim, r as int, i as int) == sign_at(seed, 1, (r * dim + i) as int, 0),
        sign_at(seed, dim, r as int, i as int) <==> output(seed, r * dim + i) % 2 == 1,
{
    a_stream_goes_on(seed, r * dim, i);
    assert(0 * dim == 0);
    assert((r * dim + i) * 1 == r * dim + i);
}

/// Blocks get smaller from one to the next, each at least by half, and all are powers of two.
pub proof fn blocks_get_smaller(blocks: Seq<(usize, usize)>, dim: nat, i: int)
    requires
        is_tiling(blocks, dim),
        0 <= i < blocks.len(),
    ensures
        exists|e: nat| blocks[i].1 == #[trigger] pow2(e),
        i + 1 < blocks.len() ==> blocks[i + 1].1 < blocks[i].1 && blocks[i + 1].0 == blocks[i].0
            + blocks[i].1,
        blocks[0].0 == 0,
        i + 1 == blocks.len() ==> blocks[i].0 + blocks[i].1 == dim,
{
    assert(is_tile(blocks, dim, i));
    assert(is_tile(blocks, dim, 0));
    powers_of_two_are_powers(blocks[i].1 as nat);
    if i + 1 < blocks.len() {
        assert(is_tile(blocks, dim, i + 1));
        lemma_block_inside(blocks, dim, i + 1);
    }
}

/// No value of the codebook is nearer than the chosen one, and none below it is as near.
pub proof fn the_nearest_level_is_nearest(value: int, book: Seq<i64>, i: int, j: int)
    requires
        is_nearest_level(value, book, i),
        0 <= j < book.len(),
    ensures
        0 <= i < book.len(),
        (value - book[i]) * (value - book[i]) <= (value - book[j]) * (value - book[j]),
        j < i && book[j] < book[i] ==> (value - book[i]) * (value - book[i]) < (value - book[j]) * (
        value - book[j]),
{
    let a = value - book[i];
    let b = value - book[j];
    let x = gap(value, book[i] as int);
    let y = gap(value, book[j] as int);
    assert(x * x == a * a && y * y == b * b) by (nonlinear_arith)
        requires
            x == a || x == -a,
            y == b || y == -b,
    ;
    assert(x * x <= y * y) by (nonlinear_arith)
        requires
            0 <= x <= y,
    ;
    if j < i && book[j] < book[i] {
        assert(x < y);
        assert(x * x < y * y) by (nonlinear_arith)
            requires
                0 <= x < y,
        ;
    }
}

/// A setting that holds a number in decimal gives that number, if it is not too large; a missing
/// one gives the default.
pub proof fn a_decimal_setting_is_taken(n: nat, max: nat, default: nat)
    ensures
        setting_or(None, max, default) == default,
        setting_or(Some(decimal(n)), max, default) == if n <= max {
            n
        } else {
            default
        },
{
    decimal_reads_back(n);
}

} // verus!
