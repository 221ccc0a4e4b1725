//! The memory ledger: what a vector backend keeps resident, by purpose.

use vstd::arithmetic::power::pow;
use vstd::prelude::*;

verus! {

/// Resident-memory ledger of a vector backend.
///
/// `code_bytes` is the serialized per-vector representation, `model_bytes` shared fitted or
/// computed state, `index_bytes` graph and list structure, `cache_bytes` decoded accelerators.
#[derive(Clone, Copy, Debug, PartialEq, Eq, Structural)]
pub struct MemoryBreakdown {
    pub code_bytes: usize,
    pub model_bytes: usize,
    pub index_bytes: usize,
    pub cache_bytes: usize,
}

impl Default for MemoryBreakdown {
    fn default() -> (r: Self)
        ensures
            r == (MemoryBreakdown { code_bytes: 0, model_bytes: 0, index_bytes: 0, cache_bytes: 0 }),
    {
        MemoryBreakdown { code_bytes: 0, model_bytes: 0, index_bytes: 0, cache_bytes: 0 }
    }
}

/// `v`, or the largest `usize` if `v` does not fit.
pub open spec fn saturated(v: int) -> int {
    if v <= usize::MAX {
        v
    } else {
        usize::MAX as int
    }
}

/// The sum, or the largest `usize` if it does not fit.
pub fn saturating_sum(a: usize, b: usize) -> (r: usize)
    ensures
        r == saturated(a + b),
{
    if a <= usize::MAX - b {
        a + b
    } else {
        usize::MAX
    }
}

/// The product, or the largest `usize` if it does not fit.
pub fn saturating_product(a: usize, b: usize) -> (r: usize)
    ensures
        r == saturated(a * b),
{
    match a.checked_mul(b) {
        Some(r) => r,
        None => usize::MAX,
    }
}

impl MemoryBreakdown {
    /// The exact sum of the four columns.
    pub open spec fn total(self) -> int {
        self.code_bytes + self.model_bytes + self.index_bytes + self.cache_bytes
    }

    /// All resident bytes; saturates instead of overflowing.
    pub fn total_resident_bytes(self) -> (r: usize)
        ensures
            r == saturated(self.total()),
    {
        saturating_sum(
            saturating_sum(saturating_sum(self.code_bytes, self.model_bytes), self.index_bytes),
            self.cache_bytes,
        )
    }

    /// Adds another ledger column by column, saturating.
    pub fn absorb(self, other: MemoryBreakdown) -> (r: MemoryBreakdown)
        ensures
            r.code_bytes == saturated(self.code_bytes + other.code_bytes),
            r.model_bytes == saturated(self.model_bytes + other.model_bytes),
            r.index_bytes == saturated(self.index_bytes + other.index_bytes),
            r.cache_bytes == saturated(self.cache_bytes + other.cache_bytes),
    {
        MemoryBreakdown {
            code_bytes: saturating_sum(self.code_bytes, other.code_bytes),
            model_bytes: saturating_sum(self.model_bytes, other.model_bytes),
            index_bytes: saturating_sum(self.index_bytes, other.index_bytes),
            cache_bytes: saturating_sum(self.cache_bytes, other.cache_bytes),
        }
    }
}

/// How many bytes it takes to write `v`: none for zero.
pub open spec fn byte_length(v: nat) -> nat
    decreases v,
{
    if v == 0 {
        0
    } else {
        1 + byte_length(v / 256)
    }
}

/// Per-vector bytes that centering on `n` centroids costs.
pub open spec fn centering_cost(n: nat) -> nat {
    if n == 0 {
        0
    } else {
        4 + byte_length((n - 1) as nat)
    }
}

/// Per-vector bytes a codec must store to support centering: the residual norm, and, with more
/// than one centroid, the assignment index.
pub fn centering_bytes(n_centroids: usize) -> (r: usize)
    ensures
        r == centering_cost(n_centroids as nat),
        r <= 12,
{
    if n_centroids == 0 {
        return 0;
    }
    let mut left: usize = n_centroids - 1;
    let mut bytes: usize = 0;
    let ghost all = left as nat;
    proof {
        lemma_byte_length_bound(all, 8);
        assert(pow(256, 8) == 0x1_0000_0000_0000_0000) by {
            vstd::arithmetic::power::lemma_pow1(256);
            vstd::arithmetic::power::lemma_pow_adds(256, 1, 1);
            assert(pow(256, 2) == 0x1_0000);
            vstd::arithmetic::power::lemma_pow_adds(256, 2, 2);
            assert(pow(256, 4) == 0x1_0000_0000);
            vstd::arithmetic::power::lemma_pow_adds(256, 4, 4);
        }
    }
    while left > 0
        invariant
            bytes + byte_length(left as nat) == byte_length(all),
            byte_length(all) <= 8,
        decreases left,
    {
        left = left / 256;
        bytes += 1;
    }
    4 + bytes
}

proof fn lemma_byte_length_bound(v: nat, b: nat)
    ensures
        v < pow(256, b) <==> byte_length(v) <= b,
    decreases b,
{
    reveal(pow);
    if b == 0 {
        reveal_with_fuel(byte_length, 2);
    } else if v > 0 {
        lemma_byte_length_bound(v / 256, (b - 1) as nat);
        let p = pow(256, (b - 1) as nat);
        assert(pow(256, b) == 256 * p);
    } else {
        vstd::arithmetic::power::lemma_pow_positive(256, b);
    }
}

/// The assignment index is written in the fewest bytes that tell `n` centroids apart.
pub proof fn centering_index_is_shortest(n: nat, b: nat)
    requires
        n >= 1,
    ensures
        n <= pow(256, b) <==> centering_cost(n) <= 4 + b,
{
    lemma_byte_length_bound((n - 1) as nat, b);
}

/// Code bytes and resident bytes of a backend that searches by inner product: the exact norm of
/// each vector is a four-byte sidecar, unless the record holds it already.
pub fn with_mips_norm_sidecar(
    memory: &MemoryBreakdown,
    n_db: usize,
    norm_already_stored: bool,
) -> (r: (usize, usize))
    requires
        !norm_already_stored ==> memory.code_bytes + 4 * n_db <= usize::MAX && saturated(
            memory.total(),
        ) + 4 * n_db <= usize::MAX,
    ensures
        r.0 == memory.code_bytes + if norm_already_stored {
            0
        } else {
            4 * n_db as int
        },
        r.1 == saturated(memory.total()) + if norm_already_stored {
            0
        } else {
            4 * n_db as int
        },
{
    let norm_bytes: usize = if norm_already_stored {
        0
    } else {
        n_db * 4
    };
    (memory.code_bytes + norm_bytes, memory.total_resident_bytes() + norm_bytes)
}

/// `Vec::capacity`: how many items the vector can hold without reallocating. Claimed is only
/// that the items it holds are among them; how much more it has is left to the allocator.
#[verifier::external_body]
pub(crate) fn capacity_of<T>(v: &Vec<T>) -> (r: usize)
    ensures
        r >= v@.len(),
{
    v.capacity()
}

/// A saturated sum is the sum itself or the largest number, whichever is smaller.
pub proof fn saturation_only_cuts_off(v: int)
    ensures
        saturated(v) <= v,
        saturated(v) <= usize::MAX,
        saturated(v) == v || saturated(v) == usize::MAX,
{
}

/// All resident bytes are those of codes, model, index and cache, and nothing is charged without
/// centroids; a single centroid costs the residual norm only.
pub proof fn every_column_counts_once(m: MemoryBreakdown)
    ensures
        m.total() - m.code_bytes - m.model_bytes == m.index_bytes + m.cache_bytes,
        centering_cost(0) == 0,
        centering_cost(1) == 4,
{
}

} // verus!
