//! Shapes and rules of the scalar, product and block codecs: how a rate is spent, which rates
//! are honoured, how large a record is, and the decisions taken while codebooks are fitted.

use vstd::arithmetic::power2::{lemma2_to64, lemma_pow2_adds, lemma_pow2_strictly_increases, pow2};
use vstd::prelude::*;
use vstd::string::StringExecFns;

use crate::ivf::{as_hits, hits_of, the_most_similar_are_named};
use crate::memory::{centering_bytes, centering_cost};
use crate::order::{in_order, merge_sort, Ranked};
use crate::packing::packed_len;
use crate::prng::{sample, shuffled, shuffled_is_permutation};
use crate::rotation::text_of;
use crate::scored::{hit_ids, lemma_ranked, rank, ranked, top, Hit};
use crate::sums::{total, total_of_nothing, total_of_push};
use crate::text::{
    append_decimal, chars_of, decimal, decimal_reads_back, natural_upto, parse_natural, same_text,
};

verus! {

// ---- Record sizes ----

/// Bytes of `n` packed fields of `bits` bits.
pub fn packed_bytes(n: usize, bits: u8) -> (r: usize)
    requires
        n * bits + 7 <= usize::MAX,
    ensures
        r == packed_len(n as nat, bits as nat),
{
    assert(n * bits >= 0) by (nonlinear_arith)
        requires
            n >= 0,
            bits >= 0,
    ;
    (n * bits as usize + 7) / 8
}

/// Bytes of a record that packs one index per coordinate, with one scale and what centering
/// needs: the residual code and the optimal-scale code.
pub open spec fn scalar_record(dim: nat, bits: nat, n_centroids: nat) -> nat {
    packed_len(dim, bits) + 4 + centering_cost(n_centroids)
}

/// Bytes of a record that packs one index per coordinate, with one scale and what centering
/// needs.
pub fn scalar_record_bytes(dim: usize, bits: u8, n_centroids: usize) -> (r: usize)
    requires
        dim * bits + 23 <= usize::MAX,
    ensures
        r == scalar_record(dim as nat, bits as nat, n_centroids as nat),
{
    let codes: usize = packed_bytes(dim, bits);
    codes + 4 + centering_bytes(n_centroids)
}

/// Bytes of a record of the scalar reference codec: the indices, a norm and a scale.
pub open spec fn baseline_record(dim: nat, bits: nat) -> nat {
    packed_len(dim, bits) + 8
}

/// Bytes of a record of the scalar reference codec.
pub fn baseline_record_bytes(dim: usize, bits: u8) -> (r: usize)
    requires
        dim * bits + 15 <= usize::MAX,
    ensures
        r == baseline_record(dim as nat, bits as nat),
{
    packed_bytes(dim, bits) + 8
}

/// Bytes of a record of the sketched residual codec: indices of one bit less, a sign for each
/// coordinate, a scale and a norm.
pub open spec fn residual_record(dim: nat, eff_bits: nat) -> nat {
    packed_len(dim, (eff_bits - 1) as nat) + packed_len(dim, 1) + 8
}

/// Bytes of a record of the sketched residual codec; none for a budget below two bits, which
/// leaves nothing for the base.
pub fn residual_record_bytes(dim: usize, eff_bits: u8) -> (r: Option<usize>)
    requires
        dim * eff_bits + 30 <= usize::MAX,
    ensures
        match r {
            Some(b) => eff_bits >= 2 && b == residual_record(dim as nat, eff_bits as nat),
            None => eff_bits < 2,
        },
{
    if eff_bits < 2 {
        return None;
    }
    assert(dim * (eff_bits - 1) + dim == dim * eff_bits) by (nonlinear_arith)
        requires
            eff_bits >= 2,
    ;
    assert(dim * (eff_bits - 1) >= 0) by (nonlinear_arith)
        requires
            dim >= 0,
            eff_bits >= 2,
    ;
    let base: usize = packed_bytes(dim, eff_bits - 1);
    let signs: usize = packed_bytes(dim, 1);
    Some(base + signs + 8)
}

/// The bits that the base of the sketched residual codec spends.
pub fn residual_base_bits(eff_bits: u8) -> (r: Option<u8>)
    ensures
        match r {
            Some(b) => eff_bits >= 2 && b == eff_bits - 1,
            None => eff_bits < 2,
        },
{
    if eff_bits < 2 {
        None
    } else {
        Some(eff_bits - 1)
    }
}

/// The sketched residual codec spends exactly what the reference codec spends at the same
/// budget, for every dimension that is a multiple of eight.
pub proof fn residual_is_bit_matched(dim: nat, eff_bits: nat)
    requires
        eff_bits >= 2,
        dim % 8 == 0,
    ensures
        residual_record(dim, eff_bits) == baseline_record(dim, eff_bits),
        baseline_record(dim, eff_bits) == dim * eff_bits / 8 + 8,
{
    let m = dim / 8;
    assert(dim == 8 * m);
    assert(dim * eff_bits == 8 * (m * eff_bits)) by (nonlinear_arith)
        requires
            dim == 8 * m,
    ;
    assert(dim * (eff_bits - 1) == 8 * (m * (eff_bits - 1))) by (nonlinear_arith)
        requires
            dim == 8 * m,
    ;
    assert(m * eff_bits == m * (eff_bits - 1) + m) by (nonlinear_arith);
    assert(m * (eff_bits - 1) >= 0) by (nonlinear_arith)
        requires
            m >= 0,
            eff_bits >= 2,
    ;
}

// ---- Residual code levels ----

/// How many levels the residual code has at `bits` bits per coordinate.
pub fn level_count(bits: u8) -> (levels: u32)
    requires
        bits < 32,
    ensures
        levels == pow2(bits as nat),
        bits >= 1 ==> levels >= 2,
{
    let mut levels: u32 = 1;
    let mut i: u8 = 0;
    proof {
        lemma2_to64();
    }
    while i < bits
        invariant
            i <= bits < 32,
            levels == pow2(i as nat),
            i >= 1 ==> levels >= 2,
            pow2(31) == 0x8000_0000,
            pow2(1) == 2,
        decreases bits - i,
    {
        proof {
            lemma_pow2_adds(i as nat, 1);
            if i + 1 < 31 {
                lemma_pow2_strictly_increases((i + 1) as nat, 31);
            }
        }
        levels = levels * 2;
        i += 1;
    }
    levels
}

/// The centered value of a code, doubled: codes straddle zero.
pub open spec fn centered2(code: int, levels: int) -> int {
    2 * code - (levels - 1)
}

/// The doubled values of all codes, in order.
pub fn centered_book(levels: u32) -> (book: Vec<i64>)
    ensures
        book.len() == levels,
        forall|c: int| 0 <= c < levels ==> #[trigger] book@[c] == centered2(c, levels as int),
{
    let mut book: Vec<i64> = Vec::new();
    let mut c: u32 = 0;
    while c < levels
        invariant
            c <= levels,
            book.len() == c,
            forall|q: int| 0 <= q < c ==> #[trigger] book@[q] == centered2(q, levels as int),
        decreases levels - c,
    {
        book.push(2 * c as i64 - (levels as i64 - 1));
        c += 1;
    }
    book
}

/// The levels are symmetric about zero.
pub proof fn levels_are_symmetric(code: int, levels: int)
    requires
        0 <= code < levels,
    ensures
        centered2(code, levels) == -centered2(levels - 1 - code, levels),
{
}

/// Whether the published tables of the reference codec cover a width; other widths are derived.
pub fn has_published_table(bits: u8) -> (r: bool)
    ensures
        r == (4 <= bits <= 6),
{
    4 <= bits && bits <= 6
}

// ---- Product quantization ----

/// The width of a subquantizer code: eight bits unless a setting gives one from one to eight.
pub open spec fn pq_code_bits(setting: Option<Seq<char>>) -> nat {
    match setting {
        None => 8,
        Some(s) => match natural_upto(s, usize::MAX as nat) {
            None => 8,
            Some(c) => if 1 <= c <= 8 {
                c
            } else {
                8
            },
        },
    }
}

/// The width of a subquantizer code.
pub fn code_bits(setting: Option<&str>) -> (c: usize)
    ensures
        c == pq_code_bits(text_of(setting)),
        1 <= c <= 8,
{
    match setting {
        None => 8,
        Some(s) => match parse_natural(&chars_of(s), usize::MAX as u64) {
            None => 8,
            Some(c) => if 1 <= c && c <= 8 {
                c as usize
            } else {
                8
            },
        },
    }
}

/// Why a rate cannot be honoured by product quantization.
#[derive(Clone, Copy, Debug, PartialEq, Eq, Structural)]
pub enum PqFault {
    /// The rate does not divide eight.
    RateDoesNotDivide,
    /// The width of a code is no multiple of the rate.
    WidthNotMultiple,
    /// The dimension is no multiple of the subspace.
    DimNotMultiple,
}

/// How product quantization splits a vector.
#[derive(Clone, Copy, Debug, PartialEq, Eq, Structural)]
pub struct PqShape {
    pub sub_dim: usize,
    pub n_sub: usize,
    pub centroids: usize,
}

/// What is wrong with a rate, if anything.
pub open spec fn pq_fault(dim: nat, rate: nat, width: nat) -> Option<PqFault> {
    if rate == 0 || 8nat % rate != 0 {
        Some(PqFault::RateDoesNotDivide)
    } else if width % rate != 0 {
        Some(PqFault::WidthNotMultiple)
    } else if dim % (width / rate) != 0 {
        Some(PqFault::DimNotMultiple)
    } else {
        None
    }
}

/// The split of a vector at `bits_per_dim` bits per coordinate with codes of `width` bits.
pub fn pq_shape(dim: usize, bits_per_dim: u8, width: usize) -> (r: Result<PqShape, PqFault>)
    requires
        1 <= width <= 8,
    ensures
        match r {
            Ok(s) => {
                &&& pq_fault(dim as nat, bits_per_dim as nat, width as nat) is None
                &&& s.sub_dim * bits_per_dim == width
                &&& s.n_sub * s.sub_dim == dim
                &&& s.centroids == pow2(width as nat)
            },
            Err(f) => pq_fault(dim as nat, bits_per_dim as nat, width as nat) == Some(f),
        },
{
    let rate: usize = bits_per_dim as usize;
    if rate == 0 || rate > 8 || 8 % rate != 0 {
        proof {
            if rate > 8 {
                assert(8nat % rate as nat == 8) by {
                    vstd::arithmetic::div_mod::lemma_small_mod(8, rate as nat);
                }
            }
        }
        return Err(PqFault::RateDoesNotDivide);
    }
    if width % rate != 0 {
        return Err(PqFault::WidthNotMultiple);
    }
    let sub_dim: usize = width / rate;
    proof {
        vstd::arithmetic::div_mod::lemma_fundamental_div_mod(width as int, rate as int);
        assert(rate * sub_dim == sub_dim * rate) by (nonlinear_arith);
        assert(sub_dim > 0) by (nonlinear_arith)
            requires
                rate * sub_dim == width,
                width >= 1,
        ;
    }
    if dim % sub_dim != 0 {
        return Err(PqFault::DimNotMultiple);
    }
    let n_sub: usize = dim / sub_dim;
    proof {
        vstd::arithmetic::div_mod::lemma_fundamental_div_mod(dim as int, sub_dim as int);
        assert(sub_dim * n_sub == n_sub * sub_dim) by (nonlinear_arith);
    }
    Ok(PqShape { sub_dim, n_sub, centroids: level_count(width as u8) as usize })
}

/// What is encoded is the rate that the label states: all codes together have `rate` bits for
/// each coordinate.
pub proof fn pq_rate_is_exact(dim: int, rate: int, width: int, sub_dim: int, n_sub: int)
    requires
        sub_dim * rate == width,
        n_sub * sub_dim == dim,
    ensures
        n_sub * width == dim * rate,
{
    assert(n_sub * (sub_dim * rate) == (n_sub * sub_dim) * rate) by (nonlinear_arith);
}

/// The label of a product quantizer that minimizes the squared error.
pub open spec fn pq_label_text(bits: nat) -> Seq<char> {
    "pq_mse_"@ + decimal(bits) + "bit"@
}

/// The label of a product quantizer that minimizes the squared error.
pub fn pq_label(bits_per_dim: u8) -> (s: String)
    ensures
        s@ == pq_label_text(bits_per_dim as nat),
{
    let mut s: String = "pq_mse_".to_owned();
    append_decimal(&mut s, bits_per_dim as u64);
    s.append("bit");
    s
}

/// At most 20,000 vectors are sampled for training, evenly: every `stride`-th.
pub fn training_stride(n: usize) -> (stride: usize)
    ensures
        stride == if n as int / 20_000 < 1 {
            1
        } else {
            n as int / 20_000
        },
        stride >= 1,
{
    let s: usize = n / 20_000;
    if s < 1 {
        1
    } else {
        s
    }
}

/// The place of the smallest distance, the first if several are equal.
pub open spec fn is_first_min(d: Seq<i64>, i: int) -> bool {
    &&& 0 <= i < d.len()
    &&& forall|j: int| 0 <= j < d.len() ==> d[i] <= (#[trigger] d[j])
    &&& forall|j: int| 0 <= j < i ==> d[i] < (#[trigger] d[j])
}

/// The nearest centroid, given the distances of all.
pub fn nearest_centroid(d: &Vec<i64>) -> (best: usize)
    requires
        d.len() > 0,
    ensures
        is_first_min(d@, best as int),
{
    let mut best: usize = 0;
    let mut j: usize = 1;
    while j < d.len()
        invariant
            best < j <= d.len(),
            forall|q: int| 0 <= q < j ==> d@[best as int] <= (#[trigger] d@[q]),
            forall|q: int| 0 <= q < best ==> d@[best as int] < (#[trigger] d@[q]),
        decreases d.len() - j,
    {
        if d[j] < d[best] {
            best = j;
        }
        j += 1;
    }
    best
}

// ---- Block quantization ----

/// The widest block index that stays trainable, in bits.
pub const MAX_CODEBOOK_BITS: usize = 12;

/// A block length that divides the dimension and keeps the index within `limit` bits.
pub open spec fn fits_blocks(dim: nat, bits: nat, p: nat, limit: nat) -> bool {
    p >= 1 && dim % p == 0 && bits * p <= limit
}

/// The block length unless a setting gives one: the longest that keeps the index trainable,
/// one if none does.
pub open spec fn is_default_block(dim: nat, bits: nat, p: nat) -> bool {
    &&& 1 <= p <= 12
    &&& p > 1 ==> fits_blocks(dim, bits, p, 12)
    &&& forall|q: nat| p < q <= 12 ==> !#[trigger] fits_blocks(dim, bits, q, 12)
}

/// The block length of the block quantizer.
pub open spec fn is_block_length(
    dim: nat,
    bits: nat,
    setting: Option<Seq<char>>,
    p: nat,
) -> bool {
    let given = match setting {
        None => None,
        Some(s) => natural_upto(s, usize::MAX as nat),
    };
    match given {
        Some(g) => if fits_blocks(dim, bits, g, 16) {
            p == g
        } else {
            is_default_block(dim, bits, p)
        },
        None => is_default_block(dim, bits, p),
    }
}

/// The block length unless a setting gives one.
fn default_block(dim: usize, bits: u8) -> (p: usize)
    ensures
        is_default_block(dim as nat, bits as nat, p as nat),
{
    let mut p: usize = 12;
    while p > 1
        invariant
            1 <= p <= 12,
            forall|q: nat|
                p < q <= 12 ==> !#[trigger] fits_blocks(dim as nat, bits as nat, q, 12),
        decreases p,
    {
        let width: usize = {
            assert(0 <= bits * p <= 255 * 12) by (nonlinear_arith)
                requires
                    0 <= bits <= 255,
                    0 <= p <= 12,
            ;
            bits as usize * p
        };
        if dim % p == 0 && width <= MAX_CODEBOOK_BITS {
            return p;
        }
        p -= 1;
    }
    p
}

/// The block length of the block quantizer.
pub fn block_length(dim: usize, bits: u8, setting: Option<&str>) -> (p: usize)
    ensures
        is_block_length(dim as nat, bits as nat, text_of(setting), p as nat),
{
    if let Some(s) = setting {
        if let Some(g) = parse_natural(&chars_of(s), usize::MAX as u64) {
            let g: usize = g as usize;
            if g >= 1 && dim % g == 0 {
                let width: u128 = {
                    assert(0 <= bits * g <= 255 * 0xffff_ffff_ffff_ffff) by (nonlinear_arith)
                        requires
                            0 <= bits <= 255,
                            0 <= g <= 0xffff_ffff_ffff_ffff,
                    ;
                    bits as u128 * g as u128
                };
                if width <= 16 {
                    return g;
                }
            }
        }
    }
    default_block(dim, bits)
}

/// How the block quantizer splits a vector.
#[derive(Clone, Copy, Debug, PartialEq, Eq, Structural)]
pub struct BlockShape {
    pub p: usize,
    pub m: usize,
    pub blk_bits: u8,
    pub n_code: usize,
    pub train_n: usize,
}

/// The split for blocks of length `p`: how many blocks, how wide an index, how many codewords,
/// and how many samples train them. Every codeword has at least forty samples.
pub fn block_shape(dim: usize, bits: u8, p: usize) -> (s: BlockShape)
    requires
        p >= 1,
        bits * p <= 16,
    ensures
        s.p == p,
        s.m == dim as int / p as int,
        s.blk_bits == bits * p,
        s.n_code == pow2((bits * p) as nat),
        s.train_n == if 40 * s.n_code > 50_000 {
            40 * s.n_code
        } else {
            50_000
        },
{
    assert(bits * p >= 0) by (nonlinear_arith)
        requires
            bits >= 0,
            p >= 0,
    ;
    assert(bits == 0 || p <= 16) by (nonlinear_arith)
        requires
            bits * p <= 16,
            bits >= 0,
            p >= 1,
    ;
    assert(bits == 0 ==> bits * p == 0) by (nonlinear_arith);
    let blk_bits: u8 = if bits == 0 {
        0
    } else {
        bits * p as u8
    };
    let n_code: usize = level_count(blk_bits) as usize;
    proof {
        lemma2_to64();
        if blk_bits < 16 {
            lemma_pow2_strictly_increases(blk_bits as nat, 16);
        }
    }
    let train_n: usize = if 40 * n_code > 50_000 {
        40 * n_code
    } else {
        50_000
    };
    BlockShape { p, m: dim / p, blk_bits, n_code, train_n }
}

/// The estimators of the block quantizer.
#[derive(Clone, Copy, Debug, PartialEq, Eq, Structural)]
pub enum Est {
    /// Unbiased.
    Ub,
    /// Optimal for reconstruction.
    Bsm,
    /// Unscaled.
    Mse,
}

/// The estimator that settings select: the codec's own setting first, then the one that all
/// codecs share.
pub fn block_estimator(own: Option<&str>, shared: Option<&str>) -> (e: Est)
    ensures
        e == {
            let given = text_of(own);
            if given == Some("bsm"@) {
                Est::Bsm
            } else if given == Some("mse"@) {
                Est::Mse
            } else if given == Some("ub"@) {
                Est::Ub
            } else if text_of(shared) == Some("1"@) {
                Est::Bsm
            } else {
                Est::Ub
            }
        },
{
    if let Some(s) = own {
        if same_text(s, "bsm") {
            return Est::Bsm;
        }
        if same_text(s, "mse") {
            return Est::Mse;
        }
        if same_text(s, "ub") {
            return Est::Ub;
        }
    }
    if let Some(s) = shared {
        if same_text(s, "1") {
            return Est::Bsm;
        }
    }
    Est::Ub
}

/// Whether one of two settings is on: the biased estimator of a codec.
pub fn is_switched_on(own: Option<&str>, shared: Option<&str>) -> (r: bool)
    ensures
        r == (text_of(own) == Some("1"@) || text_of(shared) == Some("1"@)),
{
    let a: bool = match own {
        Some(s) => same_text(s, "1"),
        None => false,
    };
    let b: bool = match shared {
        Some(s) => same_text(s, "1"),
        None => false,
    };
    a || b
}

// ---- Fitting the block codebook ----

/// The largest product of samples and codewords for which seeding weighs samples by distance.
pub const KMEANS_PP_BUDGET: usize = 2_000_000_000;

/// Whether seeding weighs samples by distance, rather than taking them at an even stride.
pub fn seeds_by_distance(n: usize, k: usize) -> (r: bool)
    ensures
        r == (k * n <= KMEANS_PP_BUDGET),
{
    match k.checked_mul(n) {
        Some(p) => p <= KMEANS_PP_BUDGET,
        None => false,
    }
}

/// The samples that seed `k` codewords at an even stride.
pub fn stride_seeds(n: usize, k: usize) -> (seeds: Vec<usize>)
    requires
        0 < k <= n,
    ensures
        seeds.len() == k,
        forall|c: int| 0 <= c < k ==> #[trigger] seeds@[c] == c * (n as int / k as int),
        forall|c: int| 0 <= c < k ==> (#[trigger] seeds@[c]) < n,
{
    let stride: usize = n / k;
    let mut seeds: Vec<usize> = Vec::with_capacity(k);
    let mut c: usize = 0;
    proof {
        vstd::arithmetic::div_mod::lemma_fundamental_div_mod(n as int, k as int);
        vstd::arithmetic::div_mod::lemma_mod_bound(n as int, k as int);
        let r = n as int % k as int;
        assert(stride >= 1) by (nonlinear_arith)
            requires
                n == k * stride + r,
                r < k,
                k <= n,
                k > 0,
        ;
    }
    while c < k
        invariant
            c <= k,
            0 < k <= n,
            stride == n as int / k as int,
            k * stride <= n,
            stride >= 1,
            seeds.len() == c,
            forall|q: int| 0 <= q < c ==> #[trigger] seeds@[q] == q * (n as int / k as int),
            forall|q: int| 0 <= q < c ==> (#[trigger] seeds@[q]) < n,
        decreases k - c,
    {
        assert(0 <= c * stride && c * stride + stride <= k * stride) by (nonlinear_arith)
            requires
                0 <= c,
                c + 1 <= k,
                stride >= 0,
        ;
        seeds.push(c * stride);
        c += 1;
    }
    seeds
}

/// No two codewords start from the same sample.
pub proof fn stride_seeds_are_distinct(n: int, k: int, a: int, b: int)
    requires
        0 < k <= n,
        0 <= a < b < k,
    ensures
        a * (n / k) < b * (n / k),
{
    vstd::arithmetic::div_mod::lemma_fundamental_div_mod(n, k);
    vstd::arithmetic::div_mod::lemma_mod_bound(n, k);
    let s = n / k;
    assert(s >= 1) by (nonlinear_arith)
        requires
            n == k * s + n % k,
            n % k < k,
            k <= n,
            k > 0,
    ;
    assert(a * s < b * s) by (nonlinear_arith)
        requires
            a < b,
            s >= 1,
    ;
}

/// The sum of the first `k` weights.
pub open spec fn weight_upto(w: Seq<u64>, k: int) -> int
    decreases k,
{
    if k <= 0 {
        0
    } else {
        weight_upto(w, k - 1) + w[k - 1]
    }
}

/// The place at which the running sum of the weights reaches `target`: the last place if it
/// never does.
pub open spec fn is_weighted_pick(w: Seq<u64>, target: int, i: int) -> bool {
    &&& 0 <= i < w.len()
    &&& weight_upto(w, i + 1) >= target || i == w.len() - 1
    &&& forall|j: int| 0 <= j < i ==> #[trigger] weight_upto(w, j + 1) < target
}

/// Picks a sample in proportion to its weight.
pub fn weighted_pick(w: &Vec<u64>, target: u128) -> (i: usize)
    requires
        w.len() > 0,
    ensures
        is_weighted_pick(w@, target as int, i as int),
{
    let mut total: u128 = 0;
    let mut i: usize = 0;
    while i < w.len()
        invariant
            i <= w.len(),
            w.len() > 0,
            total == weight_upto(w@, i as int),
            total <= i * 0xffff_ffff_ffff_ffff,
            forall|j: int| 0 <= j < i ==> #[trigger] weight_upto(w@, j + 1) < target,
        decreases w.len() - i,
    {
        assert(i * 0xffff_ffff_ffff_ffff <= 0xffff_ffff_ffff_ffff * 0xffff_ffff_ffff_ffff)
            by (nonlinear_arith)
            requires
                0 <= i <= 0xffff_ffff_ffff_ffff,
        ;
        total = total + w[i] as u128;
        if total >= target {
            assert(weight_upto(w@, i + 1) == total);
            return i;
        }
        i += 1;
    }
    w.len() - 1
}

/// The codewords without samples among the first `k`, in order.
pub open spec fn starved_upto(counts: Seq<u32>, k: int) -> Seq<usize>
    decreases k,
{
    if k <= 0 {
        Seq::empty()
    } else if counts[k - 1] == 0 {
        starved_upto(counts, k - 1).push((k - 1) as usize)
    } else {
        starved_upto(counts, k - 1)
    }
}

/// The codewords without samples, in order.
pub fn starved(counts: &Vec<u32>) -> (out: Vec<usize>)
    ensures
        out@ == starved_upto(counts@, counts@.len() as int),
{
    let mut out: Vec<usize> = Vec::new();
    let mut c: usize = 0;
    while c < counts.len()
        invariant
            c <= counts.len(),
            out@ == starved_upto(counts@, c as int),
        decreases counts.len() - c,
    {
        if counts[c] == 0 {
            out.push(c);
        }
        c += 1;
    }
    out
}

/// Where starved codewords are put: the `i`-th of them on the `i`-th worst-served sample, by
/// distance and then by place. With fewer samples than codewords some stay where they are.
pub fn reseed(counts: &Vec<u32>, dists: &Vec<i64>) -> (moves: Vec<(usize, usize)>)
    requires
        dists.len() <= i64::MAX,
    ensures
        ({
            let empty = starved_upto(counts@, counts@.len() as int);
            let worst = ranked(hits_of(dists@));
            &&& moves.len() == if empty.len() < worst.len() {
                empty.len()
            } else {
                worst.len()
            }
            &&& forall|i: int|
                0 <= i < moves.len() ==> (#[trigger] moves@[i]) == (empty[i], worst[i].id as usize)
        }),
        forall|i: int| 0 <= i < moves.len() ==> (#[trigger] moves@[i]).1 < dists.len(),
{
    let empty: Vec<usize> = starved(counts);
    let worst: Vec<Hit> = rank(&as_hits(dists));
    let n: usize = if empty.len() < worst.len() {
        empty.len()
    } else {
        worst.len()
    };
    let mut moves: Vec<(usize, usize)> = Vec::with_capacity(n);
    proof {
        lemma_ranked(hits_of(dists@));
    }
    let mut i: usize = 0;
    while i < n
        invariant
            i <= n,
            n <= empty.len(),
            n <= worst.len(),
            dists.len() <= i64::MAX,
            worst@ == ranked(hits_of(dists@)),
            moves.len() == i,
            forall|q: int|
                0 <= q < i ==> (#[trigger] moves@[q]) == (empty@[q], worst@[q].id as usize),
            forall|q: int| 0 <= q < i ==> (#[trigger] moves@[q]).1 < dists.len(),
        decreases n - i,
    {
        proof {
            lemma_ranked(hits_of(dists@));
            broadcast use vstd::seq_lib::group_to_multiset_ensures;

            let h = worst@[i as int];
            assert(worst@.to_multiset().count(h) > 0);
            assert(hits_of(dists@).contains(h));
            let j = choose|j: int| 0 <= j < hits_of(dists@).len() && hits_of(dists@)[j] == h;
            assert(h.id == j);
        }
        moves.push((empty[i], worst[i].id as usize));
        i += 1;
    }
    moves
}

// ---- The sign sketch ----

impl Ranked for usize {
    open spec fn leq(self, other: Self) -> bool {
        self <= other
    }

    proof fn leq_total(a: Self, b: Self) {
    }

    proof fn leq_trans(a: Self, b: Self, c: Self) {
    }

    fn no_later(&self, other: &Self) -> (r: bool) {
        *self <= *other
    }
}

/// The coordinates that a sketch of size `m` keeps: the first of a seeded shuffle, in ascending
/// order, each once.
pub fn sketch_coordinates(dim: usize, m: usize, seed: u64) -> (idx: Vec<usize>)
    ensures
        in_order(idx@),
        idx@.to_multiset() == shuffled(dim as nat, seed ^ 0xABCD_1234).take(
            if m < dim {
                m as int
            } else {
                dim as int
            },
        ).to_multiset(),
        idx.len() == if m < dim {
            m
        } else {
            dim
        },
        forall|i: int| 0 <= i < idx.len() ==> (#[trigger] idx@[i]) < dim,
{
    let kept: Vec<usize> = sample(dim, m, seed ^ 0xABCD_1234);
    let idx: Vec<usize> = merge_sort(&kept);
    proof {
        broadcast use vstd::seq_lib::group_to_multiset_ensures;

        let all = shuffled(dim as nat, seed ^ 0xABCD_1234);
        shuffled_is_permutation(dim as nat, seed ^ 0xABCD_1234);
        assert forall|i: int| 0 <= i < idx.len() implies (#[trigger] idx@[i]) < dim by {
            assert(idx@.to_multiset().count(idx@[i]) > 0);
            assert(kept@.contains(idx@[i]));
            let j = choose|j: int| 0 <= j < kept@.len() && kept@[j] == idx@[i];
            assert(all[j] == kept@[j]);
        }
    }
    idx
}

// ---- What the rules promise ----

/// Records hold their indices in the fewest bytes, and beside them one number of four bytes or
/// two, and what centering costs.
pub proof fn records_take_the_fewest_bytes(dim: nat, bits: nat, n: nat)
    ensures
        8 * (scalar_record(dim, bits, n) - 4 - centering_cost(n)) >= dim * bits,
        8 * (scalar_record(dim, bits, n) - 4 - centering_cost(n)) < dim * bits + 8,
        8 * (baseline_record(dim, bits) - 8) >= dim * bits,
        8 * (baseline_record(dim, bits) - 8) < dim * bits + 8,
{
    assert(dim * bits >= 0) by (nonlinear_arith);
}

/// The sketch spends one bit of the budget on signs: its record is that of the reference at one
/// bit less, with a sign for every coordinate more.
pub proof fn the_sketch_spends_one_bit_on_signs(dim: nat, eff_bits: nat)
    requires
        eff_bits >= 2,
    ensures
        8 * (residual_record(dim, eff_bits) - baseline_record(dim, (eff_bits - 1) as nat)) >= dim,
        8 * (residual_record(dim, eff_bits) - baseline_record(dim, (eff_bits - 1) as nat)) < dim
            + 8,
{
    assert(dim * 1 == dim);
}

/// The levels of a code are evenly spaced and straddle zero.
pub proof fn levels_are_evenly_spaced(code: int, levels: int)
    ensures
        centered2(code + 1, levels) - centered2(code, levels) == 2,
        centered2(0, levels) + centered2(levels - 1, levels) == 0,
{
}

/// A width from one to eight that is set in decimal is taken; anything else leaves eight.
pub proof fn a_width_in_range_is_taken(c: nat)
    ensures
        pq_code_bits(None) == 8,
        pq_code_bits(Some(decimal(c))) == if 1 <= c <= 8 {
            c
        } else {
            8
        },
{
    decimal_reads_back(c);
}

/// Product quantization honours a rate exactly where the rate divides eight and some subspace
/// both divides the vector and fills a code at that rate.
pub proof fn a_rate_is_honoured_where_it_fits(dim: nat, rate: nat, width: nat)
    requires
        1 <= width <= 8,
    ensures
        pq_fault(dim, rate, width) is None <==> {
            &&& rate > 0
            &&& 8nat % rate == 0
            &&& exists|sub: nat| sub * rate == width && #[trigger] (dim % sub) == 0
        },
{
    if rate > 0 {
        vstd::arithmetic::div_mod::lemma_fundamental_div_mod(width as int, rate as int);
        if width % rate == 0 {
            let sub = width / rate;
            assert(sub * rate == rate * sub) by (nonlinear_arith);
            if dim % sub == 0 {
                assert(sub * rate == width && dim % sub == 0);
            }
        }
        if exists|sub: nat| sub * rate == width && #[trigger] (dim % sub) == 0 {
            let sub = choose|sub: nat| sub * rate == width && #[trigger] (dim % sub) == 0;
            vstd::arithmetic::div_mod::lemma_fundamental_div_mod_converse(
                width as int,
                rate as int,
                sub as int,
                0,
            );
        }
    }
}

/// No centroid is nearer than the chosen one, and none before it is as near.
pub proof fn no_centroid_is_nearer(d: Seq<i64>, i: int, j: int)
    requires
        is_first_min(d, i),
        0 <= j < d.len(),
    ensures
        0 <= i < d.len(),
        d[i] <= d[j],
        d[i] == d[j] ==> i <= j,
{
}

/// Without a setting the block is the longest of at most twelve coordinates that divides the
/// vector and keeps the index within twelve bits; without such a one it is a single coordinate.
pub proof fn the_longest_trainable_block_is_taken(dim: nat, bits: nat, p: nat, q: nat)
    requires
        is_block_length(dim, bits, None, p),
        1 < q <= 12,
        dim % q == 0,
        bits * q <= 12,
    ensures
        q <= p <= 12,
        dim % p == 0,
        bits * p <= 12,
{
    assert(fits_blocks(dim, bits, q, 12));
}

/// A block length that is set in decimal is taken if it divides the vector and keeps the index
/// within sixteen bits; otherwise it is as if nothing were set.
pub proof fn a_fitting_block_length_is_taken(dim: nat, bits: nat, g: nat, p: nat)
    requires
        g <= usize::MAX,
        is_block_length(dim, bits, Some(decimal(g)), p),
    ensures
        g >= 1 && dim % g == 0 && bits * g <= 16 ==> p == g,
        !(g >= 1 && dim % g == 0 && bits * g <= 16) ==> is_block_length(dim, bits, None, p),
{
    decimal_reads_back(g);
}

/// A sample is picked where the weights up to and with it reach the target, and not before.
pub proof fn a_pick_is_proportional_to_weight(w: Seq<u64>, target: int, i: int, j: int)
    requires
        is_weighted_pick(w, target, i),
    ensures
        0 <= i < w.len(),
        0 <= j < i ==> total(Seq::new((j + 1) as nat, |q: int| w[q] as int)) < target,
        i < w.len() - 1 ==> total(Seq::new((i + 1) as nat, |q: int| w[q] as int)) >= target,
{
    lemma_weights_total(w, i + 1);
    if 0 <= j < i {
        lemma_weights_total(w, j + 1);
        assert(weight_upto(w, j + 1) < target);
    }
}

proof fn lemma_weights_total(w: Seq<u64>, k: int)
    requires
        0 <= k,
    ensures
        weight_upto(w, k) == total(Seq::new(k as nat, |q: int| w[q] as int)),
    decreases k,
{
    let f = |q: int| w[q] as int;
    if k > 0 {
        lemma_weights_total(w, k - 1);
        assert(Seq::new(k as nat, f) =~= Seq::new((k - 1) as nat, f).push(f(k - 1)));
        total_of_push(Seq::new((k - 1) as nat, f), f(k - 1));
    } else {
        total_of_nothing(Seq::new(0, f));
    }
}

/// The starved codewords are exactly those without samples, in order.
pub proof fn codewords_without_samples_are_starved(counts: Seq<u32>, k: int)
    requires
        0 <= k <= counts.len(),
        counts.len() <= usize::MAX,
    ensures
        forall|i: int|
            0 <= i < starved_upto(counts, k).len() ==> (#[trigger] starved_upto(counts, k)[i]) < k
                && counts[starved_upto(counts, k)[i] as int] == 0,
        forall|i: int, j: int|
            0 <= i < j < starved_upto(counts, k).len() ==> (#[trigger] starved_upto(counts, k)[i])
                < (#[trigger] starved_upto(counts, k)[j]),
        forall|c: int|
            0 <= c < k && #[trigger] counts[c] == 0 ==> starved_upto(counts, k).contains(
                c as usize,
            ),
    decreases k,
{
    if k > 0 {
        codewords_without_samples_are_starved(counts, k - 1);
        let a = starved_upto(counts, k - 1);
        let b = starved_upto(counts, k);
        assert forall|c: int| 0 <= c < k && #[trigger] counts[c] == 0 implies b.contains(
            c as usize,
        ) by {
            if c < k - 1 {
                assert(a.contains(c as usize));
                let i = choose|i: int| 0 <= i < a.len() && a[i] == c as usize;
                assert(b[i] == c as usize);
            } else {
                assert(b[b.len() - 1] == c as usize);
            }
        }
    }
}

/// The samples that starved codewords move to are the worst served: they come in order of their
/// distance, the first of equals first.
pub proof fn the_worst_served_samples_come_first(dists: Seq<i64>, i: int, j: int)
    requires
        dists.len() <= i64::MAX,
        0 <= i < j < dists.len(),
    ensures
        ranked(hits_of(dists)).len() == dists.len(),
        0 <= ranked(hits_of(dists))[i].id < dists.len(),
        0 <= ranked(hits_of(dists))[j].id < dists.len(),
        ranked(hits_of(dists))[i].id != ranked(hits_of(dists))[j].id,
        dists[ranked(hits_of(dists))[i].id as int] >= dists[ranked(hits_of(dists))[j].id as int],
        dists[ranked(hits_of(dists))[i].id as int] == dists[ranked(hits_of(dists))[j].id as int]
            ==> ranked(hits_of(dists))[i].id < ranked(hits_of(dists))[j].id,
{
    let n = dists.len();
    lemma_ranked(hits_of(dists));
    the_most_similar_are_named(dists, n, 0);
    let r = ranked(hits_of(dists));
    let ids = hit_ids(top(hits_of(dists), n));
    assert(r.take(n as int) =~= r);
    assert(ids[i] == r[i].id && ids[j] == r[j].id);
}

} // verus!
