//! The flat codec comparison: which codecs are compared, how recall is counted, and how paired
//! differences are resampled.

use vstd::prelude::*;
use vstd::string::StringExecFns;
use vstd::utf8::encode_utf8;

use crate::codecs::{pq_label, pq_label_text};
use crate::ivf::{distinct, first_of, occurs};
use crate::order::{in_order, is_sort_of, merge_sort, Ranked};
use crate::prng::{output, splitmix64, state_after};
use crate::scored::ItemId;
use crate::sums::{total, total_of_push};
use crate::text::{append_decimal, decimal, decimal_reads_back, same_text};

verus! {

/// Which codecs are compared.
#[derive(Clone, Copy, Debug, PartialEq, Eq, Structural)]
pub enum VariantSet {
    /// Marginal shapes, the reference and the residual codec.
    Full,
    /// The reference and the residual codec.
    Lean,
    /// The reference and product quantization.
    Pq,
    /// The reference, anisotropic codebooks and product quantization.
    Aniso,
    /// The reference, residual codes, the trellis, an anisotropic codebook and product
    /// quantization.
    Sota,
    /// The fixed codecs at the same rate.
    Sota3,
}

/// The depths at which recall is reported.
pub const KS: [usize; 3] = [1, 10, 100];

/// One codec of a comparison.
#[derive(Clone, Copy, Debug, PartialEq, Eq, Structural)]
pub enum Variant {
    /// The scalar reference codec.
    Baseline,
    /// The sketched residual codec.
    Residual,
    /// The residual code at the rate of the comparison.
    Rabitq,
    /// The residual code at one bit, for reference.
    RabitqOneBit,
    /// The trellis code.
    Trellis,
    /// The pulse code.
    Pvq,
    /// The optimal-scale code.
    Eden,
    /// The block code.
    Blockquant,
    /// The lattice code.
    E8,
    /// The trellis over lattice cosets.
    CosetTrellis,
    /// Product quantization for the squared error.
    PqMse,
    /// Product quantization for the squared error, named as a data-dependent codec.
    PqDependent,
    /// Product quantization for the squared error, named as the ceiling of the comparison.
    PqCeiling,
    /// Product quantization with an anisotropic loss.
    PqAniso,
    /// An anisotropic codebook with a weight of four, named without a fraction.
    AnisoFour,
    /// An anisotropic codebook; its weight is in tenths.
    Aniso { tenths: u64 },
    /// A codebook for Student's t with `nu` degrees of freedom.
    StudentT { nu: u64, rotated: bool },
    /// A Gaussian codebook without a rotation.
    GaussianRaw,
    /// A codebook fitted to the corpus.
    Corpus { rotated: bool },
}

/// `v` in tenths, with one decimal.
pub open spec fn tenths_text(v: nat) -> Seq<char> {
    decimal(v / 10) + "."@ + decimal(v % 10)
}

impl Variant {
    /// The name of a codec in a comparison at `bits` bits. A codebook fitted to the corpus has
    /// the name of the fitted shape in front.
    pub open spec fn name(self, bits: nat) -> Seq<char> {
        match self {
            Variant::Baseline => "turboquant_baseline"@,
            Variant::Residual => "turboquant_residual"@,
            Variant::Rabitq => "rabitq"@,
            Variant::RabitqOneBit => "rabitq_1bit_ref"@,
            Variant::Trellis => "trellis"@,
            Variant::Pvq => "pvq"@,
            Variant::Eden => "eden"@,
            Variant::Blockquant => "blockquant"@,
            Variant::E8 => "e8"@,
            Variant::CosetTrellis => "coset_trellis"@,
            Variant::PqMse => pq_label_text(bits),
            Variant::PqDependent => pq_label_text(bits) + "_dep"@,
            Variant::PqCeiling => pq_label_text(bits) + "_ceiling"@,
            Variant::PqAniso => "pq_aniso_eta4_"@ + decimal(bits) + "bit"@,
            Variant::AnisoFour => "ultra_aniso_l4"@,
            Variant::Aniso { tenths } => "ultra_aniso_l"@ + tenths_text(tenths as nat),
            Variant::StudentT { nu, rotated } => "ultra_t"@ + decimal(nu as nat) + if rotated {
                "_rot"@
            } else {
                "_raw"@
            },
            Variant::GaussianRaw => "ultra_gaussian_raw"@,
            Variant::Corpus { rotated } => if rotated {
                "_rot"@
            } else {
                "_raw"@
            },
        }
    }

    /// The name of a codec in a comparison at `bits` bits.
    pub fn label(self, bits: u8) -> (s: String)
        ensures
            s@ == self.name(bits as nat),
    {
        match self {
            Variant::Baseline => "turboquant_baseline".to_owned(),
            Variant::Residual => "turboquant_residual".to_owned(),
            Variant::Rabitq => "rabitq".to_owned(),
            Variant::RabitqOneBit => "rabitq_1bit_ref".to_owned(),
            Variant::Trellis => "trellis".to_owned(),
            Variant::Pvq => "pvq".to_owned(),
            Variant::Eden => "eden".to_owned(),
            Variant::Blockquant => "blockquant".to_owned(),
            Variant::E8 => "e8".to_owned(),
            Variant::CosetTrellis => "coset_trellis".to_owned(),
            Variant::PqMse => pq_label(bits),
            Variant::PqDependent => {
                let mut s: String = pq_label(bits);
                s.append("_dep");
                s
            },
            Variant::PqCeiling => {
                let mut s: String = pq_label(bits);
                s.append("_ceiling");
                s
            },
            Variant::PqAniso => {
                let mut s: String = "pq_aniso_eta4_".to_owned();
                append_decimal(&mut s, bits as u64);
                s.append("bit");
                s
            },
            Variant::AnisoFour => "ultra_aniso_l4".to_owned(),
            Variant::Aniso { tenths } => {
                let mut s: String = "ultra_aniso_l".to_owned();
                append_decimal(&mut s, tenths / 10);
                s.append(".");
                append_decimal(&mut s, tenths % 10);
                assert(s@ =~= self.name(bits as nat));
                s
            },
            Variant::StudentT { nu, rotated } => {
                let mut s: String = "ultra_t".to_owned();
                append_decimal(&mut s, nu);
                s.append(
                    if rotated {
                        "_rot"
                    } else {
                        "_raw"
                    },
                );
                s
            },
            Variant::GaussianRaw => "ultra_gaussian_raw".to_owned(),
            Variant::Corpus { rotated } => {
                if rotated {
                    "_rot".to_owned()
                } else {
                    "_raw".to_owned()
                }
            },
        }
    }
}

impl Variant {
    /// Whether a record of the codec holds the exact norm of its vector already.
    pub fn stores_norm(self) -> (r: bool)
        ensures
            r == (self == Variant::Baseline),
    {
        matches!(self, Variant::Baseline)
    }
}

/// Whether the lattice codes support a dimension and a rate.
pub open spec fn lattice_supports(dim: nat, bits: nat) -> bool {
    dim % 8 == 0 && 1 <= bits <= 3
}

/// Whether product quantization spends exactly `bits` bits per coordinate.
pub open spec fn pq_supports(dim: nat, bits: nat) -> bool {
    bits != 0 && 8nat % bits == 0 && dim % (8nat / bits) == 0
}

/// The codecs of a comparison, in order. `only_trellis` narrows the fixed codecs to one;
/// `with_cosets` adds the trellis over lattice cosets to them.
pub open spec fn variant_plan(
    dim: nat,
    bits: nat,
    set: VariantSet,
    only_trellis: bool,
    with_cosets: bool,
) -> Seq<Variant> {
    match set {
        VariantSet::Pq => seq![Variant::Baseline, Variant::PqMse, Variant::PqAniso],
        VariantSet::Sota3 => if only_trellis {
            seq![Variant::Trellis]
        } else {
            seq![Variant::Baseline] + if bits >= 2 {
                seq![Variant::Residual]
            } else {
                Seq::empty()
            } + seq![
                Variant::Rabitq,
                Variant::Trellis,
                Variant::Pvq,
                Variant::Eden,
                Variant::Blockquant,
            ] + if lattice_supports(dim, bits) {
                if with_cosets {
                    seq![Variant::E8, Variant::CosetTrellis]
                } else {
                    seq![Variant::E8]
                }
            } else {
                Seq::empty()
            }
        },
        VariantSet::Sota => seq![
            Variant::Baseline,
            Variant::Rabitq,
            Variant::Trellis,
            Variant::AnisoFour,
            Variant::RabitqOneBit,
        ] + if pq_supports(dim, bits) {
            seq![Variant::PqDependent]
        } else {
            Seq::empty()
        },
        VariantSet::Aniso => seq![
            Variant::Baseline,
            Variant::Aniso { tenths: 5 },
            Variant::Aniso { tenths: 10 },
            Variant::Aniso { tenths: 20 },
            Variant::Aniso { tenths: 40 },
            Variant::Aniso { tenths: 80 },
            Variant::Aniso { tenths: 160 },
        ] + if dim % 2 == 0 {
            seq![Variant::PqCeiling]
        } else {
            Seq::empty()
        },
        VariantSet::Lean => seq![Variant::Baseline, Variant::Residual],
        VariantSet::Full => seq![
            Variant::Baseline,
            Variant::Residual,
            Variant::StudentT { nu: 3, rotated: true },
            Variant::StudentT { nu: 5, rotated: true },
            Variant::Corpus { rotated: true },
            Variant::GaussianRaw,
            Variant::StudentT { nu: 5, rotated: false },
            Variant::Corpus { rotated: false },
        ],
    }
}

/// The codecs of a comparison, in order.
pub fn variants(
    dim: usize,
    bits: u8,
    set: VariantSet,
    only_trellis: bool,
    with_cosets: bool,
) -> (v: Vec<Variant>)
    ensures
        v@ == variant_plan(dim as nat, bits as nat, set, only_trellis, with_cosets),
{
    let mut v: Vec<Variant> = Vec::new();
    match set {
        VariantSet::Pq => {
            v.push(Variant::Baseline);
            v.push(Variant::PqMse);
            v.push(Variant::PqAniso);
        },
        VariantSet::Sota3 => {
            if only_trellis {
                v.push(Variant::Trellis);
            } else {
                v.push(Variant::Baseline);
                if bits >= 2 {
                    v.push(Variant::Residual);
                }
                v.push(Variant::Rabitq);
                v.push(Variant::Trellis);
                v.push(Variant::Pvq);
                v.push(Variant::Eden);
                v.push(Variant::Blockquant);
                if dim % 8 == 0 && 1 <= bits && bits <= 3 {
                    v.push(Variant::E8);
                    if with_cosets {
                        v.push(Variant::CosetTrellis);
                    }
                }
            }
        },
        VariantSet::Sota => {
            v.push(Variant::Baseline);
            v.push(Variant::Rabitq);
            v.push(Variant::Trellis);
            v.push(Variant::AnisoFour);
            v.push(Variant::RabitqOneBit);
            let fits: bool = if bits == 0 || bits > 8 {
                false
            } else {
                assert(8int / bits as int >= 1) by (nonlinear_arith)
                    requires
                        1 <= bits <= 8,
                ;
                8 % bits == 0 && dim % (8 / bits as usize) == 0
            };
            proof {
                if bits > 8 {
                    vstd::arithmetic::div_mod::lemma_small_mod(8, bits as nat);
                }
            }
            if fits {
                v.push(Variant::PqDependent);
            }
        },
        VariantSet::Aniso => {
            v.push(Variant::Baseline);
            v.push(Variant::Aniso { tenths: 5 });
            v.push(Variant::Aniso { tenths: 10 });
            v.push(Variant::Aniso { tenths: 20 });
            v.push(Variant::Aniso { tenths: 40 });
            v.push(Variant::Aniso { tenths: 80 });
            v.push(Variant::Aniso { tenths: 160 });
            if dim % 2 == 0 {
                v.push(Variant::PqCeiling);
            }
        },
        VariantSet::Lean => {
            v.push(Variant::Baseline);
            v.push(Variant::Residual);
        },
        VariantSet::Full => {
            v.push(Variant::Baseline);
            v.push(Variant::Residual);
            v.push(Variant::StudentT { nu: 3, rotated: true });
            v.push(Variant::StudentT { nu: 5, rotated: true });
            v.push(Variant::Corpus { rotated: true });
            v.push(Variant::GaussianRaw);
            v.push(Variant::StudentT { nu: 5, rotated: false });
            v.push(Variant::Corpus { rotated: false });
        },
    }
    assert(v@ =~= variant_plan(dim as nat, bits as nat, set, only_trellis, with_cosets));
    v
}

/// The reference codec leads every comparison but the one narrowed to the trellis, so that
/// later codecs can be measured against it.
pub proof fn the_reference_leads(
    dim: nat,
    bits: nat,
    set: VariantSet,
    only_trellis: bool,
    with_cosets: bool,
)
    ensures
        ({
            let plan = variant_plan(dim, bits, set, only_trellis, with_cosets);
            &&& plan.len() > 0
            &&& plan[0] == Variant::Baseline || (set == VariantSet::Sota3 && only_trellis)
        }),
{
}

/// The trellis over lattice cosets is compared only where the lattice itself is.
pub proof fn cosets_come_with_the_lattice(
    dim: nat,
    bits: nat,
    set: VariantSet,
    only_trellis: bool,
    with_cosets: bool,
)
    requires
        variant_plan(dim, bits, set, only_trellis, with_cosets).contains(Variant::CosetTrellis),
    ensures
        variant_plan(dim, bits, set, only_trellis, with_cosets).contains(Variant::E8),
        lattice_supports(dim, bits),
{
    let plan = variant_plan(dim, bits, set, only_trellis, with_cosets);
    let i = choose|i: int| 0 <= i < plan.len() && plan[i] == Variant::CosetTrellis;
    assert(set == VariantSet::Sota3 && !only_trellis);
    assert(lattice_supports(dim, bits) && with_cosets);
    assert(plan[plan.len() - 2] == Variant::E8);
}

/// How vectors are centered before they are coded.
#[derive(Clone, Copy, Debug, PartialEq, Eq, Structural)]
pub enum Centering {
    /// Not at all.
    Off,
    /// On the mean of all vectors.
    Mean,
    /// On the nearest of several centroids.
    Lists { nlist: usize },
}

/// How vectors are centered: on two or more lists if that many are asked for, else on the mean
/// if one list or centering is asked for.
pub fn centering(nlist: usize, center: bool) -> (c: Centering)
    ensures
        c == if nlist >= 2 {
            Centering::Lists { nlist }
        } else if nlist == 1 || center {
            Centering::Mean
        } else {
            Centering::Off
        },
{
    if nlist >= 2 {
        Centering::Lists { nlist }
    } else if nlist == 1 || center {
        Centering::Mean
    } else {
        Centering::Off
    }
}

// ---- Recall ----

/// The items that two lists have in common among their first `k`.
pub open spec fn common(gold: Seq<ItemId>, got: Seq<ItemId>, k: nat) -> Set<ItemId> {
    first_of(gold, k).to_set().intersect(first_of(got, k).to_set())
}

/// How many items two lists have in common among their first `k`.
fn common_count(gold: &Vec<ItemId>, got: &Vec<ItemId>, k: usize) -> (n: usize)
    ensures
        n == common(gold@, got@, k as nat).len(),
        n <= got.len(),
{
    let end: usize = if k < got.len() {
        k
    } else {
        got.len()
    };
    let deep: usize = if k < gold.len() {
        k
    } else {
        gold.len()
    };
    let ghost g = gold@.take(deep as int).to_set();
    let mut n: usize = 0;
    let mut i: usize = 0;
    proof {
        assert(g.intersect(got@.take(0).to_set()) =~= Set::empty());
    }
    while i < end
        invariant
            i <= end <= got.len(),
            deep <= gold.len(),
            g == gold@.take(deep as int).to_set(),
            n <= i,
            n == g.intersect(got@.take(i as int).to_set()).len(),
            g.intersect(got@.take(i as int).to_set()).finite(),
        decreases end - i,
    {
        let x: ItemId = got[i];
        let known: bool = occurs(gold, deep, x);
        let again: bool = occurs(got, i, x);
        proof {
            let a = got@.take(i as int);
            let b = got@.take(i + 1);
            assert(b =~= a.push(x));
            a.lemma_push_to_set_commute(x);
            let s = g.intersect(a.to_set());
            let t = g.intersect(b.to_set());
            if known && !again {
                assert(t =~= s.insert(x));
            } else {
                assert(t =~= s);
            }
        }
        if known && !again {
            n += 1;
        }
        i += 1;
    }
    n
}

/// Recall of one query at the three reported depths: items found, and items to be found.
#[derive(Clone, Copy, Debug, PartialEq, Eq)]
pub struct QueryRecall {
    pub hits: (usize, usize, usize),
    pub gold: (usize, usize, usize),
}

/// What one query found of what was to be found at depth `k`.
pub open spec fn found_at(gold: Seq<ItemId>, got: Seq<ItemId>, k: nat) -> (nat, nat) {
    (common(gold, got, k).len(), first_of(gold, k).to_set().len())
}

/// The recall of one query.
pub open spec fn is_query_recall(gold: Seq<ItemId>, got: Seq<ItemId>, r: QueryRecall) -> bool {
    &&& (r.hits.0 as nat, r.gold.0 as nat) == found_at(gold, got, 1)
    &&& (r.hits.1 as nat, r.gold.1 as nat) == found_at(gold, got, 10)
    &&& (r.hits.2 as nat, r.gold.2 as nat) == found_at(gold, got, 100)
}

/// The recall of one query.
pub fn query_recall(gold: &Vec<ItemId>, got: &Vec<ItemId>) -> (r: QueryRecall)
    ensures
        is_query_recall(gold@, got@, r),
        r.hits.1 <= r.gold.1 <= 10,
{
    proof {
        lemma_common_bounded(gold@, got@, 10);
    }
    QueryRecall {
        hits: (
            common_count(gold, got, 1),
            common_count(gold, got, 10),
            common_count(gold, got, 100),
        ),
        gold: (distinct(gold, 1), distinct(gold, 10), distinct(gold, 100)),
    }
}

/// A query finds no more than there is to be found.
proof fn lemma_common_bounded(gold: Seq<ItemId>, got: Seq<ItemId>, k: nat)
    ensures
        common(gold, got, k).len() <= first_of(gold, k).to_set().len(),
{
    vstd::seq_lib::seq_to_set_is_finite(first_of(gold, k));
    vstd::set_lib::lemma_len_subset(common(gold, got, k), first_of(gold, k).to_set());
}

/// Recall is never more than one.
pub proof fn recall_is_at_most_one(gold: Seq<ItemId>, got: Seq<ItemId>, k: nat)
    ensures
        found_at(gold, got, k).0 <= found_at(gold, got, k).1,
{
    lemma_common_bounded(gold, got, k);
}

/// Results that are the gold list find everything.
pub proof fn perfect_results_have_full_recall(gold: Seq<ItemId>, k: nat)
    ensures
        found_at(gold, gold, k).0 == found_at(gold, gold, k).1,
{
    assert(common(gold, gold, k) =~= first_of(gold, k).to_set());
}

/// The recall of each query that has both a gold list and results.
pub fn recall_per_query(gold: &Vec<Vec<ItemId>>, got: &Vec<Vec<ItemId>>) -> (rows: Vec<QueryRecall>)
    ensures
        rows.len() == if gold.len() < got.len() {
            gold.len()
        } else {
            got.len()
        },
        forall|i: int|
            0 <= i < rows.len() ==> is_query_recall(gold@[i]@, got@[i]@, #[trigger] rows@[i])
                && rows@[i].hits.1 <= rows@[i].gold.1 <= 10,
{
    let n: usize = if gold.len() < got.len() {
        gold.len()
    } else {
        got.len()
    };
    let mut rows: Vec<QueryRecall> = Vec::with_capacity(n);
    let mut i: usize = 0;
    while i < n
        invariant
            i <= n,
            n <= gold.len(),
            n <= got.len(),
            rows.len() == i,
            forall|q: int|
                0 <= q < i ==> is_query_recall(gold@[q]@, got@[q]@, #[trigger] rows@[q])
                    && rows@[q].hits.1 <= rows@[q].gold.1 <= 10,
        decreases n - i,
    {
        rows.push(query_recall(&gold[i], &got[i]));
        i += 1;
    }
    rows
}

// ---- Paired differences ----

/// Recall at depth ten in units of `1 / 2520`, of which every such recall is a whole number:
/// at most ten items are to be found. Nothing to be found counts as no recall.
pub open spec fn recall_units(hits: nat, gold: nat) -> nat {
    if gold == 0 {
        0
    } else {
        hits * 2520 / gold
    }
}

/// Units lose nothing: they are the exact recall.
pub proof fn recall_units_are_exact(hits: nat, gold: nat)
    requires
        1 <= gold <= 10,
    ensures
        recall_units(hits, gold) * gold == hits * 2520,
{
    let q = 2520nat / gold;
    assert(q * gold == 2520) by (nonlinear_arith)
        requires
            q == 2520nat / gold,
            gold == 1 || gold == 2 || gold == 3 || gold == 4 || gold == 5 || gold == 6 || gold == 7
                || gold == 8 || gold == 9 || gold == 10,
    ;
    assert(hits * 2520 == (hits * q) * gold) by (nonlinear_arith)
        requires
            q * gold == 2520,
    ;
    vstd::arithmetic::div_mod::lemma_div_by_multiple((hits * q) as int, gold as int);
    assert(gold * (hits * q) == (hits * q) * gold) by (nonlinear_arith);
}

/// Recall at depth ten, in units.
pub fn units_of(r: &QueryRecall) -> (u: u32)
    requires
        r.hits.1 <= r.gold.1 <= 10,
    ensures
        u == recall_units(r.hits.1 as nat, r.gold.1 as nat),
        u <= 2520,
{
    if r.gold.1 == 0 {
        0
    } else {
        let h: u32 = r.hits.1 as u32;
        let g: u32 = r.gold.1 as u32;
        assert(h * 2520 / g as int <= 2520) by (nonlinear_arith)
            requires
                0 <= h <= g,
                g > 0,
        ;
        h * 2520 / g
    }
}

/// How often differences are resampled.
pub const BOOTSTRAP_SAMPLES: usize = 10_000;

/// The sum of the first `t` draws of resample `j`.
pub open spec fn resample_sum(diffs: Seq<i32>, seed: u64, j: nat, t: nat) -> int
    decreases t,
{
    if t == 0 {
        0
    } else {
        let at = output(seed, (j * diffs.len() + t - 1) as nat) as nat % diffs.len();
        resample_sum(diffs, seed, j, (t - 1) as nat) + diffs[at as int]
    }
}

/// The sums of the first `n` resamples.
pub open spec fn resample_sums(diffs: Seq<i32>, seed: u64, n: nat) -> Seq<i64> {
    Seq::new(n, |j: int| resample_sum(diffs, seed, j as nat, diffs.len()) as i64)
}

/// The sum of the first `k` differences.
pub open spec fn diff_sum(diffs: Seq<i32>, k: int) -> int
    decreases k,
{
    if k <= 0 {
        0
    } else {
        diff_sum(diffs, k - 1) + diffs[k - 1]
    }
}

/// Sums in ascending order.
#[derive(Clone, Copy, Debug, PartialEq, Eq, Structural)]
pub struct Sum {
    pub v: i64,
}

impl Ranked for Sum {
    open spec fn leq(self, other: Self) -> bool {
        self.v <= other.v
    }

    proof fn leq_total(a: Self, b: Self) {
    }

    proof fn leq_trans(a: Self, b: Self, c: Self) {
    }

    fn no_later(&self, other: &Self) -> (r: bool) {
        self.v <= other.v
    }
}

/// `v` has rank `r` among `sums`: with the sums in ascending order it is the `r`-th, counted
/// from zero.
pub open spec fn has_rank(sums: Seq<i64>, r: int, v: i64) -> bool {
    exists|sorted: Seq<Sum>| #[trigger]
        is_sort_of(wrapped(sums), sorted) && 0 <= r < sorted.len() && sorted[r].v == v
}

/// Numbers as sums.
pub open spec fn wrapped(sums: Seq<i64>) -> Seq<Sum> {
    Seq::new(sums.len(), |i: int| Sum { v: sums[i] })
}

/// The differences are small enough to sum.
pub open spec fn small_diffs(diffs: Seq<i32>) -> bool {
    &&& diffs.len() <= u32::MAX
    &&& forall|i: int| 0 <= i < diffs.len() ==> -2520 <= (#[trigger] diffs[i]) <= 2520
}

proof fn lemma_resample_bound(diffs: Seq<i32>, seed: u64, j: nat, t: nat)
    requires
        small_diffs(diffs),
        diffs.len() > 0,
    ensures
        -2520 * t <= resample_sum(diffs, seed, j, t) <= 2520 * t,
    decreases t,
{
    if t > 0 {
        lemma_resample_bound(diffs, seed, j, (t - 1) as nat);
        let z = output(seed, (j * diffs.len() + t - 1) as nat) as nat;
        vstd::arithmetic::div_mod::lemma_mod_bound(z as int, diffs.len() as int);
        assert(-2520 <= diffs[(z % diffs.len()) as int] <= 2520);
    }
}

/// Resamples paired differences: the sum of all differences, and the sums at ranks 250 and 9749
/// of the resampled sums, which bound the middle 95 percent. Without differences all are zero.
pub fn paired_bootstrap_r10(diffs: &Vec<i32>, seed: u64) -> (r: (i64, i64, i64))
    requires
        small_diffs(diffs@),
    ensures
        r.0 == diff_sum(diffs@, diffs@.len() as int),
        if diffs.len() == 0 {
            r.1 == 0 && r.2 == 0
        } else {
            let sums = resample_sums(diffs@, seed, BOOTSTRAP_SAMPLES as nat);
            has_rank(sums, 250, r.1) && has_rank(sums, 9749, r.2)
        },
{
    let n: usize = diffs.len();
    let mut total: i64 = 0;
    let mut i: usize = 0;
    while i < n
        invariant
            i <= n == diffs.len(),
            small_diffs(diffs@),
            total == diff_sum(diffs@, i as int),
            -2520 * i <= total <= 2520 * i,
        decreases n - i,
    {
        assert(-2520 <= diffs@[i as int] <= 2520);
        total = total + diffs[i] as i64;
        i += 1;
    }
    if n == 0 {
        return (0, 0, 0);
    }
    let mut sums: Vec<Sum> = Vec::with_capacity(BOOTSTRAP_SAMPLES);
    let mut state: u64 = seed;
    let mut j: usize = 0;
    while j < BOOTSTRAP_SAMPLES
        invariant
            j <= BOOTSTRAP_SAMPLES,
            n == diffs.len(),
            0 < n,
            small_diffs(diffs@),
            state == state_after(seed, (j * n) as nat),
            sums.len() == j,
            forall|q: int|
                0 <= q < j ==> (#[trigger] sums@[q]).v == resample_sum(
                    diffs@,
                    seed,
                    q as nat,
                    n as nat,
                ),
        decreases BOOTSTRAP_SAMPLES - j,
    {
        let mut s: i64 = 0;
        let mut t: usize = 0;
        let ghost base = j * n;
        assert(base >= 0) by (nonlinear_arith)
            requires
                base == j * n,
                j >= 0,
                n >= 0,
        ;
        while t < n
            invariant
                t <= n == diffs.len(),
                0 < n,
                small_diffs(diffs@),
                base == j * n,
                base >= 0,
                state == state_after(seed, (base + t) as nat),
                s == resample_sum(diffs@, seed, j as nat, t as nat),
                -2520 * t <= s <= 2520 * t,
            decreases n - t,
        {
            let z: u64 = splitmix64(&mut state);
            proof {
                assert(z == output(seed, (base + t) as nat));
                vstd::arithmetic::div_mod::lemma_mod_bound(z as int, n as int);
            }
            let at: usize = (z % n as u64) as usize;
            assert(-2520 <= diffs@[at as int] <= 2520);
            s = s + diffs[at] as i64;
            t += 1;
        }
        assert((j + 1) * n == j * n + n) by (nonlinear_arith);
        sums.push(Sum { v: s });
        j += 1;
    }
    let sorted: Vec<Sum> = merge_sort(&sums);
    proof {
        let all = resample_sums(diffs@, seed, BOOTSTRAP_SAMPLES as nat);
        assert forall|q: int| 0 <= q < BOOTSTRAP_SAMPLES implies all[q] == (#[trigger] sums@[q]).v by {
            lemma_resample_bound(diffs@, seed, q as nat, n as nat);
        }
        assert(wrapped(all) =~= sums@);
        assert(is_sort_of(wrapped(all), sorted@));
    }
    (total, sorted[250].v, sorted[9749].v)
}

/// If all differences are the same, every resample sums to the same, and so do the bounds.
pub proof fn bootstrap_preserves_a_fixed_difference(
    diffs: Seq<i32>,
    d: i32,
    seed: u64,
    r: int,
    v: i64,
)
    requires
        small_diffs(diffs),
        diffs.len() > 0,
        forall|i: int| 0 <= i < diffs.len() ==> #[trigger] diffs[i] == d,
        has_rank(resample_sums(diffs, seed, BOOTSTRAP_SAMPLES as nat), r, v),
    ensures
        v == diff_sum(diffs, diffs.len() as int),
{
    broadcast use vstd::seq_lib::group_to_multiset_ensures;

    let sums = resample_sums(diffs, seed, BOOTSTRAP_SAMPLES as nat);
    lemma_fixed_sum(diffs, d, diffs.len() as int);
    assert forall|j: int| 0 <= j < sums.len() implies #[trigger] sums[j] == diff_sum(
        diffs,
        diffs.len() as int,
    ) by {
        lemma_fixed_resample(diffs, d, seed, j as nat, diffs.len());
        lemma_resample_bound(diffs, seed, j as nat, diffs.len());
    }
    let sorted = choose|sorted: Seq<Sum>| #[trigger]
        is_sort_of(wrapped(sums), sorted) && 0 <= r < sorted.len() && sorted[r].v == v;
    assert(sorted.to_multiset().count(sorted[r]) > 0);
    assert(wrapped(sums).contains(sorted[r]));
    let j = choose|j: int| 0 <= j < wrapped(sums).len() && wrapped(sums)[j] == sorted[r];
    assert(sums[j] == v);
}

proof fn lemma_fixed_sum(diffs: Seq<i32>, d: i32, k: int)
    requires
        0 <= k <= diffs.len(),
        forall|i: int| 0 <= i < diffs.len() ==> #[trigger] diffs[i] == d,
    ensures
        diff_sum(diffs, k) == k * d,
    decreases k,
{
    if k > 0 {
        lemma_fixed_sum(diffs, d, k - 1);
        assert(diffs[k - 1] == d);
        assert((k - 1) * d + d == k * d) by (nonlinear_arith);
    } else {
        assert(0 * d == 0);
    }
}

proof fn lemma_fixed_resample(diffs: Seq<i32>, d: i32, seed: u64, j: nat, t: nat)
    requires
        diffs.len() > 0,
        forall|i: int| 0 <= i < diffs.len() ==> #[trigger] diffs[i] == d,
    ensures
        resample_sum(diffs, seed, j, t) == t * d,
    decreases t,
{
    if t > 0 {
        lemma_fixed_resample(diffs, d, seed, j, (t - 1) as nat);
        let z = output(seed, (j * diffs.len() + t - 1) as nat) as nat;
        vstd::arithmetic::div_mod::lemma_mod_bound(z as int, diffs.len() as int);
        assert(diffs[(z % diffs.len()) as int] == d);
        assert((t - 1) * d + d == t * d) by (nonlinear_arith);
    } else {
        assert(0 * d == 0);
    }
}

/// The hash of the first `k` bytes of a label.
pub open spec fn label_hash(bytes: Seq<u8>, k: int) -> u64
    decreases k,
{
    if k <= 0 {
        0xcbf2_9ce4_8422_2325
    } else {
        (label_hash(bytes, k - 1) ^ (bytes[k - 1] as u64)).wrapping_mul(0x0000_0100_0000_01b3)
    }
}

/// A seed that depends on a label alone.
pub fn stable_label_seed(label: &str) -> (h: u64)
    ensures
        h == label_hash(encode_utf8(label@), encode_utf8(label@).len() as int),
{
    let bytes: &[u8] = label.as_bytes();
    let mut h: u64 = 0xcbf2_9ce4_8422_2325;
    let mut i: usize = 0;
    while i < bytes.len()
        invariant
            i <= bytes.len(),
            bytes@ == encode_utf8(label@),
            h == label_hash(bytes@, i as int),
        decreases bytes.len() - i,
    {
        h = (h ^ (bytes[i] as u64)).wrapping_mul(0x0000_0100_0000_01b3);
        i += 1;
    }
    h
}

/// The seed of the comparison with one codec: of the run, the rate and the codec's name.
pub fn bootstrap_seed(seed: u64, bits: u8, label: &str) -> (s: u64)
    ensures
        s == seed ^ ((bits as u64) << 56) ^ label_hash(
            encode_utf8(label@),
            encode_utf8(label@).len() as int,
        ),
{
    seed ^ ((bits as u64) << 56) ^ stable_label_seed(label)
}

/// The recall of one codec on every query.
pub struct CodecRecall {
    pub quantizer: String,
    pub per_query: Vec<QueryRecall>,
}

/// The difference of the trellis to another codec, in units over all queries, with its bounds.
#[derive(Clone, Copy, Debug, PartialEq, Eq, Structural)]
pub struct PairedRecallDelta {
    /// Which row the comparator is.
    pub comparator: usize,
    pub bits: u8,
    pub delta: i64,
    pub ci_low: i64,
    pub ci_high: i64,
}

/// The recall of every query is well formed.
pub open spec fn recall_ok(rows: Seq<QueryRecall>) -> bool {
    &&& rows.len() <= u32::MAX
    &&& forall|i: int|
        0 <= i < rows.len() ==> (#[trigger] rows[i]).hits.1 <= rows[i].gold.1 <= 10
}

/// The differences of two codecs at depth ten, query by query, in units.
pub open spec fn unit_diffs(a: Seq<QueryRecall>, b: Seq<QueryRecall>) -> Seq<i32> {
    Seq::new(
        a.len(),
        |i: int|
            (recall_units(a[i].hits.1 as nat, a[i].gold.1 as nat) - recall_units(
                b[i].hits.1 as nat,
                b[i].gold.1 as nat,
            )) as i32,
    )
}

fn diffs_of(a: &Vec<QueryRecall>, b: &Vec<QueryRecall>) -> (d: Vec<i32>)
    requires
        a.len() == b.len(),
        recall_ok(a@),
        recall_ok(b@),
    ensures
        d@ == unit_diffs(a@, b@),
        small_diffs(d@),
{
    let mut d: Vec<i32> = Vec::with_capacity(a.len());
    let mut i: usize = 0;
    while i < a.len()
        invariant
            i <= a.len() == b.len(),
            recall_ok(a@),
            recall_ok(b@),
            d.len() == i,
            forall|q: int|
                0 <= q < i ==> #[trigger] d@[q] == unit_diffs(a@, b@)[q] && -2520 <= d@[q] <= 2520,
        decreases a.len() - i,
    {
        assert(a@[i as int].hits.1 <= a@[i as int].gold.1 <= 10);
        assert(b@[i as int].hits.1 <= b@[i as int].gold.1 <= 10);
        let x: u32 = units_of(&a[i]);
        let y: u32 = units_of(&b[i]);
        d.push(x as i32 - y as i32);
        i += 1;
    }
    assert(d@ =~= unit_diffs(a@, b@));
    d
}

/// The first row with a name; the number of rows if there is none.
pub open spec fn is_first_named(rows: Seq<CodecRecall>, name: Seq<char>, i: int) -> bool {
    &&& 0 <= i <= rows.len()
    &&& i < rows.len() ==> rows[i].quantizer@ == name
    &&& forall|j: int| 0 <= j < i ==> (#[trigger] rows[j]).quantizer@ != name
}

fn first_named(rows: &Vec<CodecRecall>, name: &str) -> (i: usize)
    ensures
        is_first_named(rows@, name@, i as int),
{
    let mut i: usize = 0;
    while i < rows.len()
        invariant
            i <= rows.len(),
            forall|j: int| 0 <= j < i ==> (#[trigger] rows@[j]).quantizer@ != name@,
        decreases rows.len() - i,
    {
        if same_text(rows[i].quantizer.as_str(), name) {
            return i;
        }
        i += 1;
    }
    i
}

/// The rows among the first `k` that are not the trellis, in order.
pub open spec fn comparators(rows: Seq<CodecRecall>, k: int) -> Seq<usize>
    decreases k,
{
    if k <= 0 {
        Seq::empty()
    } else if rows[k - 1].quantizer@ != "trellis"@ {
        comparators(rows, k - 1).push((k - 1) as usize)
    } else {
        comparators(rows, k - 1)
    }
}

/// `p` compares the trellis, row `t`, with its comparator.
pub open spec fn is_comparison(
    rows: Seq<CodecRecall>,
    t: int,
    bits: u8,
    seed: u64,
    p: PairedRecallDelta,
) -> bool {
    let c = p.comparator as int;
    let d = unit_diffs(rows[t].per_query@, rows[c].per_query@);
    let bytes = encode_utf8(rows[c].quantizer@);
    &&& p.bits == bits
    &&& p.delta == diff_sum(d, d.len() as int)
    &&& d.len() == 0 ==> p.ci_low == 0 && p.ci_high == 0
    &&& d.len() > 0 ==> {
        let sums = resample_sums(
            d,
            seed ^ ((bits as u64) << 56) ^ label_hash(bytes, bytes.len() as int),
            BOOTSTRAP_SAMPLES as nat,
        );
        has_rank(sums, 250, p.ci_low) && has_rank(sums, 9749, p.ci_high)
    }
}

/// Compares the trellis with every other codec of a rate; without the trellis there is nothing
/// to compare.
pub fn append_paired_r10(rows: &Vec<CodecRecall>, bits: u8, seed: u64) -> (out: Vec<
    PairedRecallDelta,
>)
    requires
        forall|i: int| 0 <= i < rows.len() ==> recall_ok((#[trigger] rows@[i]).per_query@),
        forall|i: int, j: int|
            0 <= i < rows.len() && 0 <= j < rows.len() ==> (#[trigger] rows@[i]).per_query@.len()
                == (#[trigger] rows@[j]).per_query@.len(),
    ensures
        exists|t: int| #[trigger]
            is_first_named(rows@, "trellis"@, t) && if t == rows.len() {
                out.len() == 0
            } else {
                &&& out.len() == comparators(rows@, rows@.len() as int).len()
                &&& forall|i: int|
                    0 <= i < out.len() ==> (#[trigger] out@[i]).comparator == comparators(
                        rows@,
                        rows@.len() as int,
                    )[i] && is_comparison(rows@, t, bits, seed, out@[i])
            },
{
    let mut out: Vec<PairedRecallDelta> = Vec::new();
    let t: usize = first_named(rows, "trellis");
    if t == rows.len() {
        return out;
    }
    let mut c: usize = 0;
    while c < rows.len()
        invariant
            c <= rows.len(),
            t < rows.len(),
            forall|i: int| 0 <= i < rows.len() ==> recall_ok((#[trigger] rows@[i]).per_query@),
            forall|i: int, j: int|
                0 <= i < rows.len() && 0 <= j < rows.len() ==> (
                #[trigger] rows@[i]).per_query@.len() == (#[trigger] rows@[j]).per_query@.len(),
            out.len() == comparators(rows@, c as int).len(),
            forall|i: int|
                0 <= i < out.len() ==> (#[trigger] out@[i]).comparator == comparators(
                    rows@,
                    c as int,
                )[i] && is_comparison(rows@, t as int, bits, seed, out@[i]),
        decreases rows.len() - c,
    {
        if !same_text(rows[c].quantizer.as_str(), "trellis") {
            assert(rows@[t as int].per_query@.len() == rows@[c as int].per_query@.len());
            let d: Vec<i32> = diffs_of(&rows[t].per_query, &rows[c].per_query);
            let s: u64 = bootstrap_seed(seed, bits, rows[c].quantizer.as_str());
            let (delta, ci_low, ci_high): (i64, i64, i64) = paired_bootstrap_r10(&d, s);
            out.push(PairedRecallDelta { comparator: c, bits, delta, ci_low, ci_high });
        }
        c += 1;
    }
    assert(is_first_named(rows@, "trellis"@, t as int));
    out
}

/// How a comparison turned out: a lead or a lag needs bounds that leave out zero.
#[derive(Clone, Copy, Debug, PartialEq, Eq, Structural)]
pub enum Outcome {
    Lead,
    Behind,
    Tied,
}

impl PairedRecallDelta {
    /// How the comparison turned out.
    pub fn outcome(&self) -> (o: Outcome)
        ensures
            o == if self.ci_low > 0 {
                Outcome::Lead
            } else if self.ci_high < 0 {
                Outcome::Behind
            } else {
                Outcome::Tied
            },
    {
        if self.ci_low > 0 {
            Outcome::Lead
        } else if self.ci_high < 0 {
            Outcome::Behind
        } else {
            Outcome::Tied
        }
    }
}

/// Recall at depth ten over the first `k` queries, in units.
pub open spec fn units_upto(rows: Seq<QueryRecall>, k: int) -> int
    decreases k,
{
    if k <= 0 {
        0
    } else {
        units_upto(rows, k - 1) + recall_units(
            rows[k - 1].hits.1 as nat,
            rows[k - 1].gold.1 as nat,
        )
    }
}

/// Recall at depth ten over all queries, in units.
pub fn total_units(rows: &Vec<QueryRecall>) -> (u: u64)
    requires
        recall_ok(rows@),
    ensures
        u == units_upto(rows@, rows@.len() as int),
        u <= 2520 * rows.len(),
{
    let mut u: u64 = 0;
    let mut i: usize = 0;
    while i < rows.len()
        invariant
            i <= rows.len() <= u32::MAX,
            recall_ok(rows@),
            u == units_upto(rows@, i as int),
            u <= 2520 * i,
        decreases rows.len() - i,
    {
        assert(rows@[i as int].hits.1 <= rows@[i as int].gold.1 <= 10);
        u = u + units_of(&rows[i]) as u64;
        i += 1;
    }
    u
}

/// Whether a codec gains at least three percentage points of recall over the reference, given
/// the totals of both over `n` queries: one point is 25.2 units per query.
pub fn gains_three_points(units: u64, reference: u64, n: u32) -> (r: bool)
    requires
        units <= 2520 * n,
        reference <= 2520 * n,
    ensures
        n > 0 ==> r == (100 * (units - reference) >= 7560 * n),
        n == 0 ==> !r,
{
    if n == 0 {
        return false;
    }
    let gain: i128 = 100 * (units as i128 - reference as i128);
    let need: i128 = 7560 * (n as i128);
    gain >= need
}

/// The recall of the reference that the `i`-th codec is held against: the last reference before
/// it, nothing if there is none.
pub open spec fn reference_units(rows: Seq<CodecRecall>, i: int) -> int
    decreases i,
{
    if i <= 0 {
        0
    } else if rows[i - 1].quantizer@ == "turboquant_baseline"@ {
        units_upto(rows[i - 1].per_query@, rows[i - 1].per_query@.len() as int)
    } else {
        reference_units(rows, i - 1)
    }
}

/// The gain of the `i`-th codec over its reference, in units over all queries.
pub open spec fn gain_units(rows: Seq<CodecRecall>, i: int) -> int {
    units_upto(rows[i].per_query@, rows[i].per_query@.len() as int) - reference_units(rows, i)
}

/// Which of the first `n` codecs are held against a reference: all but the references.
pub open spec fn challengers(rows: Seq<CodecRecall>, n: int) -> Seq<int>
    decreases n,
{
    if n <= 0 {
        Seq::empty()
    } else if rows[n - 1].quantizer@ == "turboquant_baseline"@ {
        challengers(rows, n - 1)
    } else {
        challengers(rows, n - 1).push(n - 1)
    }
}

/// Whether the `i`-th codec gains at least three percentage points.
pub open spec fn gains_much(rows: Seq<CodecRecall>, i: int) -> bool {
    &&& rows[i].per_query@.len() > 0
    &&& 100 * gain_units(rows, i) >= 7560 * rows[i].per_query@.len()
}

/// The gain of a codec over the reference, in units over all queries.
#[derive(Clone, Copy, Debug, PartialEq, Eq)]
pub struct RecallDelta {
    pub row: usize,
    pub gain: i64,
}

/// The gains of the codecs of a rate over the reference, and whether one of them is at least
/// three percentage points.
pub fn recall_deltas(rows: &Vec<CodecRecall>) -> (r: (Vec<RecallDelta>, bool))
    requires
        forall|i: int| 0 <= i < rows.len() ==> recall_ok((#[trigger] rows@[i]).per_query@),
        forall|i: int, j: int|
            0 <= i < rows.len() && 0 <= j < rows.len() ==> (#[trigger] rows@[i]).per_query@.len()
                == (#[trigger] rows@[j]).per_query@.len(),
    ensures
        r.0.len() == challengers(rows@, rows@.len() as int).len(),
        forall|k: int|
            0 <= k < r.0.len() ==> (#[trigger] r.0@[k]).row == challengers(
                rows@,
                rows@.len() as int,
            )[k] && r.0@[k].gain == gain_units(rows@, r.0@[k].row as int),
        r.1 == exists|k: int| 0 <= k < r.0.len() && gains_much(rows@, (#[trigger] r.0@[k]).row as int),
{
    let mut out: Vec<RecallDelta> = Vec::new();
    let mut much: bool = false;
    let mut reference: u64 = 0;
    let mut i: usize = 0;
    while i < rows.len()
        invariant
            i <= rows.len(),
            forall|q: int| 0 <= q < rows.len() ==> recall_ok((#[trigger] rows@[q]).per_query@),
            forall|a: int, b: int|
                0 <= a < rows.len() && 0 <= b < rows.len() ==> (#[trigger] rows@[a]).per_query@.len()
                    == (#[trigger] rows@[b]).per_query@.len(),
            reference == reference_units(rows@, i as int),
            i < rows.len() ==> reference <= 2520 * rows@[i as int].per_query@.len(),
            out.len() == challengers(rows@, i as int).len(),
            forall|k: int|
                0 <= k < out.len() ==> (#[trigger] out@[k]).row == challengers(rows@, i as int)[k]
                    && out@[k].row < i && out@[k].gain == gain_units(rows@, out@[k].row as int),
            much == exists|k: int|
                0 <= k < out.len() && gains_much(rows@, (#[trigger] out@[k]).row as int),
        decreases rows.len() - i,
    {
        let row: &CodecRecall = &rows[i];
        assert(recall_ok(rows@[i as int].per_query@));
        let units: u64 = total_units(&row.per_query);
        let n: usize = row.per_query.len();
        if same_text(row.quantizer.as_str(), "turboquant_baseline") {
            reference = units;
        } else {
            let ghost before = out@;
            let gain: i64 = units as i64 - reference as i64;
            let gains: bool = gains_three_points(units, reference, n as u32);
            out.push(RecallDelta { row: i, gain });
            proof {
                assert(gains == gains_much(rows@, i as int));
                assert(out@[before.len() as int].row == i);
                assert forall|k: int| 0 <= k < before.len() implies #[trigger] out@[k]
                    == before[k] by {}
                if much {
                    let k = choose|k: int|
                        0 <= k < before.len() && gains_much(rows@, (#[trigger] before[k]).row as int);
                    assert(out@[k] == before[k]);
                }
                if exists|k: int|
                    0 <= k < out.len() && gains_much(rows@, (#[trigger] out@[k]).row as int) {
                    let k = choose|k: int|
                        0 <= k < out.len() && gains_much(rows@, (#[trigger] out@[k]).row as int);
                    if k < before.len() {
                        assert(gains_much(rows@, before[k].row as int));
                    }
                }
            }
            much = much || gains;
        }
        proof {
            if i + 1 < rows.len() {
                assert(rows@[i + 1].per_query@.len() == rows@[i as int].per_query@.len());
            }
        }
        i += 1;
    }
    (out, much)
}

// ---- Streams ----

/// The first cluster that is still live when cluster `gi` has arrived: with a window only the
/// last `w` clusters are.
pub fn first_live(gi: usize, window: Option<usize>) -> (lo: usize)
    requires
        gi < usize::MAX,
    ensures
        lo == match window {
            None => 0,
            Some(w) => if w > gi {
                0
            } else {
                gi + 1 - w
            },
        },
{
    match window {
        None => 0,
        Some(w) => if w > gi {
            0
        } else {
            gi + 1 - w
        },
    }
}

/// The items of clusters `lo` to `hi`, in order.
pub open spec fn live_items(groups: Seq<Vec<ItemId>>, lo: int, hi: int) -> Seq<ItemId>
    decreases hi - lo + 1,
{
    if hi < lo {
        Seq::empty()
    } else {
        live_items(groups, lo, hi - 1) + groups[hi]@
    }
}

/// The items that are live when cluster `gi` has arrived, in the order of their arrival.
pub fn live_set(groups: &Vec<Vec<ItemId>>, gi: usize, window: Option<usize>) -> (ids: Vec<ItemId>)
    requires
        gi < groups.len(),
    ensures
        ids@ == live_items(
            groups@,
            match window {
                None => 0,
                Some(w) => if w > gi {
                    0
                } else {
                    gi + 1 - w
                },
            },
            gi as int,
        ),
{
    let lo: usize = first_live(gi, window);
    let mut ids: Vec<ItemId> = Vec::new();
    let mut g: usize = lo;
    while g <= gi
        invariant
            lo <= g <= gi + 1,
            gi < groups.len(),
            ids@ == live_items(groups@, lo as int, g - 1),
        decreases gi + 1 - g,
    {
        let mut i: usize = 0;
        let ghost before = ids@;
        assert(before + groups@[g as int]@.take(0) =~= before);
        while i < groups[g].len()
            invariant
                g < groups.len(),
                i <= groups@[g as int]@.len(),
                ids@ == before + groups@[g as int]@.take(i as int),
            decreases groups@[g as int]@.len() - i,
        {
            ids.push(groups[g][i]);
            i += 1;
            assert(ids@ =~= before + groups@[g as int]@.take(i as int));
        }
        assert(groups@[g as int]@.take(i as int) =~= groups@[g as int]@);
        g += 1;
    }
    ids
}

/// The codecs of a stream.
#[derive(Clone, Copy, Debug, PartialEq, Eq, Structural)]
pub enum StreamCodec {
    Trellis,
    Rabitq,
    /// Product quantization with the codebook of the first cluster.
    FrozenPq,
    /// Product quantization that is retrained at every checkpoint.
    RebuildPq,
    /// No quantization.
    Exact,
}

impl StreamCodec {
    pub open spec fn name(self) -> Seq<char> {
        match self {
            StreamCodec::Trellis => "trellis"@,
            StreamCodec::Rabitq => "rabitq"@,
            StreamCodec::FrozenPq => "frozen_pq"@,
            StreamCodec::RebuildPq => "rebuild_pq"@,
            StreamCodec::Exact => "exact"@,
        }
    }

    pub fn label(self) -> (s: &'static str)
        ensures
            s@ == self.name(),
    {
        match self {
            StreamCodec::Trellis => "trellis",
            StreamCodec::Rabitq => "rabitq",
            StreamCodec::FrozenPq => "frozen_pq",
            StreamCodec::RebuildPq => "rebuild_pq",
            StreamCodec::Exact => "exact",
        }
    }

    /// How many vectors a refit of the codec touches at a checkpoint with `n_live` vectors: a
    /// codec that is not retrained touches none.
    pub fn refit_touched(self, n_live: usize) -> (n: usize)
        ensures
            n == if self == StreamCodec::RebuildPq {
                n_live as int
            } else {
                0
            },
    {
        match self {
            StreamCodec::RebuildPq => n_live,
            _ => 0,
        }
    }

    /// Whether the codec trains on the first cluster rather than on all that is live.
    pub fn trains_on_first(self) -> (r: bool)
        ensures
            r == (self == StreamCodec::FrozenPq),
    {
        matches!(self, StreamCodec::FrozenPq)
    }

    /// Whether a graph over the codec's vectors is rebuilt at every checkpoint.
    pub fn rebuilds_graph(self) -> (r: bool)
        ensures
            r == (self == StreamCodec::RebuildPq),
    {
        matches!(self, StreamCodec::RebuildPq)
    }
}

/// The codecs of a stream of vectors of dimension `dim`; product quantization needs a multiple
/// of four. `with_exact` adds vectors that are not quantized.
pub fn stream_codecs(dim: usize, with_exact: bool) -> (v: Vec<StreamCodec>)
    ensures
        v@ == seq![StreamCodec::Trellis, StreamCodec::Rabitq] + if dim % 4 == 0 {
            seq![StreamCodec::FrozenPq, StreamCodec::RebuildPq]
        } else {
            Seq::empty()
        } + if with_exact {
            seq![StreamCodec::Exact]
        } else {
            Seq::empty()
        },
{
    let mut v: Vec<StreamCodec> = Vec::new();
    v.push(StreamCodec::Trellis);
    v.push(StreamCodec::Rabitq);
    if dim % 4 == 0 {
        v.push(StreamCodec::FrozenPq);
        v.push(StreamCodec::RebuildPq);
    }
    if with_exact {
        v.push(StreamCodec::Exact);
    }
    assert(v@ =~= seq![StreamCodec::Trellis, StreamCodec::Rabitq] + if dim % 4 == 0 {
        seq![StreamCodec::FrozenPq, StreamCodec::RebuildPq]
    } else {
        Seq::empty()
    } + if with_exact {
        seq![StreamCodec::Exact]
    } else {
        Seq::empty()
    });
    v
}

// ---- Shortlists and calibration ----

/// `out` holds the shortlist sizes of `cs` and the database size, each once, in ascending order.
pub open spec fn is_sweep(cs: Seq<usize>, n: usize, out: Seq<usize>) -> bool {
    &&& forall|x: usize| #[trigger] out.contains(x) <==> cs.contains(x) || x == n
    &&& forall|i: int, j: int| 0 <= i < j < out.len() ==> (#[trigger] out[i]) < (#[trigger] out[j])
}

/// The shortlist sizes of a sweep over a database of `n` vectors.
pub fn shortlist_sweep(cs: &Vec<usize>, n: usize) -> (out: Vec<usize>)
    ensures
        is_sweep(cs@, n, out@),
{
    let mut all: Vec<usize> = Vec::with_capacity(cs.len());
    let mut i: usize = 0;
    while i < cs.len()
        invariant
            i <= cs.len(),
            all@ == cs@.take(i as int),
        decreases cs.len() - i,
    {
        all.push(cs[i]);
        i += 1;
        assert(all@ =~= cs@.take(i as int));
    }
    all.push(n);
    let sorted: Vec<usize> = merge_sort(&all);
    let mut out: Vec<usize> = Vec::with_capacity(sorted.len());
    let mut k: usize = 0;
    while k < sorted.len()
        invariant
            k <= sorted.len(),
            in_order(sorted@),
            forall|x: usize| #[trigger] out@.contains(x) <==> sorted@.take(k as int).contains(x),
            forall|p: int, q: int|
                0 <= p < q < out.len() ==> (#[trigger] out@[p]) < (#[trigger] out@[q]),
            k > 0 ==> out.len() > 0 && out@.last() == sorted@[k - 1],
            k == 0 ==> out.len() == 0,
        decreases sorted.len() - k,
    {
        let x: usize = sorted[k];
        let ghost before = out@;
        proof {
            let a = sorted@.take(k as int);
            let b = sorted@.take(k + 1);
            assert(b =~= a.push(x));
            a.lemma_push_to_set_commute(x);
            assert forall|y: usize| #[trigger] b.contains(y) <==> a.contains(y) || y == x by {
                if a.contains(y) {
                    let z = choose|z: int| 0 <= z < a.len() && a[z] == y;
                    assert(b[z] == y);
                }
                if y == x {
                    assert(b[k as int] == y);
                }
            }
            if k > 0 {
                assert(sorted@[k - 1].leq(sorted@[k as int]));
            }
        }
        if k == 0 || sorted[k - 1] != x {
            out.push(x);
            proof {
                assert forall|p: int, q: int| 0 <= p < q < out.len() implies (#[trigger] out@[p])
                    < (#[trigger] out@[q]) by {
                    if q == before.len() {
                        assert(before.last() < x);
                        if p < before.len() - 1 {
                            assert(before[p] < before[before.len() - 1]);
                        }
                    }
                }
                assert forall|y: usize| #[trigger] out@.contains(y) <==> before.contains(y) || y
                    == x by {
                    if before.contains(y) {
                        let z = choose|z: int| 0 <= z < before.len() && before[z] == y;
                        assert(out@[z] == y);
                    }
                    if y == x {
                        assert(out@[before.len() as int] == y);
                    }
                }
            }
        } else {
            proof {
                assert(before.contains(x)) by {
                    assert(before[before.len() - 1] == x);
                }
            }
        }
        k += 1;
    }
    proof {
        broadcast use vstd::seq_lib::group_to_multiset_ensures;

        assert(sorted@.take(k as int) =~= sorted@);
        assert(all@ =~= cs@.push(n));
        assert forall|x: usize| #[trigger] out@.contains(x) <==> cs@.contains(x) || x == n by {
            assert(sorted@.to_multiset().count(x) == all@.to_multiset().count(x));
            assert(sorted@.contains(x) <==> all@.contains(x));
            if cs@.contains(x) {
                let z = choose|z: int| 0 <= z < cs@.len() && cs@[z] == x;
                assert(all@[z] == x);
            }
            if x == n {
                assert(all@[cs@.len() as int] == x);
            }
        }
    }
    out
}

/// The name of a shortlist size over a database of `n` vectors.
pub open spec fn shortlist_text(c: nat, n: nat) -> Seq<char> {
    if c >= n {
        "C=N (full codes-only scan)"@
    } else {
        "C="@ + decimal(c)
    }
}

/// The name of a shortlist size.
pub fn shortlist_label(c: usize, n: usize) -> (s: String)
    ensures
        s@ == shortlist_text(c as nat, n as nat),
{
    if c >= n {
        "C=N (full codes-only scan)".to_owned()
    } else {
        let mut s: String = "C=".to_owned();
        append_decimal(&mut s, c as u64);
        s
    }
}

/// What a calibration size says about a fitted codec: `ahead` tells whether it reaches the
/// recall of the code that needs no calibration.
pub open spec fn calibration_note(k: nat, ahead: bool) -> Seq<char> {
    if k != 0 && k < 256 {
        "K<256: fewer calibration vectors than centroids/subspace"@
    } else if ahead {
        "PQ ahead (warm)"@
    } else {
        "oblivious ahead (cold)"@
    }
}

/// What a calibration size says about a fitted codec.
pub fn cold_start_note(k: usize, ahead: bool) -> (s: &'static str)
    ensures
        s@ == calibration_note(k as nat, ahead),
{
    if k != 0 && k < 256 {
        "K<256: fewer calibration vectors than centroids/subspace"
    } else if ahead {
        "PQ ahead (warm)"
    } else {
        "oblivious ahead (cold)"
    }
}

/// The label of a calibration size; zero stands for all vectors.
pub open spec fn calibration_text(k: nat) -> Seq<char> {
    if k == 0 {
        "full"@
    } else {
        decimal(k)
    }
}

/// The name of a calibration size; zero is the whole corpus.
pub fn calibration_label(k: usize) -> (s: String)
    ensures
        s@ == calibration_text(k as nat),
{
    if k == 0 {
        "full".to_owned()
    } else {
        crate::text::decimal_of(k as u64)
    }
}

// ---- What recall promises ----

/// The item stands among the first `k` of the list.
pub open spec fn stands_within(list: Seq<ItemId>, k: nat, x: ItemId) -> bool {
    exists|i: int| 0 <= i < list.len() && i < k && #[trigger] list[i] == x
}

proof fn lemma_first_of(list: Seq<ItemId>, k: nat, x: ItemId)
    ensures
        first_of(list, k).to_set().contains(x) <==> stands_within(list, k, x),
{
    let f = first_of(list, k);
    if f.to_set().contains(x) {
        let i = choose|i: int| 0 <= i < f.len() && f[i] == x;
        assert(list[i] == x);
    }
    if stands_within(list, k, x) {
        let i = choose|i: int| 0 <= i < list.len() && i < k && #[trigger] list[i] == x;
        assert(f[i] == x);
    }
}

/// Recall at depth `k` counts the items that stand among the first `k` of both lists, out of
/// those that stand among the first `k` of the gold list; each item counts once.
pub proof fn recall_counts_what_both_lists_lead_with(
    gold: Seq<ItemId>,
    got: Seq<ItemId>,
    k: nat,
    both: Set<ItemId>,
    due: Set<ItemId>,
)
    requires
        both.finite(),
        due.finite(),
        forall|x: ItemId| #[trigger]
            both.contains(x) <==> stands_within(gold, k, x) && stands_within(got, k, x),
        forall|x: ItemId| #[trigger] due.contains(x) <==> stands_within(gold, k, x),
    ensures
        found_at(gold, got, k) == (both.len(), due.len()),
{
    assert forall|x: ItemId| #[trigger] both.contains(x) <==> common(gold, got, k).contains(x) by {
        lemma_first_of(gold, k, x);
        lemma_first_of(got, k, x);
    }
    assert(both =~= common(gold, got, k));
    assert forall|x: ItemId| #[trigger] due.contains(x) <==> first_of(gold, k).to_set().contains(
        x,
    ) by {
        lemma_first_of(gold, k, x);
    }
    assert(due =~= first_of(gold, k).to_set());
}

/// Results beyond the first `k` change nothing about recall at depth `k`.
pub proof fn recall_looks_no_deeper(
    gold: Seq<ItemId>,
    got: Seq<ItemId>,
    other: Seq<ItemId>,
    k: nat,
)
    requires
        got.len() < k ==> other.len() == got.len(),
        got.len() >= k ==> other.len() >= k,
        forall|i: int| 0 <= i < k && i < got.len() ==> #[trigger] got[i] == other[i],
    ensures
        found_at(gold, got, k) == found_at(gold, other, k),
{
    let a = first_of(got, k);
    let b = first_of(other, k);
    assert forall|i: int| 0 <= i < a.len() implies a[i] == b[i] by {
        assert(got[i] == other[i]);
    }
    assert(a =~= b);
}

/// A query whose first `k` results hold no gold item finds nothing; one whose first result is the
/// first gold item finds it at depth one, and one whose first result is another item does not.
pub proof fn only_what_is_in_reach_is_found(gold: Seq<ItemId>, got: Seq<ItemId>, k: nat)
    requires
        gold.len() > 0,
    ensures
        (forall|x: ItemId|
            stands_within(gold, k, x) ==> !#[trigger] stands_within(got, k, x)) ==> found_at(
            gold,
            got,
            k,
        ).0 == 0,
        found_at(gold, got, 1).0 == if got.len() > 0 && got[0] == gold[0] {
            1nat
        } else {
            0
        },
        found_at(gold, got, 1).1 == 1,
{
    let none = Set::<ItemId>::empty();
    if forall|x: ItemId| stands_within(gold, k, x) ==> !#[trigger] stands_within(got, k, x) {
        assert forall|x: ItemId| !common(gold, got, k).contains(x) by {
            lemma_first_of(gold, k, x);
            lemma_first_of(got, k, x);
        }
        assert(common(gold, got, k) =~= none);
    }
    let one = none.insert(gold[0]);
    let both = if got.len() > 0 && got[0] == gold[0] {
        one
    } else {
        none
    };
    assert forall|x: ItemId| #[trigger] one.contains(x) <==> stands_within(gold, 1, x) by {
        if x == gold[0] {
            assert(gold[0] == x);
        }
    }
    assert forall|x: ItemId| #[trigger]
        both.contains(x) <==> stands_within(gold, 1, x) && stands_within(got, 1, x) by {
        if got.len() > 0 && got[0] == gold[0] && x == gold[0] {
            assert(gold[0] == x && got[0] == x);
        }
    }
    recall_counts_what_both_lists_lead_with(gold, got, 1, both, one);
}

/// A query is measured at depths one, ten and a hundred.
pub proof fn a_query_is_measured_at_three_depths(
    gold: Seq<ItemId>,
    got: Seq<ItemId>,
    r: QueryRecall,
)
    requires
        is_query_recall(gold, got, r),
    ensures
        found_at(gold, got, 1) == (r.hits.0 as nat, r.gold.0 as nat),
        found_at(gold, got, 10) == (r.hits.1 as nat, r.gold.1 as nat),
        found_at(gold, got, 100) == (r.hits.2 as nat, r.gold.2 as nat),
{
}

// ---- What the bootstrap promises ----

/// The differences that resample `j` draws: with replacement, by successive outputs of the
/// generator, from all of them.
pub open spec fn draws(diffs: Seq<i32>, seed: u64, j: nat) -> Seq<int> {
    Seq::new(
        diffs.len(),
        |t: int| diffs[output(seed, (j * diffs.len() + t) as nat) as int % diffs.len() as int] as int,
    )
}

proof fn lemma_resample_is_total(diffs: Seq<i32>, seed: u64, j: nat, t: nat)
    requires
        t <= diffs.len(),
    ensures
        resample_sum(diffs, seed, j, t) == total(draws(diffs, seed, j).take(t as int)),
    decreases t,
{
    let d = draws(diffs, seed, j);
    if t > 0 {
        lemma_resample_is_total(diffs, seed, j, (t - 1) as nat);
        assert(d.take(t as int) =~= d.take(t - 1).push(d[t - 1]));
        total_of_push(d.take(t - 1), d[t - 1]);
    }
}

/// A resample sums as many draws as there are differences, each of which can be any of them:
/// draw `t` of resample `j` is the one that output `j * n + t` names modulo `n`.
pub proof fn a_resample_draws_from_all_differences(diffs: Seq<i32>, seed: u64, n: nat, j: int)
    requires
        small_diffs(diffs),
        diffs.len() > 0,
        0 <= j < n,
    ensures
        resample_sums(diffs, seed, n).len() == n,
        resample_sums(diffs, seed, n)[j] == total(draws(diffs, seed, j as nat)),
{
    lemma_resample_is_total(diffs, seed, j as nat, diffs.len());
    lemma_resample_bound(diffs, seed, j as nat, diffs.len());
    let d = draws(diffs, seed, j as nat);
    assert(d.take(diffs.len() as int) =~= d);
}

/// Whichever difference an output names, that one is drawn.
pub proof fn every_difference_can_be_drawn(diffs: Seq<i32>, seed: u64, j: nat, t: int, i: int)
    requires
        0 <= t < diffs.len(),
        0 <= i < diffs.len(),
        output(seed, (j * diffs.len() + t) as nat) as int % diffs.len() as int == i,
    ensures
        resample_sum(diffs, seed, j, (t + 1) as nat) - resample_sum(diffs, seed, j, t as nat)
            == diffs[i],
{
    lemma_resample_is_total(diffs, seed, j, t as nat);
    lemma_resample_is_total(diffs, seed, j, (t + 1) as nat);
    let d = draws(diffs, seed, j);
    assert(d.take(t + 1) =~= d.take(t).push(d[t]));
    total_of_push(d.take(t), d[t]);
}

/// The reported difference is the sum over all queries.
pub proof fn the_difference_is_summed_over_all_queries(diffs: Seq<i32>, k: int)
    requires
        0 <= k <= diffs.len(),
    ensures
        diff_sum(diffs, k) == total(Seq::new(k as nat, |i: int| diffs[i] as int)),
    decreases k,
{
    if k > 0 {
        the_difference_is_summed_over_all_queries(diffs, k - 1);
        let s = Seq::new((k - 1) as nat, |i: int| diffs[i] as int);
        assert(Seq::new(k as nat, |i: int| diffs[i] as int) =~= s.push(diffs[k - 1] as int));
        total_of_push(s, diffs[k - 1] as int);
    }
}

/// A value of rank `r` is one of the values; no more than `r` are smaller, and more than `r` are
/// no larger.
pub proof fn a_rank_counts_what_is_smaller(sums: Seq<i64>, r: int, v: i64)
    requires
        has_rank(sums, r, v),
    ensures
        sums.contains(v),
        sums.to_multiset().filter(|x: i64| x < v).len() <= r,
        r < sums.to_multiset().filter(|x: i64| x <= v).len(),
{
    broadcast use vstd::seq_lib::group_to_multiset_ensures;

    let sorted = choose|sorted: Seq<Sum>| #[trigger]
        is_sort_of(wrapped(sums), sorted) && 0 <= r < sorted.len() && sorted[r].v == v;
    let plain = unwrapped(sorted);
    lemma_unwrapped(wrapped(sums), sorted);
    assert(unwrapped(wrapped(sums)) =~= sums);
    assert(plain.to_multiset() == sums.to_multiset());
    assert(plain[r] == v);
    assert(plain.contains(v));
    assert(sums.to_multiset().count(v) > 0);
    assert forall|i: int, j: int| 0 <= i < j < plain.len() implies plain[i] <= plain[j] by {
        assert(sorted[i].leq(sorted[j]));
    }
    lemma_split_counts(plain, r, |x: i64| x < v);
    lemma_split_counts(plain, r + 1, |x: i64| x <= v);
}

/// Sums as numbers.
spec fn unwrapped(a: Seq<Sum>) -> Seq<i64> {
    Seq::new(a.len(), |i: int| a[i].v)
}

/// Taking the wrapping off keeps the values.
proof fn lemma_unwrapped(a: Seq<Sum>, b: Seq<Sum>)
    requires
        a.to_multiset() == b.to_multiset(),
    ensures
        unwrapped(a).to_multiset() == unwrapped(b).to_multiset(),
{
    lemma_mapped(a);
    lemma_mapped(b);
    assert(unwrapped(a).to_multiset() =~= unwrapped(b).to_multiset());
}

proof fn lemma_mapped(a: Seq<Sum>)
    ensures
        forall|x: i64| #[trigger]
            unwrapped(a).to_multiset().count(x) == a.to_multiset().count(Sum { v: x }),
    decreases a.len(),
{
    broadcast use vstd::seq_lib::group_to_multiset_ensures;

    let plain = unwrapped(a);
    if a.len() == 0 {
        assert(plain =~= Seq::empty());
        assert(a =~= Seq::empty());
    } else {
        let rest = a.drop_last();
        lemma_mapped(rest);
        let short = unwrapped(rest);
        assert(plain =~= short.push(a.last().v));
        assert(a =~= rest.push(a.last()));
        assert forall|x: i64| #[trigger]
            plain.to_multiset().count(x) == a.to_multiset().count(Sum { v: x }) by {
            assert(short.to_multiset().count(x) == rest.to_multiset().count(Sum { v: x }));
        }
    }
}

/// In an ascending list where `keep` holds of nothing from place `r` on, it holds of at most `r`
/// items; where it holds of all before place `r`, of at least `r`.
proof fn lemma_split_counts(s: Seq<i64>, r: int, keep: spec_fn(i64) -> bool)
    requires
        0 <= r <= s.len(),
    ensures
        (forall|i: int| r <= i < s.len() ==> !keep(#[trigger] s[i]))
            ==> s.to_multiset().filter(keep).len() <= r,
        (forall|i: int| 0 <= i < r ==> keep(#[trigger] s[i])) ==> s.to_multiset().filter(keep).len()
            >= r,
    decreases s.len(),
{
    broadcast use vstd::seq_lib::group_to_multiset_ensures;
    broadcast use vstd::multiset::group_multiset_axioms;

    if s.len() == 0 {
        assert(s.to_multiset().filter(keep) =~= vstd::multiset::Multiset::empty());
    } else {
        let rest = s.drop_last();
        let x = s.last();
        assert(s =~= rest.push(x));
        let a = rest.to_multiset();
        let b = s.to_multiset();
        assert(b =~= a.insert(x));
        if keep(x) {
            assert(b.filter(keep) =~= a.filter(keep).insert(x));
        } else {
            assert(b.filter(keep) =~= a.filter(keep));
        }
        let p = if r <= rest.len() {
            r
        } else {
            r - 1
        };
        lemma_split_counts(rest, p, keep);
        if forall|i: int| r <= i < s.len() ==> !keep(#[trigger] s[i]) {
            assert forall|i: int| p <= i < rest.len() implies !keep(#[trigger] rest[i]) by {
                assert(rest[i] == s[i]);
            }
            if r <= rest.len() {
                assert(!keep(s[s.len() - 1]));
            }
        }
        if forall|i: int| 0 <= i < r ==> keep(#[trigger] s[i]) {
            assert forall|i: int| 0 <= i < p implies keep(#[trigger] rest[i]) by {
                assert(rest[i] == s[i]);
            }
            if r > rest.len() {
                assert(keep(s[s.len() - 1]));
            }
        }
    }
}

/// The difference of two codecs on a query is the difference of their recalls at depth ten: with
/// `h` of `g` found by one and `i` of `f` by the other it is `2520 (h / g - i / f)`, exactly.
pub proof fn differences_are_exact(a: Seq<QueryRecall>, b: Seq<QueryRecall>, q: int)
    requires
        recall_ok(a),
        recall_ok(b),
        a.len() == b.len(),
        0 <= q < a.len(),
        a[q].gold.1 > 0,
        b[q].gold.1 > 0,
    ensures
        unit_diffs(a, b).len() == a.len(),
        unit_diffs(a, b)[q] * a[q].gold.1 * b[q].gold.1 == 2520 * (a[q].hits.1 * b[q].gold.1
            - b[q].hits.1 * a[q].gold.1),
{
    assert(a[q].hits.1 <= a[q].gold.1 <= 10 && b[q].hits.1 <= b[q].gold.1 <= 10);
    let (h, g) = (a[q].hits.1 as nat, a[q].gold.1 as nat);
    let (i, f) = (b[q].hits.1 as nat, b[q].gold.1 as nat);
    let x = recall_units(h, g) as int;
    let y = recall_units(i, f) as int;
    recall_units_are_exact(h, g);
    recall_units_are_exact(i, f);
    assert(0 <= x <= 2520) by (nonlinear_arith)
        requires
            x * g == h * 2520,
            h <= g,
            g > 0,
    ;
    assert(0 <= y <= 2520) by (nonlinear_arith)
        requires
            y * f == i * 2520,
            i <= f,
            f > 0,
    ;
    assert((x - y) * g * f == 2520 * (h * f - i * g)) by (nonlinear_arith)
        requires
            x * g == h * 2520,
            y * f == i * 2520,
    ;
}

/// Total recall is the sum over all queries of what each found.
pub proof fn total_recall_is_summed(rows: Seq<QueryRecall>, k: int)
    requires
        0 <= k <= rows.len(),
    ensures
        units_upto(rows, k) == total(
            Seq::new(
                k as nat,
                |i: int| recall_units(rows[i].hits.1 as nat, rows[i].gold.1 as nat) as int,
            ),
        ),
    decreases k,
{
    if k > 0 {
        total_recall_is_summed(rows, k - 1);
        let f = |i: int| recall_units(rows[i].hits.1 as nat, rows[i].gold.1 as nat) as int;
        let s = Seq::new((k - 1) as nat, f);
        assert(Seq::new(k as nat, f) =~= s.push(f(k - 1)));
        total_of_push(s, f(k - 1));
    }
}

/// The trellis is compared with exactly the codecs that are not the trellis, in their order.
pub proof fn every_other_codec_is_compared(rows: Seq<CodecRecall>, k: int)
    requires
        0 <= k <= rows.len(),
        rows.len() <= usize::MAX,
    ensures
        forall|i: int|
            0 <= i < comparators(rows, k).len() ==> (#[trigger] comparators(rows, k)[i]) < k
                && rows[comparators(rows, k)[i] as int].quantizer@ != "trellis"@,
        forall|i: int, j: int|
            0 <= i < j < comparators(rows, k).len() ==> (#[trigger] comparators(rows, k)[i]) < (
            #[trigger] comparators(rows, k)[j]),
        forall|c: int|
            0 <= c < k && (#[trigger] rows[c]).quantizer@ != "trellis"@ ==> comparators(
                rows,
                k,
            ).contains(c as usize),
    decreases k,
{
    if k > 0 {
        every_other_codec_is_compared(rows, k - 1);
        let a = comparators(rows, k - 1);
        let b = comparators(rows, k);
        assert forall|c: int|
            0 <= c < k && (#[trigger] rows[c]).quantizer@ != "trellis"@ implies b.contains(
            c as usize,
        ) by {
            if c < k - 1 {
                assert(a.contains(c as usize));
                let i = choose|i: int| 0 <= i < a.len() && a[i] == c as usize;
                assert(b[i] == c as usize);
            } else {
                assert(b[b.len() - 1] == c as usize);
            }
        }
    }
}

/// The codecs that are held against the reference are exactly those that are not the reference,
/// in their order.
pub proof fn every_challenger_is_held_against_the_reference(rows: Seq<CodecRecall>, n: int)
    requires
        0 <= n <= rows.len(),
    ensures
        forall|i: int|
            0 <= i < challengers(rows, n).len() ==> 0 <= (#[trigger] challengers(rows, n)[i]) < n
                && rows[challengers(rows, n)[i]].quantizer@ != "turboquant_baseline"@,
        forall|i: int, j: int|
            0 <= i < j < challengers(rows, n).len() ==> (#[trigger] challengers(rows, n)[i]) < (
            #[trigger] challengers(rows, n)[j]),
        forall|c: int|
            0 <= c < n && (#[trigger] rows[c]).quantizer@ != "turboquant_baseline"@ ==> challengers(
                rows,
                n,
            ).contains(c),
    decreases n,
{
    if n > 0 {
        every_challenger_is_held_against_the_reference(rows, n - 1);
        let a = challengers(rows, n - 1);
        let b = challengers(rows, n);
        assert forall|c: int|
            0 <= c < n && (#[trigger] rows[c]).quantizer@ != "turboquant_baseline"@ implies b.contains(
            c,
        ) by {
            if c < n - 1 {
                assert(a.contains(c));
                let i = choose|i: int| 0 <= i < a.len() && a[i] == c;
                assert(b[i] == c);
            } else {
                assert(b[b.len() - 1] == c);
            }
        }
    }
}

/// A codec is held against the last reference before it: its gain is its own total recall less
/// that one's, and it counts as large from three percent of all there is to find on.
pub proof fn a_gain_is_over_the_last_reference(rows: Seq<CodecRecall>, i: int, b: int)
    requires
        0 <= b < i < rows.len(),
        rows[b].quantizer@ == "turboquant_baseline"@,
        forall|j: int| b < j < i ==> (#[trigger] rows[j]).quantizer@ != "turboquant_baseline"@,
    ensures
        gain_units(rows, i) == units_upto(
            rows[i].per_query@,
            rows[i].per_query@.len() as int,
        ) - units_upto(rows[b].per_query@, rows[b].per_query@.len() as int),
        gains_much(rows, i) <==> rows[i].per_query@.len() > 0 && 100 * gain_units(rows, i) >= 3 * (
        2520 * rows[i].per_query@.len()),
{
    lemma_last_reference(rows, i, b);
}

proof fn lemma_last_reference(rows: Seq<CodecRecall>, i: int, b: int)
    requires
        0 <= b < i <= rows.len(),
        rows[b].quantizer@ == "turboquant_baseline"@,
        forall|j: int| b < j < i ==> (#[trigger] rows[j]).quantizer@ != "turboquant_baseline"@,
    ensures
        reference_units(rows, i) == units_upto(
            rows[b].per_query@,
            rows[b].per_query@.len() as int,
        ),
    decreases i,
{
    if i - 1 > b {
        assert(rows[i - 1].quantizer@ != "turboquant_baseline"@);
        lemma_last_reference(rows, i - 1, b);
    }
}

/// The hash of a label takes in one byte after the other: an exclusive or, then a product with
/// the prime, modulo `2^64`. It starts from the offset basis and reads no further than asked.
pub proof fn a_hash_takes_in_byte_after_byte(a: Seq<u8>, b: Seq<u8>, k: int)
    requires
        0 <= k < a.len(),
        k < b.len(),
        forall|i: int| 0 <= i < k ==> #[trigger] a[i] == b[i],
    ensures
        label_hash(a, 0) == 14695981039346656037,
        label_hash(a, k) == label_hash(b, k),
        label_hash(a, k + 1) as int == ((label_hash(b, k) ^ a[k] as u64) * 1099511628211)
            % 0x1_0000_0000_0000_0000,
    decreases k,
{
    if k > 0 {
        assert(a[k - 1] == b[k - 1]);
        a_hash_takes_in_byte_after_byte(a, b, k - 1);
        a_hash_takes_in_byte_after_byte(b, a, k - 1);
    }
    let x = label_hash(a, k) ^ (a[k] as u64);
    assert(label_hash(a, k + 1) == x.wrapping_mul(0x0000_0100_0000_01b3));
    assert(x.wrapping_mul(0x0000_0100_0000_01b3) as int == (x * 0x0000_0100_0000_01b3)
        % 0x1_0000_0000_0000_0000);
}

/// What is live is what the clusters from the first live one on hold, in their order: a longer
/// span holds the shorter one and what came after it.
pub proof fn live_items_are_those_of_live_clusters(
    groups: Seq<Vec<ItemId>>,
    lo: int,
    mid: int,
    hi: int,
)
    requires
        0 <= lo <= mid <= hi < groups.len(),
    ensures
        live_items(groups, lo, lo) == groups[lo]@,
        mid < hi ==> live_items(groups, lo, hi) == live_items(groups, lo, mid) + live_items(
            groups,
            mid + 1,
            hi,
        ),
    decreases hi - mid,
{
    assert(live_items(groups, lo, lo - 1) =~= Seq::empty());
    assert(live_items(groups, lo, lo) =~= groups[lo]@);
    if mid < hi {
        let last = groups[hi]@;
        if mid < hi - 1 {
            live_items_are_those_of_live_clusters(groups, lo, mid, hi - 1);
            assert(live_items(groups, lo, hi) =~= live_items(groups, lo, mid) + live_items(
                groups,
                mid + 1,
                hi,
            ));
        } else {
            assert(live_items(groups, hi, hi - 1) =~= Seq::empty());
            assert(live_items(groups, lo, hi) =~= live_items(groups, lo, mid) + live_items(
                groups,
                mid + 1,
                hi,
            ));
        }
    }
}

/// A sweep of shortlist sizes ends with the database itself or goes beyond it, and holds every
/// size that was asked for.
pub proof fn the_full_scan_is_part_of_a_sweep(cs: Seq<usize>, n: usize, out: Seq<usize>, i: int)
    requires
        is_sweep(cs, n, out),
        0 <= i < cs.len(),
    ensures
        out.contains(n),
        out.contains(cs[i]),
        forall|j: int|
            0 <= j < out.len() ==> (#[trigger] out[j]) == n || cs.contains(out[j]),
        out.no_duplicates(),
{
    assert(cs.contains(cs[i]));
    assert forall|j: int| 0 <= j < out.len() implies (#[trigger] out[j]) == n || cs.contains(
        out[j],
    ) by {
        assert(out.contains(out[j]));
    }
}

/// What the comparison of fixed codecs holds: the residual code from two bits on, the lattice
/// where it fits, its cosets where they are asked for as well, the others always.
pub proof fn fixed_codecs_come_where_they_fit(dim: nat, bits: nat, with_cosets: bool)
    ensures
        ({
            let plan = variant_plan(dim, bits, VariantSet::Sota3, false, with_cosets);
            &&& plan.contains(Variant::Baseline)
            &&& plan.contains(Variant::Residual) <==> bits >= 2
            &&& plan.contains(Variant::Rabitq)
            &&& plan.contains(Variant::Trellis)
            &&& plan.contains(Variant::Pvq)
            &&& plan.contains(Variant::Eden)
            &&& plan.contains(Variant::Blockquant)
            &&& plan.contains(Variant::E8) <==> dim % 8 == 0 && 1 <= bits <= 3
            &&& plan.contains(Variant::CosetTrellis) <==> with_cosets && dim % 8 == 0 && 1 <= bits
                <= 3
            &&& plan.no_duplicates()
        }),
        variant_plan(dim, bits, VariantSet::Sota3, true, with_cosets) == seq![Variant::Trellis],
{
    let plan = variant_plan(dim, bits, VariantSet::Sota3, false, with_cosets);
    let d: int = if bits >= 2 {
        1
    } else {
        0
    };
    assert(plan[0] == Variant::Baseline);
    if bits >= 2 {
        assert(plan[1] == Variant::Residual);
    }
    assert(plan[d + 1] == Variant::Rabitq);
    assert(plan[d + 2] == Variant::Trellis);
    assert(plan[d + 3] == Variant::Pvq);
    assert(plan[d + 4] == Variant::Eden);
    assert(plan[d + 5] == Variant::Blockquant);
    if lattice_supports(dim, bits) {
        assert(plan[d + 6] == Variant::E8);
        if with_cosets {
            assert(plan[d + 7] == Variant::CosetTrellis);
            assert(plan.len() == d + 8);
        } else {
            assert(plan.len() == d + 7);
        }
    } else {
        assert(plan.len() == d + 6);
    }
}

/// Product quantization is compared where it spends exactly the rate.
pub proof fn product_codecs_come_where_they_fit(
    dim: nat,
    bits: nat,
    only_trellis: bool,
    with_cosets: bool,
)
    ensures
        variant_plan(dim, bits, VariantSet::Sota, only_trellis, with_cosets).contains(
            Variant::PqDependent,
        ) <==> bits > 0 && exists|sub: nat| sub * bits == 8 && #[trigger] (dim % sub) == 0,
        variant_plan(dim, bits, VariantSet::Aniso, only_trellis, with_cosets).contains(
            Variant::PqCeiling,
        ) <==> dim % 2 == 0,
{
    let a = variant_plan(dim, bits, VariantSet::Sota, only_trellis, with_cosets);
    let b = variant_plan(dim, bits, VariantSet::Aniso, only_trellis, with_cosets);
    if pq_supports(dim, bits) {
        assert(a[5] == Variant::PqDependent);
        let sub = 8nat / bits;
        vstd::arithmetic::div_mod::lemma_fundamental_div_mod(8, bits as int);
        assert(sub * bits == bits * sub) by (nonlinear_arith);
        assert(dim % sub == 0);
    }
    if bits > 0 && exists|sub: nat| sub * bits == 8 && #[trigger] (dim % sub) == 0 {
        let sub = choose|sub: nat| sub * bits == 8 && #[trigger] (dim % sub) == 0;
        vstd::arithmetic::div_mod::lemma_fundamental_div_mod_converse(
            8,
            bits as int,
            sub as int,
            0,
        );
    }
    if dim % 2 == 0 {
        assert(b[7] == Variant::PqCeiling);
    }
}

/// A comparison is of the row it names: its difference is the sum over all queries, and each
/// bound is one of ten thousand resampled sums, with at most 250 of them below the lower bound and
/// at most 9749 below the upper one. Its resamples depend on the rate and on the codec's name.
pub proof fn a_comparison_is_of_its_own_pair(
    rows: Seq<CodecRecall>,
    t: int,
    bits: u8,
    seed: u64,
    p: PairedRecallDelta,
) -> (sums: Seq<i64>)
    requires
        is_comparison(rows, t, bits, seed, p),
        rows[t].per_query@.len() > 0,
    ensures
        p.bits == bits,
        p.delta == total(
            Seq::new(
                rows[t].per_query@.len(),
                |i: int|
                    unit_diffs(
                        rows[t].per_query@,
                        rows[p.comparator as int].per_query@,
                    )[i] as int,
            ),
        ),
        sums == resample_sums(
            unit_diffs(rows[t].per_query@, rows[p.comparator as int].per_query@),
            seed ^ ((bits as u64) << 56) ^ label_hash(
                encode_utf8(rows[p.comparator as int].quantizer@),
                encode_utf8(rows[p.comparator as int].quantizer@).len() as int,
            ),
            10_000,
        ),
        sums.contains(p.ci_low),
        sums.contains(p.ci_high),
        sums.to_multiset().filter(|x: i64| x < p.ci_low).len() <= 250,
        sums.to_multiset().filter(|x: i64| x <= p.ci_low).len() > 250,
        sums.to_multiset().filter(|x: i64| x < p.ci_high).len() <= 9749,
        sums.to_multiset().filter(|x: i64| x <= p.ci_high).len() > 9749,
{
    let d = unit_diffs(rows[t].per_query@, rows[p.comparator as int].per_query@);
    let bytes = encode_utf8(rows[p.comparator as int].quantizer@);
    let sums = resample_sums(
        d,
        seed ^ ((bits as u64) << 56) ^ label_hash(bytes, bytes.len() as int),
        BOOTSTRAP_SAMPLES as nat,
    );
    the_difference_is_summed_over_all_queries(d, d.len() as int);
    assert(Seq::new(d.len(), |i: int| d[i] as int) =~= Seq::new(
        rows[t].per_query@.len(),
        |i: int|
            unit_diffs(rows[t].per_query@, rows[p.comparator as int].per_query@)[i] as int,
    ));
    a_rank_counts_what_is_smaller(sums, 250, p.ci_low);
    a_rank_counts_what_is_smaller(sums, 9749, p.ci_high);
    sums
}

/// The reference of a comparison is the first row of its name, if there is one.
pub proof fn the_first_row_of_a_name_is_taken(
    rows: Seq<CodecRecall>,
    name: Seq<char>,
    i: int,
    j: int,
)
    requires
        is_first_named(rows, name, i),
        0 <= j < rows.len(),
        rows[j].quantizer@ == name,
    ensures
        0 <= i <= j,
        rows[i].quantizer@ == name,
{
}

/// The label of a shortlist tells its size, unless it holds all vectors.
pub proof fn a_shortlist_is_called_by_its_size(c: nat, n: nat, b: nat)
    requires
        c < n,
        b < n,
    ensures
        shortlist_text(c, n) == "C="@ + decimal(c),
        shortlist_text(c, n) == shortlist_text(b, n) <==> c == b,
        shortlist_text(n, n) == "C=N (full codes-only scan)"@,
        shortlist_text(n + c, n) == shortlist_text(n, n),
{
    decimal_reads_back(c);
    decimal_reads_back(b);
    if shortlist_text(c, n) == shortlist_text(b, n) {
        reveal_strlit("C=");
        let (x, y) = (shortlist_text(c, n), shortlist_text(b, n));
        assert(decimal(c) =~= x.skip(2));
        assert(decimal(b) =~= y.skip(2));
    }
}

/// The sets that do not depend on the dimension: product quantization beside the reference, the
/// reference beside the residual code, and every codebook both rotated and not. The anisotropic
/// set doubles its weight from a half to sixteen.
pub proof fn the_other_sets_hold_their_variants(
    dim: nat,
    bits: nat,
    only_trellis: bool,
    with_cosets: bool,
)
    ensures
        variant_plan(dim, bits, VariantSet::Pq, only_trellis, with_cosets) == seq![
            Variant::Baseline,
            Variant::PqMse,
            Variant::PqAniso,
        ],
        variant_plan(dim, bits, VariantSet::Lean, only_trellis, with_cosets) == seq![
            Variant::Baseline,
            Variant::Residual,
        ],
        ({
            let full = variant_plan(dim, bits, VariantSet::Full, only_trellis, with_cosets);
            &&& full.contains(Variant::Residual)
            &&& full.contains(Variant::GaussianRaw)
            &&& full.contains(Variant::StudentT { nu: 3, rotated: true })
            &&& full.contains(Variant::StudentT { nu: 5, rotated: true })
            &&& full.contains(Variant::StudentT { nu: 5, rotated: false })
            &&& full.contains(Variant::Corpus { rotated: true })
            &&& full.contains(Variant::Corpus { rotated: false })
            &&& full.len() == 8
        }),
        ({
            let set = variant_plan(dim, bits, VariantSet::Aniso, only_trellis, with_cosets);
            &&& set[0] == Variant::Baseline
            &&& set[1] == (Variant::Aniso { tenths: 5 })
            &&& set[6] == (Variant::Aniso { tenths: 160 })
            &&& forall|i: int|
                1 <= i < 6 ==> (#[trigger] set[i] matches Variant::Aniso { tenths: a } && set[i
                    + 1] matches Variant::Aniso { tenths: b } && b == 2 * a)
        }),
        ({
            let set = variant_plan(dim, bits, VariantSet::Sota, only_trellis, with_cosets);
            &&& set.take(5) == seq![
                Variant::Baseline,
                Variant::Rabitq,
                Variant::Trellis,
                Variant::AnisoFour,
                Variant::RabitqOneBit,
            ]
            &&& set.len() <= 6
        }),
{
    let full = variant_plan(dim, bits, VariantSet::Full, only_trellis, with_cosets);
    assert(full[1] == Variant::Residual);
    assert(full[2] == (Variant::StudentT { nu: 3, rotated: true }));
    assert(full[3] == (Variant::StudentT { nu: 5, rotated: true }));
    assert(full[4] == (Variant::Corpus { rotated: true }));
    assert(full[5] == Variant::GaussianRaw);
    assert(full[6] == (Variant::StudentT { nu: 5, rotated: false }));
    assert(full[7] == (Variant::Corpus { rotated: false }));
    let set = variant_plan(dim, bits, VariantSet::Aniso, only_trellis, with_cosets);
    assert(set[2] == (Variant::Aniso { tenths: 10 }));
    assert(set[3] == (Variant::Aniso { tenths: 20 }));
    assert(set[4] == (Variant::Aniso { tenths: 40 }));
    assert(set[5] == (Variant::Aniso { tenths: 80 }));
}

} // verus!
