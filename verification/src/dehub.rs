//! The quantized-head residual codec: its configuration, its byte budget, and the choice of
//! rank and rate under a budget.

use vstd::prelude::*;

use crate::datasets::{is_padded_dim, is_power_of_two, padded_dim};
use crate::rotation::{a_decimal_setting_is_taken, number_setting, setting_or, text_of};
use crate::text::{decimal, same_text};

verus! {

/// Configuration of the codec.
#[derive(Clone, Copy, Debug, PartialEq, Eq, Structural)]
pub struct DehubConfig {
    pub rank: usize,
    pub max_rank: usize,
    pub pca_iterations: usize,
    pub head_bits: u8,
    pub complement: bool,
    pub seed: u64,
}

/// The configuration unless something else is asked for.
pub open spec fn standard_config() -> DehubConfig {
    DehubConfig {
        rank: 8,
        max_rank: 128,
        pca_iterations: 24,
        head_bits: 8,
        complement: false,
        seed: 0xA5E5,
    }
}

impl Default for DehubConfig {
    fn default() -> (r: Self)
        ensures
            r == standard_config(),
    {
        DehubConfig {
            rank: 8,
            max_rank: 128,
            pca_iterations: 24,
            head_bits: 8,
            complement: false,
            seed: 0xA5E5,
        }
    }
}

/// Settings of the codec, as text.
pub struct DehubSettings<'a> {
    pub rank: Option<&'a str>,
    pub max_rank: Option<&'a str>,
    pub iterations: Option<&'a str>,
    pub head_bits: Option<&'a str>,
    pub complement: Option<&'a str>,
}

impl DehubConfig {
    /// At least one iteration, and a head of one to sixteen bits.
    pub open spec fn is_valid(&self) -> bool {
        self.pca_iterations >= 1 && 1 <= self.head_bits <= 16
    }

    /// The configuration that settings give.
    pub open spec fn is_of(&self, s: DehubSettings) -> bool {
        let w = setting_or(text_of(s.head_bits), usize::MAX as nat, 8);
        &&& self.rank == setting_or(text_of(s.rank), usize::MAX as nat, 8)
        &&& self.max_rank == setting_or(text_of(s.max_rank), usize::MAX as nat, 128)
        &&& self.pca_iterations == setting_or(text_of(s.iterations), usize::MAX as nat, 24)
        &&& self.head_bits == if w <= 255 {
            w
        } else {
            255
        }
        &&& self.complement == (text_of(s.complement) == Some("1"@))
        &&& self.seed == 0xA5E5
    }

    /// The configuration that settings give; what is missing or no number stays as it is by
    /// default, and a head width that does not fit a byte becomes the widest byte.
    pub fn from_env(s: &DehubSettings) -> (c: Self)
        ensures
            c.is_of(*s),
    {
        let max: u64 = usize::MAX as u64;
        let width: u64 = number_setting(s.head_bits, max, 8);
        DehubConfig {
            rank: number_setting(s.rank, max, 8) as usize,
            max_rank: number_setting(s.max_rank, max, 128) as usize,
            pca_iterations: number_setting(s.iterations, max, 24) as usize,
            head_bits: if width <= 255 {
                width as u8
            } else {
                255
            },
            complement: match s.complement {
                Some(t) => same_text(t, "1"),
                None => false,
            },
            seed: 0xA5E5,
        }
    }

    /// Checks the configuration; iterations are checked first.
    pub fn validate(&self) -> (r: Result<(), String>)
        ensures
            match r {
                Ok(_) => self.is_valid(),
                Err(m) => !self.is_valid() && m@ == if self.pca_iterations == 0 {
                    "pca_iterations must be at least 1"@
                } else {
                    "head_bits must be in 1..=16"@
                },
            },
    {
        if self.pca_iterations == 0 {
            return Err("pca_iterations must be at least 1".to_owned());
        }
        if self.head_bits < 1 || self.head_bits > 16 {
            return Err("head_bits must be in 1..=16".to_owned());
        }
        Ok(())
    }
}

/// How many intervals a quantized head coefficient has.
pub fn head_levels(bits: u8) -> (n: u32)
    requires
        1 <= bits <= 16,
    ensures
        n == vstd::arithmetic::power2::pow2(bits as nat) - 1,
{
    crate::codecs::level_count(bits) - 1
}

/// `d` is the dimension that the residual is coded in: with complement coding the next power of
/// two above what the head leaves.
pub open spec fn is_code_dim(dim: nat, r: nat, complement: bool, d: nat) -> bool {
    if 0 < r < dim && complement {
        is_padded_dim((dim - r) as nat, d)
    } else {
        d == dim
    }
}

/// The bytes that hold `n` bits.
pub open spec fn bytes_for(n: nat) -> nat {
    (n + 7) as nat / 8
}

/// `bytes` is what a vector costs at rank `r` and `b` bits per coordinate: the residual codes,
/// two bytes of state, and the head coefficients.
pub open spec fn is_dehub_bytes(
    dim: nat,
    r: nat,
    b: nat,
    config: DehubConfig,
    bytes: nat,
) -> bool {
    exists|d: nat| #[trigger]
        is_code_dim(dim, r, config.complement, d) && bytes == bytes_for(b * d) + 2 + bytes_for(
            r * config.head_bits as nat,
        )
}

/// The sizes for which costs can be computed.
pub open spec fn in_size(dim: nat, r: nat) -> bool {
    1024 * dim + 64 * r + 64 <= usize::MAX
}

proof fn lemma_padded_unique(n: nat, p: nat, q: nat)
    requires
        is_padded_dim(n, p),
        is_padded_dim(n, q),
    ensures
        p == q,
{
    if p < q {
        lemma_power_gap(p, q);
    } else if q < p {
        lemma_power_gap(q, p);
    }
}

proof fn lemma_power_gap(p: nat, q: nat)
    requires
        is_power_of_two(p),
        is_power_of_two(q),
        p < q,
    ensures
        2 * p <= q,
    decreases q,
{
    if p > 1 {
        lemma_power_gap(p / 2, q / 2);
    }
}

/// The cost is determined.
pub proof fn dehub_bytes_is_unique(dim: nat, r: nat, b: nat, config: DehubConfig, x: nat, y: nat)
    requires
        is_dehub_bytes(dim, r, b, config, x),
        is_dehub_bytes(dim, r, b, config, y),
    ensures
        x == y,
{
    let d = choose|d: nat| #[trigger]
        is_code_dim(dim, r, config.complement, d) && x == bytes_for(b * d) + 2 + bytes_for(
            r * config.head_bits as nat,
        );
    let e = choose|d: nat| #[trigger]
        is_code_dim(dim, r, config.complement, d) && y == bytes_for(b * d) + 2 + bytes_for(
            r * config.head_bits as nat,
        );
    if 0 < r < dim && config.complement {
        lemma_padded_unique((dim - r) as nat, d, e);
    }
}

/// The bytes of a record under the configuration that settings give.
pub fn dehub_bytes(dim: usize, r: usize, b: u8, s: &DehubSettings) -> (bytes: usize)
    requires
        in_size(dim as nat, r as nat),
        forall|c: DehubConfig| #[trigger] c.is_of(*s) ==> c.is_valid(),
    ensures
        exists|c: DehubConfig| #[trigger]
            c.is_of(*s) && is_dehub_bytes(dim as nat, r as nat, b as nat, c, bytes as nat),
{
    let config: DehubConfig = DehubConfig::from_env(s);
    dehub_bytes_with_config(dim, r, b, &config)
}

/// What a vector costs at rank `r` and `b` bits per coordinate.
pub fn dehub_bytes_with_config(dim: usize, r: usize, b: u8, config: &DehubConfig) -> (bytes: usize)
    requires
        config.is_valid(),
        in_size(dim as nat, r as nat),
    ensures
        is_dehub_bytes(dim as nat, r as nat, b as nat, *config, bytes as nat),
{
    let d: usize = if r > 0 && r < dim && config.complement {
        padded_dim(dim - r)
    } else {
        dim
    };
    proof {
        assert(is_code_dim(dim as nat, r as nat, config.complement, d as nat));
        assert(d <= 2 * dim + 1);
    }
    assert(0 <= b * d <= 255 * d) by (nonlinear_arith)
        requires
            0 <= b <= 255,
            0 <= d,
    ;
    assert(0 <= r * config.head_bits <= 16 * r) by (nonlinear_arith)
        requires
            0 <= config.head_bits <= 16,
            0 <= r,
    ;
    let codes: usize = (b as usize * d + 7) / 8;
    let head: usize = (r * config.head_bits as usize + 7) / 8;
    codes + 2 + head
}

/// The least that a vector can cost: one bit per coordinate and no head. A budget below it is
/// refused.
pub fn check_budget(dim: usize, budget: usize, config: &DehubConfig) -> (r: Result<(), usize>)
    requires
        config.is_valid(),
        in_size(dim as nat, 0),
    ensures
        match r {
            Ok(_) => exists|m: nat| #[trigger]
                is_dehub_bytes(dim as nat, 0, 1, *config, m) && m <= budget,
            Err(m) => is_dehub_bytes(dim as nat, 0, 1, *config, m as nat) && budget < m,
        },
{
    let minimum: usize = dehub_bytes_with_config(dim, 0, 1, config);
    if budget < minimum {
        return Err(minimum);
    }
    assert(is_dehub_bytes(dim as nat, 0, 1, *config, minimum as nat));
    Ok(())
}

/// The ranks that are tried, in order.
pub open spec fn tried_ranks() -> Seq<usize> {
    seq![0usize, 8, 16, 32, 64, 96, 128]
}

fn tried_rank(i: usize) -> (r: usize)
    requires
        i < 7,
    ensures
        r == tried_ranks()[i as int],
        r <= 128,
{
    if i == 0 {
        0
    } else if i == 1 {
        8
    } else if i == 2 {
        16
    } else if i == 3 {
        32
    } else if i == 4 {
        64
    } else if i == 5 {
        96
    } else {
        128
    }
}

/// A rank and a rate that stay within a budget.
pub open spec fn affordable(dim: nat, r: nat, b: nat, config: DehubConfig, budget: nat) -> bool {
    exists|bytes: nat| #[trigger] is_dehub_bytes(dim, r, b, config, bytes) && bytes <= budget
}

/// The rates from one to four bits that are affordable without a head, in ascending order.
fn affordable_rates(dim: usize, budget: usize, config: &DehubConfig) -> (rates: Vec<u8>)
    requires
        config.is_valid(),
        in_size(dim as nat, 0),
        affordable(dim as nat, 0, 1, *config, budget as nat),
    ensures
        rates.len() > 0,
        rates@[0] == 1,
        forall|i: int|
            0 <= i < rates.len() ==> 1 <= (#[trigger] rates@[i]) <= 4 && affordable(
                dim as nat,
                0,
                rates@[i] as nat,
                *config,
                budget as nat,
            ),
        forall|b: nat|
            1 <= b <= 4 && #[trigger] affordable(dim as nat, 0, b, *config, budget as nat)
                ==> rates@.contains(b as u8),
        forall|i: int, j: int|
            0 <= i < j < rates.len() ==> (#[trigger] rates@[i]) < (#[trigger] rates@[j]),
{
    let mut rates: Vec<u8> = Vec::new();
    let mut b: u8 = 1;
    while b <= 4
        invariant
            1 <= b <= 5,
            config.is_valid(),
            in_size(dim as nat, 0),
            affordable(dim as nat, 0, 1, *config, budget as nat),
            b > 1 ==> rates.len() > 0 && rates@[0] == 1,
            b == 1 ==> rates.len() == 0,
            forall|i: int|
                0 <= i < rates.len() ==> 1 <= (#[trigger] rates@[i]) < b && affordable(
                    dim as nat,
                    0,
                    rates@[i] as nat,
                    *config,
                    budget as nat,
                ),
            forall|c: nat|
                1 <= c < b && #[trigger] affordable(dim as nat, 0, c, *config, budget as nat)
                    ==> rates@.contains(c as u8),
            forall|i: int, j: int|
                0 <= i < j < rates.len() ==> (#[trigger] rates@[i]) < (#[trigger] rates@[j]),
        decreases 5 - b,
    {
        let bytes: usize = dehub_bytes_with_config(dim, 0, b, config);
        let ghost before = rates@;
        proof {
            if affordable(dim as nat, 0, b as nat, *config, budget as nat) {
                let x = choose|x: nat| #[trigger]
                    is_dehub_bytes(dim as nat, 0, b as nat, *config, x) && x <= budget;
                dehub_bytes_is_unique(dim as nat, 0, b as nat, *config, x, bytes as nat);
            }
        }
        if bytes <= budget {
            rates.push(b);
            proof {
                assert(is_dehub_bytes(dim as nat, 0, b as nat, *config, bytes as nat));
                assert(affordable(dim as nat, 0, b as nat, *config, budget as nat));
            }
        }
        proof {
            assert forall|c: nat|
                1 <= c < b + 1 && #[trigger] affordable(
                    dim as nat,
                    0,
                    c,
                    *config,
                    budget as nat,
                ) implies rates@.contains(c as u8) by {
                if c < b {
                    assert(before.contains(c as u8));
                    let i = choose|i: int| 0 <= i < before.len() && before[i] == c as u8;
                    assert(rates@[i] == c as u8);
                } else {
                    assert(rates@[before.len() as int] == b);
                }
            }
        }
        b += 1;
    }
    rates
}

/// One candidate: a rank, a rate and what they cost.
#[derive(Clone, Copy, Debug, PartialEq, Eq, Structural)]
pub struct Candidate {
    pub rank: usize,
    pub bits: u8,
    pub bytes: usize,
}

/// `c` is a candidate: one of the tried ranks that the fitted basis has, a rate from one to
/// four bits that is affordable without a head, and an affordable cost.
pub open spec fn is_candidate(
    dim: nat,
    budget: nat,
    r_have: nat,
    config: DehubConfig,
    c: Candidate,
) -> bool {
    &&& tried_ranks().contains(c.rank)
    &&& c.rank <= r_have
    &&& 1 <= c.bits <= 4
    &&& affordable(dim, 0, c.bits as nat, config, budget)
    &&& is_dehub_bytes(dim, c.rank as nat, c.bits as nat, config, c.bytes as nat)
    &&& c.bytes <= budget
}

/// Candidates are tried by ascending rate, then by ascending rank.
pub open spec fn tried_before(a: Candidate, b: Candidate) -> bool {
    a.bits < b.bits || (a.bits == b.bits && a.rank < b.rank)
}

/// All candidates, in the order in which they are tried.
pub open spec fn is_candidate_list(
    dim: nat,
    budget: nat,
    r_have: nat,
    config: DehubConfig,
    list: Seq<Candidate>,
) -> bool {
    &&& forall|i: int|
        0 <= i < list.len() ==> is_candidate(dim, budget, r_have, config, #[trigger] list[i])
    &&& forall|c: Candidate| #[trigger]
        is_candidate(dim, budget, r_have, config, c) ==> list.contains(c)
    &&& forall|i: int, j: int|
        0 <= i < j < list.len() ==> tried_before(#[trigger] list[i], #[trigger] list[j])
}

/// All candidates within a budget, in the order in which they are tried.
#[verifier::rlimit(60)]
pub fn candidates(dim: usize, budget: usize, r_have: usize, config: &DehubConfig) -> (list: Vec<
    Candidate,
>)
    requires
        config.is_valid(),
        in_size(dim as nat, 128),
        affordable(dim as nat, 0, 1, *config, budget as nat),
    ensures
        is_candidate_list(dim as nat, budget as nat, r_have as nat, *config, list@),
        list.len() > 0,
{
    let rates: Vec<u8> = affordable_rates(dim, budget, config);
    let mut list: Vec<Candidate> = Vec::new();
    let ghost d = dim as nat;
    let ghost bud = budget as nat;
    let ghost have = r_have as nat;
    let mut i: usize = 0;
    while i < rates.len()
        invariant
            i <= rates.len(),
            d == dim as nat,
            bud == budget as nat,
            have == r_have as nat,
            config.is_valid(),
            in_size(dim as nat, 128),
            affordable(d, 0, 1, *config, bud),
            rates@[0] == 1,
            forall|q: int|
                0 <= q < rates.len() ==> 1 <= (#[trigger] rates@[q]) <= 4 && affordable(
                    d,
                    0,
                    rates@[q] as nat,
                    *config,
                    bud,
                ),
            forall|p: int, q: int|
                0 <= p < q < rates.len() ==> (#[trigger] rates@[p]) < (#[trigger] rates@[q]),
            i > 0 ==> list.len() > 0,
            forall|q: int|
                0 <= q < list.len() ==> is_candidate(d, bud, have, *config, #[trigger] list@[q]),
            forall|q: int|
                0 <= q < list.len() ==> rates@.take(i as int).contains((#[trigger] list@[q]).bits),
            forall|c: Candidate|
                is_candidate(d, bud, have, *config, c) && rates@.take(i as int).contains(c.bits)
                    ==> #[trigger] list@.contains(c),
            forall|p: int, q: int|
                0 <= p < q < list.len() ==> tried_before(#[trigger] list@[p], #[trigger] list@[q]),
        decreases rates.len() - i,
    {
        let b: u8 = rates[i];
        let ghost start = list@;
        let mut k: usize = 0;
        proof {
            assert(1 <= rates@[i as int] <= 4);
            assert forall|q: int| 0 <= q < list.len() implies (#[trigger] list@[q]).bits < b by {
                let t = rates@.take(i as int);
                assert(t.contains(list@[q].bits));
                let z = choose|z: int| 0 <= z < t.len() && t[z] == list@[q].bits;
                assert(rates@[z] < rates@[i as int]);
            }
        }
        while k < 7
            invariant
                k <= 7,
                i < rates.len(),
                b == rates@[i as int],
                1 <= b <= 4,
                d == dim as nat,
                bud == budget as nat,
                have == r_have as nat,
                config.is_valid(),
                in_size(dim as nat, 128),
                affordable(d, 0, 1, *config, bud),
                affordable(d, 0, b as nat, *config, bud),
                start.len() <= list.len(),
                k > 0 && i == 0 ==> list.len() > 0,
                i > 0 ==> list.len() > 0,
                i == 0 ==> b == 1,
                forall|q: int| 0 <= q < start.len() ==> #[trigger] list@[q] == start[q],
                forall|q: int| 0 <= q < start.len() ==> (#[trigger] start[q]).bits < b,
                forall|q: int|
                    0 <= q < list.len() ==> is_candidate(
                        d,
                        bud,
                        have,
                        *config,
                        #[trigger] list@[q],
                    ),
                forall|q: int|
                    start.len() <= q < list.len() ==> (#[trigger] list@[q]).bits == b && (k < 7
                        ==> list@[q].rank < tried_ranks()[k as int]),
                forall|p: int, q: int|
                    0 <= p < q < list.len() ==> tried_before(
                        #[trigger] list@[p],
                        #[trigger] list@[q],
                    ),
                forall|c: Candidate|
                    is_candidate(d, bud, have, *config, c) && c.bits == b
                        && tried_ranks().take(k as int).contains(c.rank) ==> #[trigger] list@.contains(
                        c,
                    ),
            decreases 7 - k,
        {
            let r: usize = tried_rank(k);
            let ghost before = list@;
            if r <= r_have {
                let bytes: usize = dehub_bytes_with_config(dim, r, b, config);
                if bytes <= budget {
                    let c: Candidate = Candidate { rank: r, bits: b, bytes };
                    proof {
                        assert(tried_ranks()[k as int] == r);
                        assert(tried_ranks().contains(r));
                    }
                    list.push(c);
                    proof {
                        assert forall|p: int, q: int|
                            0 <= p < q < list.len() implies tried_before(
                            #[trigger] list@[p],
                            #[trigger] list@[q],
                        ) by {
                            if q == before.len() {
                                if p < start.len() {
                                    assert(list@[p] == start[p]);
                                } else {
                                    assert(list@[p] == before[p]);
                                }
                            } else {
                                assert(list@[p] == before[p] && list@[q] == before[q]);
                            }
                        }
                    }
                }
                proof {
                    // Without a head the first rate is affordable.
                    if r == 0 && b == 1 {
                        let x = choose|x: nat| #[trigger]
                            is_dehub_bytes(d, 0, 1, *config, x) && x <= bud;
                        dehub_bytes_is_unique(d, 0, 1, *config, x, bytes as nat);
                    }
                    assert forall|c: Candidate|
                        is_candidate(d, bud, have, *config, c) && c.bits == b && c.rank
                            == r implies #[trigger] list@.contains(c) by {
                        dehub_bytes_is_unique(
                            d,
                            r as nat,
                            b as nat,
                            *config,
                            c.bytes as nat,
                            bytes as nat,
                        );
                        assert(list@[before.len() as int] == c);
                    }
                }
            }
            proof {
                let t0 = tried_ranks().take(k as int);
                let t1 = tried_ranks().take(k + 1);
                assert forall|c: Candidate|
                    is_candidate(d, bud, have, *config, c) && c.bits == b && t1.contains(
                        c.rank,
                    ) implies #[trigger] list@.contains(c) by {
                    if c.rank != r {
                        let z = choose|z: int| 0 <= z < t1.len() && t1[z] == c.rank;
                        assert(z < k);
                        assert(t0[z] == c.rank);
                        assert(before.contains(c));
                        let y = choose|y: int| 0 <= y < before.len() && before[y] == c;
                        assert(list@[y] == c);
                    }
                }
                assert(k == 0 ==> r == 0);
            }
            k += 1;
        }
        proof {
            let u0 = rates@.take(i as int);
            let u1 = rates@.take(i + 1);
            assert(tried_ranks().take(7) =~= tried_ranks());
            assert(u1[i as int] == b);
            assert forall|q: int| 0 <= q < list.len() implies u1.contains(
                (#[trigger] list@[q]).bits,
            ) by {
                if q < start.len() {
                    assert(list@[q] == start[q]);
                    assert(u0.contains(start[q].bits));
                    let z = choose|z: int| 0 <= z < u0.len() && u0[z] == start[q].bits;
                    assert(u1[z] == start[q].bits);
                }
            }
            assert forall|c: Candidate|
                is_candidate(d, bud, have, *config, c) && u1.contains(
                    c.bits,
                ) implies #[trigger] list@.contains(c) by {
                if c.bits != b {
                    let z = choose|z: int| 0 <= z < u1.len() && u1[z] == c.bits;
                    assert(z < i);
                    assert(u0[z] == c.bits);
                    assert(start.contains(c));
                    let y = choose|y: int| 0 <= y < start.len() && start[y] == c;
                    assert(list@[y] == c);
                }
            }
        }
        i += 1;
    }
    proof {
        assert(rates@.take(i as int) =~= rates@);
        assert forall|c: Candidate| #[trigger]
            is_candidate(d, bud, have, *config, c) implies list@.contains(c) by {
            assert(rates@.contains((c.bits as nat) as u8));
        }
    }
    list
}

/// Candidate `i` is preferred to `j`: more hits, or as many for fewer bytes, or the same and
/// tried earlier.
pub open spec fn preferred(list: Seq<Candidate>, hits: Seq<u64>, i: int, j: int) -> bool {
    ||| hits[i] > hits[j]
    ||| hits[i] == hits[j] && list[i].bytes < list[j].bytes
    ||| hits[i] == hits[j] && list[i].bytes == list[j].bytes && i <= j
}

/// `i` is preferred to all others.
pub open spec fn is_preferred(list: Seq<Candidate>, hits: Seq<u64>, i: int) -> bool {
    &&& 0 <= i < list.len()
    &&& forall|j: int| 0 <= j < list.len() ==> #[trigger] preferred(list, hits, i, j)
}

/// The candidate that finds most, given how many hits each has on held-out queries; on a tie
/// the cheapest, then the first tried.
pub fn pick_candidate(list: &Vec<Candidate>, hits: &Vec<u64>) -> (best: usize)
    requires
        list.len() > 0,
        hits.len() == list.len(),
    ensures
        is_preferred(list@, hits@, best as int),
{
    let mut best: usize = 0;
    let mut i: usize = 1;
    while i < list.len()
        invariant
            best < i <= list.len(),
            hits.len() == list.len(),
            forall|j: int| 0 <= j < i ==> #[trigger] preferred(list@, hits@, best as int, j),
        decreases list.len() - i,
    {
        let ghost old_best = best as int;
        if hits[i] > hits[best] || (hits[i] == hits[best] && list[i].bytes < list[best].bytes) {
            best = i;
        }
        proof {
            assert forall|j: int| 0 <= j < i + 1 implies #[trigger] preferred(
                list@,
                hits@,
                best as int,
                j,
            ) by {
                if j < i {
                    assert(preferred(list@, hits@, old_best, j));
                }
            }
        }
        i += 1;
    }
    best
}

/// The largest rate from one to four bits that is affordable without a head.
pub open spec fn is_plain_rate(dim: nat, budget: nat, config: DehubConfig, b: nat) -> bool {
    &&& 1 <= b <= 4
    &&& affordable(dim, 0, b, config, budget)
    &&& forall|c: nat|
        1 <= c <= 4 && #[trigger] affordable(dim, 0, c, config, budget) ==> c <= b
}

/// Chooses a rank and a rate under a byte budget. `evaluate` counts the hits of a rank and a
/// rate on held-out queries. With fewer than fifty vectors to hold any out of, the budget goes
/// to the plain code.
pub fn select_config<F: Fn(usize, u8) -> u64>(
    dim: usize,
    budget: usize,
    n: usize,
    r_have: usize,
    config: &DehubConfig,
    evaluate: &F,
) -> (r: (usize, u8))
    requires
        config.is_valid(),
        in_size(dim as nat, 128),
        affordable(dim as nat, 0, 1, *config, budget as nat),
        forall|rank: usize, b: u8| #[trigger] evaluate.requires((rank, b)),
    ensures
        affordable(dim as nat, r.0 as nat, r.1 as nat, *config, budget as nat),
        n < 50 ==> r.0 == 0 && is_plain_rate(dim as nat, budget as nat, *config, r.1 as nat),
        n >= 50 ==> exists|list: Seq<Candidate>, hits: Seq<u64>, i: int|
            {
                &&& #[trigger] is_candidate_list(
                    dim as nat,
                    budget as nat,
                    r_have as nat,
                    *config,
                    list,
                )
                &&& #[trigger] is_preferred(list, hits, i)
                &&& evaluated(*evaluate, list, hits)
                &&& r == (list[i].rank, list[i].bits)
            },
{
    if n < 50 {
        let rates: Vec<u8> = affordable_rates(dim, budget, config);
        let b: u8 = rates[rates.len() - 1];
        proof {
            assert(affordable(dim as nat, 0, b as nat, *config, budget as nat));
            assert forall|c: nat|
                1 <= c <= 4 && #[trigger] affordable(
                    dim as nat,
                    0,
                    c,
                    *config,
                    budget as nat,
                ) implies c <= b by {
                assert(rates@.contains(c as u8));
                let q = choose|q: int| 0 <= q < rates@.len() && rates@[q] == c as u8;
                if q < rates@.len() - 1 {
                    assert(rates@[q] < rates@[rates@.len() - 1]);
                }
            }
        }
        return (0, b);
    }
    let list: Vec<Candidate> = candidates(dim, budget, r_have, config);
    let mut hits: Vec<u64> = Vec::with_capacity(list.len());
    let mut i: usize = 0;
    while i < list.len()
        invariant
            i <= list.len(),
            hits.len() == i,
            forall|rank: usize, b: u8| #[trigger] evaluate.requires((rank, b)),
            forall|q: int|
                0 <= q < i ==> evaluate.ensures(
                    (list@[q].rank, list@[q].bits),
                    #[trigger] hits@[q],
                ),
        decreases list.len() - i,
    {
        let c: Candidate = list[i];
        hits.push(evaluate(c.rank, c.bits));
        i += 1;
    }
    let best: usize = pick_candidate(&list, &hits);
    proof {
        assert(evaluated(*evaluate, list@, hits@));
        assert(is_candidate(
            dim as nat,
            budget as nat,
            r_have as nat,
            *config,
            list@[best as int],
        ));
        assert(is_dehub_bytes(
            dim as nat,
            list@[best as int].rank as nat,
            list@[best as int].bits as nat,
            *config,
            list@[best as int].bytes as nat,
        ));
    }
    (list[best].rank, list[best].bits)
}

/// `hits` are what `evaluate` counted for each candidate.
pub open spec fn evaluated<F: Fn(usize, u8) -> u64>(
    evaluate: F,
    list: Seq<Candidate>,
    hits: Seq<u64>,
) -> bool {
    &&& hits.len() == list.len()
    &&& forall|i: int|
        0 <= i < list.len() ==> evaluate.ensures(
            (list[i].rank, list[i].bits),
            #[trigger] hits[i],
        )
}

/// How a fit set is split for the choice: how many vectors at its end are queries, and at which
/// stride the others are sampled.
pub fn selection_split(n: usize) -> (r: (usize, usize))
    requires
        n >= 50,
    ensures
        r.0 == if n as int / 5 > 500 {
            500
        } else {
            n as int / 5
        },
        1 <= r.0 < n,
        r.1 == if (n - r.0) / 2500 < 1 {
            1
        } else {
            (n - r.0) / 2500
        },
{
    let fifth: usize = n / 5;
    let nval: usize = if fifth > 500 {
        500
    } else {
        fifth
    };
    let step: usize = (n - nval) / 2500;
    (
        nval,
        if step < 1 {
            1
        } else {
            step
        },
    )
}

/// The rank that a fixed-rate fit uses: what is asked for, but less than the dimension.
pub fn fixed_rank(dim: usize, rank: usize) -> (r: usize)
    ensures
        r == if dim == 0 {
            0
        } else if rank < dim {
            rank as int
        } else {
            dim - 1
        },
{
    if dim == 0 {
        0
    } else if rank < dim {
        rank
    } else {
        dim - 1
    }
}

/// The same configuration with complement coding never costs more for a head that leaves a
/// power of two.
pub proof fn complement_saves_where_it_pads_nothing(
    dim: nat,
    r: nat,
    b: nat,
    full: DehubConfig,
    compact: DehubConfig,
    x: nat,
    y: nat,
)
    requires
        0 < r < dim,
        is_power_of_two((dim - r) as nat),
        !full.complement,
        compact.complement,
        full.head_bits == compact.head_bits,
        is_dehub_bytes(dim, r, b, full, x),
        is_dehub_bytes(dim, r, b, compact, y),
    ensures
        y <= x,
{
    let d = choose|d: nat| #[trigger]
        is_code_dim(dim, r, compact.complement, d) && y == bytes_for(b * d) + 2 + bytes_for(
            r * compact.head_bits as nat,
        );
    let m = (dim - r) as nat;
    assert(is_padded_dim(m, m));
    lemma_padded_unique(m, d, m);
    assert(b * d <= b * dim) by (nonlinear_arith)
        requires
            d <= dim,
            b >= 0,
    ;
}

// ---- What the budget promises ----

/// Bits are held in the fewest bytes.
pub proof fn bits_take_the_fewest_bytes(n: nat)
    ensures
        8 * bytes_for(n) >= n,
        8 * bytes_for(n) < n + 8,
{
}

/// Without complement coding a record has `b` bits for every coordinate, two bytes of state, and
/// the head's coefficients; with it, the coordinates are those that the head leaves, padded to a
/// power of two.
pub proof fn a_record_is_codes_state_and_head(
    dim: nat,
    r: nat,
    b: nat,
    config: DehubConfig,
    bytes: nat,
    codes: nat,
    head: nat,
    d: nat,
)
    requires
        is_dehub_bytes(dim, r, b, config, bytes),
        8 * codes >= b * d,
        8 * codes < b * d + 8,
        8 * head >= r * config.head_bits as nat,
        8 * head < r * config.head_bits as nat + 8,
        config.complement && 0 < r < dim ==> is_padded_dim((dim - r) as nat, d),
        !(config.complement && 0 < r < dim) ==> d == dim,
    ensures
        bytes == codes + 2 + head,
{
    assert(is_code_dim(dim, r, config.complement, d));
    assert(b * d >= 0) by (nonlinear_arith);
    assert(bytes_for(b * d) == codes);
    assert(bytes_for(r * config.head_bits as nat) == head);
    assert(is_dehub_bytes(dim, r, b, config, codes + 2 + head));
    dehub_bytes_is_unique(dim, r, b, config, bytes, codes + 2 + head);
}

/// The chosen candidate finds at least as much as any other; of those that find as much it is the
/// cheapest, and of those the first that was tried.
pub proof fn the_chosen_candidate_finds_most(
    list: Seq<Candidate>,
    hits: Seq<u64>,
    i: int,
    j: int,
)
    requires
        is_preferred(list, hits, i),
        0 <= j < list.len(),
    ensures
        0 <= i < list.len(),
        hits[i] >= hits[j],
        hits[i] == hits[j] ==> list[i].bytes <= list[j].bytes,
        hits[i] == hits[j] && list[i].bytes == list[j].bytes ==> i <= j,
{
    assert(preferred(list, hits, i, j));
}

/// Candidates are the ranks 0, 8, 16, 32, 64, 96 and 128 that were fitted, at one to four bits,
/// wherever both the plain code at that rate and the record itself stay within the budget.
pub proof fn every_affordable_candidate_is_tried(
    dim: nat,
    budget: nat,
    r_have: nat,
    config: DehubConfig,
    list: Seq<Candidate>,
    rank: usize,
    bits: u8,
    bytes: usize,
    plain: nat,
)
    requires
        is_candidate_list(dim, budget, r_have, config, list),
        rank == 0 || rank == 8 || rank == 16 || rank == 32 || rank == 64 || rank == 96 || rank
            == 128,
        rank <= r_have,
        1 <= bits <= 4,
        is_dehub_bytes(dim, rank as nat, bits as nat, config, bytes as nat),
        bytes <= budget,
        is_dehub_bytes(dim, 0, bits as nat, config, plain),
        plain <= budget,
    ensures
        list.contains(Candidate { rank, bits, bytes }),
        forall|i: int|
            0 <= i < list.len() ==> (#[trigger] list[i]).bytes <= budget && 1 <= list[i].bits <= 4
                && list[i].rank <= r_have && list[i].rank <= 128,
{
    let t = tried_ranks();
    assert(t[0] == 0 && t[1] == 8 && t[2] == 16 && t[3] == 32 && t[4] == 64 && t[5] == 96 && t[6]
        == 128);
    assert(t.contains(rank));
    let c = Candidate { rank, bits, bytes };
    assert(affordable(dim, 0, bits as nat, config, budget));
    assert(is_candidate(dim, budget, r_have, config, c));
    assert forall|i: int| 0 <= i < list.len() implies (#[trigger] list[i]).bytes <= budget && 1
        <= list[i].bits <= 4 && list[i].rank <= r_have && list[i].rank <= 128 by {
        assert(is_candidate(dim, budget, r_have, config, list[i]));
    }
}

/// Without settings the configuration is the standard one; a rank, a cap and a number of
/// iterations in decimal are taken.
pub proof fn settings_in_decimal_are_taken(c: DehubConfig, s: DehubSettings, n: nat)
    requires
        c.is_of(s),
        n <= usize::MAX,
    ensures
        s.rank is None && s.max_rank is None && s.iterations is None && s.head_bits is None
            && s.complement is None ==> c == standard_config(),
        text_of(s.rank) == Some(decimal(n)) ==> c.rank == n,
        text_of(s.max_rank) == Some(decimal(n)) ==> c.max_rank == n,
        text_of(s.iterations) == Some(decimal(n)) ==> c.pca_iterations == n,
        text_of(s.head_bits) == Some(decimal(n)) && n <= 255 ==> c.head_bits == n,
        text_of(s.head_bits) == Some(decimal(n)) && n > 255 ==> c.head_bits == 255,
{
    a_decimal_setting_is_taken(n, usize::MAX as nat, 8);
    a_decimal_setting_is_taken(n, usize::MAX as nat, 24);
    a_decimal_setting_is_taken(n, usize::MAX as nat, 128);
}

/// Of few vectors none are held out, and the plain code gets the highest rate that fits.
pub proof fn the_plain_code_gets_the_highest_rate_that_fits(
    dim: nat,
    budget: nat,
    config: DehubConfig,
    b: nat,
    c: nat,
    bytes: nat,
)
    requires
        is_plain_rate(dim, budget, config, b),
        1 <= c <= 4,
        is_dehub_bytes(dim, 0, c, config, bytes),
        bytes <= budget,
    ensures
        c <= b <= 4,
{
    assert(affordable(dim, 0, c, config, budget));
}

/// A configuration is usable if it iterates at all and its head is one to sixteen bits wide.
pub proof fn usable_configurations(config: DehubConfig)
    ensures
        config.is_valid() <==> config.pca_iterations > 0 && config.head_bits > 0
            && config.head_bits < 17,
        standard_config().is_valid(),
{
}

} // verus!
