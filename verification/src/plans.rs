//! What a command does: the parsed options turned into the plan of a run.

use vstd::prelude::*;

use crate::bench::VariantSet;
use crate::cli::{single_bits, Options};
use crate::hnsw::HnswCodec;
use crate::ivf::IvfCodec;
use crate::rotation::setting_or;
use crate::text::{
    chars_of, decimal, decimal_reads_back, natural_upto, parse_natural, pieces, same_chars,
    same_text, split, trim, trimmed, views,
};

verus! {

/// The commands.
#[derive(Clone, Copy, Debug, PartialEq, Eq, Structural)]
pub enum Command {
    Bench,
    Ivf,
    Hnsw,
    Diag,
    Recon,
    Stream,
    Coldstart,
    Companion,
    Help,
}

/// The command that a word names.
pub open spec fn command_named(s: Seq<char>) -> Option<Command> {
    if s == "bench"@ {
        Some(Command::Bench)
    } else if s == "ivf"@ {
        Some(Command::Ivf)
    } else if s == "hnsw"@ {
        Some(Command::Hnsw)
    } else if s == "diag"@ {
        Some(Command::Diag)
    } else if s == "recon"@ {
        Some(Command::Recon)
    } else if s == "stream"@ {
        Some(Command::Stream)
    } else if s == "coldstart"@ {
        Some(Command::Coldstart)
    } else if s == "companion"@ {
        Some(Command::Companion)
    } else if s == "-h"@ || s == "--help"@ || s == "help"@ {
        Some(Command::Help)
    } else {
        None
    }
}

/// The command that a word names.
pub fn parse_command(s: &str) -> (c: Option<Command>)
    ensures
        c == command_named(s@),
{
    if same_text(s, "bench") {
        Some(Command::Bench)
    } else if same_text(s, "ivf") {
        Some(Command::Ivf)
    } else if same_text(s, "hnsw") {
        Some(Command::Hnsw)
    } else if same_text(s, "diag") {
        Some(Command::Diag)
    } else if same_text(s, "recon") {
        Some(Command::Recon)
    } else if same_text(s, "stream") {
        Some(Command::Stream)
    } else if same_text(s, "coldstart") {
        Some(Command::Coldstart)
    } else if same_text(s, "companion") {
        Some(Command::Companion)
    } else if same_text(s, "-h") || same_text(s, "--help") || same_text(s, "help") {
        Some(Command::Help)
    } else {
        None
    }
}

/// Why a command cannot run.
#[derive(Clone, Copy, Debug, PartialEq, Eq, Structural)]
pub enum PlanError {
    /// `--bits` is a list where one width is needed.
    Bits,
    /// `--dataset` is missing.
    NoDataset,
    /// `--query-file` is missing.
    NoQueryFile,
    /// No codec is left.
    NoCodecs,
    /// `--rerank` has no depth.
    NoDepths,
    /// `--out` is missing.
    NoOutput,
    /// No backend has this name.
    NoBackend,
}

/// The number that an option gives, `default` if it was not given.
pub open spec fn number_given(o: Options, key: Seq<char>, default: nat) -> nat {
    setting_or(o.value(key), usize::MAX as nat, default)
}

/// The number that an option gives.
fn number(o: &Options, key: &str, default: usize) -> (v: usize)
    ensures
        v == number_given(*o, key@, default as nat),
{
    match o.get(key) {
        None => default,
        Some(t) => match parse_natural(&chars_of(t.as_str()), usize::MAX as u64) {
            Some(v) => v as usize,
            None => default,
        },
    }
}

/// The seed of a run: 42 unless given.
pub open spec fn seed_given(o: Options) -> nat {
    setting_or(o.value("seed"@), u64::MAX as nat, 42)
}

fn seed(o: &Options) -> (s: u64)
    ensures
        s == seed_given(*o),
{
    match o.get("seed") {
        None => 42,
        Some(t) => match parse_natural(&chars_of(t.as_str()), u64::MAX) {
            Some(v) => v,
            None => 42,
        },
    }
}

/// The numbers up to `max` among the parts of a list; other parts are passed over.
pub open spec fn numbers_in(parts: Seq<Seq<char>>, max: nat) -> Seq<nat>
    decreases parts.len(),
{
    if parts.len() == 0 {
        Seq::empty()
    } else {
        let before = numbers_in(parts.drop_last(), max);
        match natural_upto(trimmed(parts.last()), max) {
            Some(v) => before.push(v),
            None => before,
        }
    }
}

/// Numbers as naturals.
pub open spec fn nats(v: Seq<usize>) -> Seq<nat> {
    Seq::new(v.len(), |i: int| v[i] as nat)
}

/// The list of numbers that an option gives, `default` if it was not given.
pub open spec fn list_given(o: Options, key: Seq<char>, default: Seq<nat>) -> Seq<nat> {
    match o.value(key) {
        None => default,
        Some(t) => numbers_in(pieces(t, ','), usize::MAX as nat),
    }
}

fn numbers(parts: &Vec<Vec<char>>, max: usize) -> (v: Vec<usize>)
    ensures
        nats(v@) == numbers_in(views(parts@), max as nat),
{
    let mut v: Vec<usize> = Vec::new();
    let ghost all = views(parts@);
    let mut i: usize = 0;
    assert(all.take(0) =~= Seq::empty());
    assert(nats(v@) =~= Seq::empty());
    while i < parts.len()
        invariant
            i <= parts.len(),
            all == views(parts@),
            nats(v@) == numbers_in(all.take(i as int), max as nat),
        decreases parts.len() - i,
    {
        let part: Vec<char> = trim(&parts[i]);
        let ghost before = nats(v@);
        proof {
            let t = all.take(i + 1);
            assert(t.drop_last() =~= all.take(i as int));
            assert(t.last() == parts@[i as int]@);
        }
        if let Some(x) = parse_natural(&part, max as u64) {
            v.push(x as usize);
            assert(nats(v@) =~= before.push(x as nat));
        }
        i += 1;
    }
    assert(all.take(i as int) =~= all);
    v
}

fn list(o: &Options, key: &str, default: Vec<usize>) -> (v: Vec<usize>)
    ensures
        nats(v@) == list_given(*o, key@, nats(default@)),
{
    match o.get(key) {
        None => default,
        Some(t) => numbers(&split(&chars_of(t.as_str()), ','), usize::MAX),
    }
}

/// The single bit width of a run: two unless given.
pub open spec fn bits_given(o: Options) -> Option<nat> {
    match o.value("bits"@) {
        None => Some(2),
        Some(t) => natural_upto(trimmed(t), 255),
    }
}

fn bits(o: &Options) -> (r: Result<u8, PlanError>)
    ensures
        match r {
            Ok(b) => bits_given(*o) == Some(b as nat),
            Err(e) => bits_given(*o) is None && e == PlanError::Bits,
        },
{
    match single_bits(o, 2) {
        Ok(b) => Ok(b),
        Err(_) => Err(PlanError::Bits),
    }
}

fn given(o: &Options, key: &str) -> (r: bool)
    ensures
        r == (o.value(key@) is Some),
{
    o.contains_key(key)
}

/// Where the vectors of a run are, and how many of them are read; zero stands for all.
pub struct DatasetRequest {
    pub path: String,
    pub max: usize,
}

/// The vectors that a run asks for.
pub fn dataset_request(o: &Options) -> (r: Result<DatasetRequest, PlanError>)
    ensures
        match r {
            Ok(d) => o.value("dataset"@) == Some(d.path@) && d.max == number_given(*o, "max"@, 0),
            Err(e) => o.value("dataset"@) is None && e == PlanError::NoDataset,
        },
{
    match o.get("dataset") {
        None => Err(PlanError::NoDataset),
        Some(t) => Ok(
            DatasetRequest { path: t.as_str().to_owned(), max: number(o, "max", 0) },
        ),
    }
}

/// Where a comparison takes its queries and its gold lists from.
#[derive(Clone, Copy, Debug, PartialEq, Eq, Structural)]
pub enum Protocol {
    /// Queries and gold lists from files.
    Gold,
    /// Queries from a file, ranked by inner product.
    IpExternal,
    /// Held-out queries, ranked by inner product.
    IpSplit,
    /// Queries from a file.
    External,
    /// Held-out queries.
    Split,
}

/// The plan of a flat comparison.
pub struct BenchPlan {
    pub bits: Vec<u8>,
    pub n_queries: usize,
    pub seed: u64,
    pub set: VariantSet,
    pub protocol: Protocol,
    pub query_max: usize,
}

/// The codecs that flags select: the first of these that was given, else all.
pub open spec fn set_given(o: Options) -> VariantSet {
    if o.value("sota3"@) is Some {
        VariantSet::Sota3
    } else if o.value("sota"@) is Some {
        VariantSet::Sota
    } else if o.value("aniso"@) is Some {
        VariantSet::Aniso
    } else if o.value("pq"@) is Some {
        VariantSet::Pq
    } else if o.value("lean"@) is Some {
        VariantSet::Lean
    } else {
        VariantSet::Full
    }
}

/// The protocol that options select.
pub open spec fn protocol_given(o: Options) -> Protocol {
    if o.value("gold-file"@) is Some {
        Protocol::Gold
    } else if o.value("metric"@) == Some("ip"@) {
        if o.value("query-file"@) is Some {
            Protocol::IpExternal
        } else {
            Protocol::IpSplit
        }
    } else if o.value("query-file"@) is Some {
        Protocol::External
    } else {
        Protocol::Split
    }
}

/// Bit widths as naturals.
pub open spec fn widths(v: Seq<u8>) -> Seq<nat> {
    Seq::new(v.len(), |i: int| v[i] as nat)
}

/// The plan of a flat comparison: five bits and 150 held-out queries unless given. Gold lists
/// need their queries.
pub fn plan_bench(o: &Options) -> (r: Result<BenchPlan, PlanError>)
    ensures
        match r {
            Ok(p) => {
                &&& o.value("dataset"@) is Some
                &&& o.value("gold-file"@) is Some ==> o.value("query-file"@) is Some
                &&& widths(p.bits@) == match o.value("bits"@) {
                    None => seq![5nat],
                    Some(t) => numbers_in(pieces(t, ','), 255),
                }
                &&& p.n_queries == number_given(*o, "queries"@, 150)
                &&& p.seed == seed_given(*o)
                &&& p.set == set_given(*o)
                &&& p.protocol == protocol_given(*o)
                &&& p.query_max == if p.protocol == Protocol::Gold {
                    0
                } else {
                    number_given(*o, "query-max"@, 0)
                }
            },
            Err(e) => {
                ||| e == PlanError::NoDataset && o.value("dataset"@) is None
                ||| e == PlanError::NoQueryFile && o.value("dataset"@) is Some && o.value(
                    "gold-file"@,
                ) is Some && o.value("query-file"@) is None
            },
        },
{
    if !given(o, "dataset") {
        return Err(PlanError::NoDataset);
    }
    let raw: Vec<usize> = match o.get("bits") {
        None => {
            let mut v: Vec<usize> = Vec::new();
            v.push(5);
            assert(nats(v@) =~= seq![5nat]);
            v
        },
        Some(t) => numbers(&split(&chars_of(t.as_str()), ','), 255),
    };
    let ghost want = match o.value("bits"@) {
        None => seq![5nat],
        Some(t) => numbers_in(pieces(t, ','), 255),
    };
    proof {
        if let Some(t) = o.value("bits"@) {
            lemma_numbers_bound(pieces(t, ','), 255);
        }
    }
    let mut bits: Vec<u8> = Vec::with_capacity(raw.len());
    let mut i: usize = 0;
    while i < raw.len()
        invariant
            i <= raw.len(),
            nats(raw@) == want,
            forall|q: int| 0 <= q < want.len() ==> (#[trigger] want[q]) <= 255,
            bits.len() == i,
            forall|q: int| 0 <= q < i ==> (#[trigger] bits@[q]) as nat == want[q],
        decreases raw.len() - i,
    {
        assert(nats(raw@)[i as int] == want[i as int]);
        bits.push(raw[i] as u8);
        i += 1;
    }
    assert(widths(bits@) =~= want);
    let set: VariantSet = if given(o, "sota3") {
        VariantSet::Sota3
    } else if given(o, "sota") {
        VariantSet::Sota
    } else if given(o, "aniso") {
        VariantSet::Aniso
    } else if given(o, "pq") {
        VariantSet::Pq
    } else if given(o, "lean") {
        VariantSet::Lean
    } else {
        VariantSet::Full
    };
    let by_ip: bool = match o.get("metric") {
        Some(t) => same_text(t.as_str(), "ip"),
        None => false,
    };
    let queries: bool = given(o, "query-file");
    let protocol: Protocol = if given(o, "gold-file") {
        if !queries {
            return Err(PlanError::NoQueryFile);
        }
        Protocol::Gold
    } else if by_ip {
        if queries {
            Protocol::IpExternal
        } else {
            Protocol::IpSplit
        }
    } else if queries {
        Protocol::External
    } else {
        Protocol::Split
    };
    let query_max: usize = match protocol {
        Protocol::Gold => 0,
        _ => number(o, "query-max", 0),
    };
    Ok(
        BenchPlan {
            bits,
            n_queries: number(o, "queries", 150),
            seed: seed(o),
            set,
            protocol,
            query_max,
        },
    )
}

proof fn lemma_numbers_bound(parts: Seq<Seq<char>>, max: nat)
    ensures
        forall|i: int| 0 <= i < numbers_in(parts, max).len() ==> (#[trigger] numbers_in(parts, max)[i])
            <= max,
    decreases parts.len(),
{
    if parts.len() > 0 {
        let before = numbers_in(parts.drop_last(), max);
        lemma_numbers_bound(parts.drop_last(), max);
        assert forall|i: int| 0 <= i < numbers_in(parts, max).len() implies (
        #[trigger] numbers_in(parts, max)[i]) <= max by {
            if i < before.len() {
                assert(before[i] <= max);
            }
        }
    }
}

/// `r` is the square root of `n`, rounded to the nearest integer.
pub open spec fn is_rounded_root(n: nat, r: nat) -> bool {
    &&& r > 0 ==> (2 * r - 1) * (2 * r - 1) <= 4 * n
    &&& 4 * n < (2 * r + 1) * (2 * r + 1)
}

/// The square root of `n`, rounded to the nearest integer. Up to the bound on `n` a square root
/// taken in double precision rounds to the same integer.
pub fn rounded_root(n: u64) -> (r: u64)
    requires
        n <= 0x4_0000_0000_0000,
    ensures
        is_rounded_root(n as nat, r as nat),
        r <= 0x200_0001,
{
    let mut lo: u128 = 0;
    let mut hi: u128 = 0x200_0001;
    assert((2 * hi + 1) * (2 * hi + 1) > 4 * 0x4_0000_0000_0000) by (nonlinear_arith)
        requires
            hi == 0x200_0001,
    ;
    while lo < hi
        invariant
            lo <= hi <= 0x200_0001,
            n <= 0x4_0000_0000_0000,
            lo > 0 ==> (2 * lo - 1) * (2 * lo - 1) <= 4 * n,
            4 * n < (2 * hi + 1) * (2 * hi + 1),
        decreases hi - lo,
    {
        let mid: u128 = (lo + hi) / 2;
        assert(0 <= (2 * mid + 1) * (2 * mid + 1) <= 0x400_0003 * 0x400_0003)
            by (nonlinear_arith)
            requires
                0 <= mid <= 0x200_0001,
        ;
        let edge: u128 = (2 * mid + 1) * (2 * mid + 1);
        if 4 * (n as u128) < edge {
            hi = mid;
        } else {
            assert(2 * (mid + 1) - 1 == 2 * mid + 1);
            lo = mid + 1;
        }
    }
    lo as u64
}

/// How many lists an index has: as given, else about the square root of the vectors, and never
/// fewer than two.
pub open spec fn is_nlist(o: Options, n: nat, nlist: nat) -> bool {
    exists|root: nat| #[trigger]
        is_rounded_root(n, root) && nlist == {
            let g = number_given(o, "nlist"@, root);
            if g < 2 {
                2
            } else {
                g
            }
        }
}

/// The codecs that one name of a list stands for: one for each shortlist size where it stands
/// for the shortlist; none for a name that nothing knows.
pub open spec fn ivf_named(
    name: Seq<char>,
    cs: Seq<usize>,
    asym: bool,
    rnorm: bool,
) -> Seq<IvfCodec> {
    if name == "baseline"@ || name == "turboquant_baseline"@ {
        seq![IvfCodec::Baseline]
    } else if name == "rabitq"@ {
        seq![IvfCodec::Rabitq]
    } else if name == "trellis_recon"@ || name == "trellis-recon"@ {
        seq![IvfCodec::TrellisRecon]
    } else if name == "trellis_codes"@ || name == "trellis-codes"@ {
        seq![IvfCodec::TrellisCodes]
    } else if name == "pvq"@ {
        seq![IvfCodec::Pvq]
    } else if name == "trellis_shortlist"@ || name == "trellis-shortlist"@ {
        shortlists(cs, asym, rnorm)
    } else {
        Seq::empty()
    }
}

/// One codec for each shortlist size.
pub open spec fn shortlists(cs: Seq<usize>, asym: bool, rnorm: bool) -> Seq<IvfCodec> {
    Seq::new(cs.len(), |i: int| IvfCodec::TrellisShortlist { c: cs[i], asym, rnorm })
}

/// The codecs that a list of names stands for.
pub open spec fn ivf_list(
    parts: Seq<Seq<char>>,
    cs: Seq<usize>,
    asym: bool,
    rnorm: bool,
) -> Seq<IvfCodec>
    decreases parts.len(),
{
    if parts.len() == 0 {
        Seq::empty()
    } else {
        ivf_list(parts.drop_last(), cs, asym, rnorm) + ivf_named(
            trimmed(parts.last()),
            cs,
            asym,
            rnorm,
        )
    }
}

/// The codecs of a run without a list of names.
pub open spec fn ivf_default(cs: Seq<usize>, asym: bool, rnorm: bool) -> Seq<IvfCodec> {
    seq![
        IvfCodec::Baseline,
        IvfCodec::Rabitq,
        IvfCodec::TrellisRecon,
        IvfCodec::TrellisCodes,
        IvfCodec::Pvq,
    ] + shortlists(cs, asym, rnorm)
}

fn is_word(name: &Vec<char>, word: &str) -> (r: bool)
    ensures
        r == (name@ == word@),
{
    same_chars(name.as_slice(), chars_of(word).as_slice())
}

fn push_shortlists(out: &mut Vec<IvfCodec>, cs: &Vec<usize>, asym: bool, rnorm: bool)
    ensures
        final(out)@ == old(out)@ + shortlists(cs@, asym, rnorm),
{
    let ghost before = out@;
    let mut i: usize = 0;
    assert(out@ =~= before + shortlists(cs@, asym, rnorm).take(0));
    while i < cs.len()
        invariant
            i <= cs.len(),
            before == old(out)@,
            out@ == before + shortlists(cs@, asym, rnorm).take(i as int),
        decreases cs.len() - i,
    {
        out.push(IvfCodec::TrellisShortlist { c: cs[i], asym, rnorm });
        i += 1;
        assert(out@ =~= before + shortlists(cs@, asym, rnorm).take(i as int));
    }
    assert(shortlists(cs@, asym, rnorm).take(i as int) =~= shortlists(cs@, asym, rnorm));
}

fn ivf_codecs(o: &Options, cs: &Vec<usize>, asym: bool, rnorm: bool) -> (out: Vec<IvfCodec>)
    ensures
        out@ == match o.value("codecs"@) {
            None => ivf_default(cs@, asym, rnorm),
            Some(t) => ivf_list(pieces(t, ','), cs@, asym, rnorm),
        },
{
    let mut out: Vec<IvfCodec> = Vec::new();
    match o.get("codecs") {
        None => {
            out.push(IvfCodec::Baseline);
            out.push(IvfCodec::Rabitq);
            out.push(IvfCodec::TrellisRecon);
            out.push(IvfCodec::TrellisCodes);
            out.push(IvfCodec::Pvq);
            push_shortlists(&mut out, cs, asym, rnorm);
            assert(out@ =~= ivf_default(cs@, asym, rnorm));
        },
        Some(t) => {
            let parts: Vec<Vec<char>> = split(&chars_of(t.as_str()), ',');
            let ghost all = views(parts@);
            let mut i: usize = 0;
            assert(all.take(0) =~= Seq::empty());
            while i < parts.len()
                invariant
                    i <= parts.len(),
                    all == views(parts@),
                    out@ == ivf_list(all.take(i as int), cs@, asym, rnorm),
                decreases parts.len() - i,
            {
                let name: Vec<char> = trim(&parts[i]);
                let ghost before = out@;
                proof {
                    let s = all.take(i + 1);
                    assert(s.drop_last() =~= all.take(i as int));
                    assert(s.last() == parts@[i as int]@);
                }
                if is_word(&name, "baseline") || is_word(&name, "turboquant_baseline") {
                    out.push(IvfCodec::Baseline);
                } else if is_word(&name, "rabitq") {
                    out.push(IvfCodec::Rabitq);
                } else if is_word(&name, "trellis_recon") || is_word(&name, "trellis-recon") {
                    out.push(IvfCodec::TrellisRecon);
                } else if is_word(&name, "trellis_codes") || is_word(&name, "trellis-codes") {
                    out.push(IvfCodec::TrellisCodes);
                } else if is_word(&name, "pvq") {
                    out.push(IvfCodec::Pvq);
                } else if is_word(&name, "trellis_shortlist") || is_word(
                    &name,
                    "trellis-shortlist",
                ) {
                    push_shortlists(&mut out, cs, asym, rnorm);
                }
                assert(out@ =~= before + ivf_named(name@, cs@, asym, rnorm));
                i += 1;
            }
            assert(all.take(i as int) =~= all);
        },
    }
    out
}

/// The positive numbers of a list.
pub open spec fn positive(s: Seq<nat>) -> Seq<nat>
    decreases s.len(),
{
    if s.len() == 0 {
        s
    } else if s.last() > 0 {
        positive(s.drop_last()).push(s.last())
    } else {
        positive(s.drop_last())
    }
}

/// The shortlist sizes: 256 unless given; zero is passed over.
pub open spec fn sizes_given(o: Options) -> Seq<nat> {
    match o.value("shortlist"@) {
        None => seq![256nat],
        Some(t) => positive(numbers_in(pieces(t, ','), usize::MAX as nat)),
    }
}

fn shortlist_sizes(o: &Options) -> (v: Vec<usize>)
    ensures
        nats(v@) == sizes_given(*o),
{
    let mut v: Vec<usize> = Vec::new();
    match o.get("shortlist") {
        None => {
            v.push(256);
            assert(nats(v@) =~= seq![256nat]);
        },
        Some(t) => {
            let all: Vec<usize> = numbers(&split(&chars_of(t.as_str()), ','), usize::MAX);
            let ghost s = nats(all@);
            let mut i: usize = 0;
            assert(s.take(0) =~= Seq::empty());
            assert(nats(v@) =~= Seq::empty());
            while i < all.len()
                invariant
                    i <= all.len(),
                    s == nats(all@),
                    nats(v@) == positive(s.take(i as int)),
                decreases all.len() - i,
            {
                let ghost before = nats(v@);
                proof {
                    let u = s.take(i + 1);
                    assert(u.drop_last() =~= s.take(i as int));
                    assert(u.last() == all@[i as int] as nat);
                }
                if all[i] > 0 {
                    v.push(all[i]);
                    assert(nats(v@) =~= before.push(all@[i as int] as nat));
                }
                i += 1;
            }
            assert(s.take(i as int) =~= s);
        },
    }
    v
}

/// Whether a shortlist keeps the query in full precision: unless one of the names of the other
/// scorer is given.
pub open spec fn asym_given(o: Options) -> bool {
    match o.value("shortlist-scorer"@) {
        None => true,
        Some(t) => {
            let w = trimmed(t);
            !(w == "hamming"@ || w == "ham"@ || w == "symmetric"@)
        },
    }
}

/// Whether a shortlist weighs by norms: unless zero is given.
pub open spec fn rnorm_given(o: Options) -> bool {
    match o.value("shortlist-rnorm"@) {
        None => true,
        Some(t) => trimmed(t) != "0"@,
    }
}

/// The plan of a sweep over an inverted-file index.
pub struct IvfPlan {
    pub bits: u8,
    pub seed: u64,
    pub reps: usize,
    pub nlist: usize,
    pub nprobes: Vec<usize>,
    pub codecs: Vec<IvfCodec>,
    pub query_max: usize,
    /// The depths of a sweep with reranking, if that is what is asked for.
    pub rerank: Option<Vec<usize>>,
    /// How many lists a sweep with reranking probes.
    pub rerank_probe: usize,
}

/// The codecs of a sweep.
pub open spec fn ivf_given(o: Options, cs: Seq<usize>) -> Seq<IvfCodec> {
    match o.value("codecs"@) {
        None => ivf_default(cs, asym_given(o), rnorm_given(o)),
        Some(t) => ivf_list(pieces(t, ','), cs, asym_given(o), rnorm_given(o)),
    }
}

/// What is wrong with the options of a sweep, in the order in which it is found.
pub open spec fn ivf_error(o: Options, cs: Seq<usize>) -> Option<PlanError> {
    if o.value("dataset"@) is None {
        Some(PlanError::NoDataset)
    } else if bits_given(o) is None {
        Some(PlanError::Bits)
    } else if ivf_given(o, cs).len() == 0 {
        Some(PlanError::NoCodecs)
    } else if o.value("query-file"@) is None {
        Some(PlanError::NoQueryFile)
    } else if o.value("rerank"@) is Some && list_given(o, "rerank"@, Seq::empty()).len() == 0 {
        Some(PlanError::NoDepths)
    } else {
        None
    }
}

/// The plan of a sweep over an index of `n` vectors.
pub open spec fn is_ivf_plan(o: Options, n: nat, cs: Seq<usize>, p: IvfPlan) -> bool {
    &&& bits_given(o) == Some(p.bits as nat)
    &&& p.seed == seed_given(o)
    &&& p.reps == number_given(o, "reps"@, 3)
    &&& is_nlist(o, n, p.nlist as nat)
    &&& nats(p.nprobes@) == list_given(o, "nprobe"@, seq![1nat, 2, 4, 8, 16, 32, 64, 128])
    &&& p.codecs@ == ivf_given(o, cs)
    &&& p.query_max == number_given(o, "query-max"@, 0)
    &&& p.rerank is Some <==> o.value("rerank"@) is Some
    &&& p.rerank matches Some(d) ==> nats(d@) == list_given(o, "rerank"@, Seq::empty())
    &&& p.rerank_probe == if p.nprobes@.len() > 0 {
        p.nprobes@[0] as int
    } else {
        16
    }
}

/// The plan of a sweep over an inverted-file index of `n` vectors.
pub fn plan_ivf(o: &Options, n: usize) -> (r: Result<IvfPlan, PlanError>)
    requires
        n <= 0x4_0000_0000_0000,
    ensures
        exists|cs: Seq<usize>| #[trigger]
            nats(cs) == sizes_given(*o) && match r {
                Ok(p) => ivf_error(*o, cs) is None && is_ivf_plan(*o, n as nat, cs, p),
                Err(e) => ivf_error(*o, cs) == Some(e),
            },
{
    let cs: Vec<usize> = shortlist_sizes(o);
    assert(nats(cs@) == sizes_given(*o));
    if !given(o, "dataset") {
        return Err(PlanError::NoDataset);
    }
    let width: u8 = match bits(o) {
        Ok(b) => b,
        Err(e) => {
            return Err(e);
        },
    };
    let asym: bool = match o.get("shortlist-scorer") {
        None => true,
        Some(t) => {
            let w: Vec<char> = trim(&chars_of(t.as_str()));
            !(is_word(&w, "hamming") || is_word(&w, "ham") || is_word(&w, "symmetric"))
        },
    };
    let rnorm: bool = match o.get("shortlist-rnorm") {
        None => true,
        Some(t) => {
            let w: Vec<char> = trim(&chars_of(t.as_str()));
            !is_word(&w, "0")
        },
    };
    let codecs: Vec<IvfCodec> = ivf_codecs(o, &cs, asym, rnorm);
    if codecs.len() == 0 {
        return Err(PlanError::NoCodecs);
    }
    if !given(o, "query-file") {
        return Err(PlanError::NoQueryFile);
    }
    let root: u64 = rounded_root(n as u64);
    let asked: usize = number(o, "nlist", root as usize);
    let nlist: usize = if asked < 2 {
        2
    } else {
        asked
    };
    assert(is_nlist(*o, n as nat, nlist as nat)) by {
        assert(is_rounded_root(n as nat, root as nat));
    }
    let probes: Vec<usize> = vec![1usize, 2, 4, 8, 16, 32, 64, 128];
    assert(nats(probes@) =~= seq![1nat, 2, 4, 8, 16, 32, 64, 128]);
    let nprobes: Vec<usize> = list(o, "nprobe", probes);
    let rerank_probe: usize = if nprobes.len() > 0 {
        nprobes[0]
    } else {
        16
    };
    let rerank: Option<Vec<usize>> = if given(o, "rerank") {
        let none: Vec<usize> = Vec::new();
        assert(nats(none@) =~= Seq::<nat>::empty());
        let depths: Vec<usize> = list(o, "rerank", none);
        if depths.len() == 0 {
            assert(list_given(*o, "rerank"@, Seq::empty()).len() == 0);
            return Err(PlanError::NoDepths);
        }
        assert(nats(depths@).len() > 0);
        Some(depths)
    } else {
        None
    };
    let p: IvfPlan = IvfPlan {
        bits: width,
        seed: seed(o),
        reps: number(o, "reps", 3),
        nlist,
        nprobes,
        codecs,
        query_max: number(o, "query-max", 0),
        rerank,
        rerank_probe,
    };
    assert(is_ivf_plan(*o, n as nat, cs@, p));
    Ok(p)
}

/// The codec that a name stands for.
pub open spec fn hnsw_named(name: Seq<char>) -> Option<HnswCodec> {
    if name == "fp32"@ {
        Some(HnswCodec::Fp32)
    } else if name == "baseline"@ || name == "turboquant_baseline"@ {
        Some(HnswCodec::Baseline)
    } else if name == "rabitq"@ {
        Some(HnswCodec::Rabitq)
    } else if name == "trellis"@ || name == "trellis_recon"@ || name == "trellis-recon"@ {
        Some(HnswCodec::Trellis)
    } else if name == "trellis_codes_only"@ || name == "trellis-codes-only"@ || name
        == "trellis_codes"@ {
        Some(HnswCodec::TrellisCodesOnly)
    } else {
        None
    }
}

fn hnsw_codec(name: &Vec<char>) -> (c: Option<HnswCodec>)
    ensures
        c == hnsw_named(name@),
{
    if is_word(name, "fp32") {
        Some(HnswCodec::Fp32)
    } else if is_word(name, "baseline") || is_word(name, "turboquant_baseline") {
        Some(HnswCodec::Baseline)
    } else if is_word(name, "rabitq") {
        Some(HnswCodec::Rabitq)
    } else if is_word(name, "trellis") || is_word(name, "trellis_recon") || is_word(
        name,
        "trellis-recon",
    ) {
        Some(HnswCodec::Trellis)
    } else if is_word(name, "trellis_codes_only") || is_word(name, "trellis-codes-only") || is_word(
        name,
        "trellis_codes",
    ) {
        Some(HnswCodec::TrellisCodesOnly)
    } else {
        None
    }
}

/// The codecs that a list of names stands for; a name that nothing knows is passed over.
pub open spec fn hnsw_list(parts: Seq<Seq<char>>) -> Seq<HnswCodec>
    decreases parts.len(),
{
    if parts.len() == 0 {
        Seq::empty()
    } else {
        let before = hnsw_list(parts.drop_last());
        match hnsw_named(trimmed(parts.last())) {
            Some(c) => before.push(c),
            None => before,
        }
    }
}

/// The codecs of a sweep over a graph.
pub open spec fn hnsw_given(o: Options) -> Seq<HnswCodec> {
    match o.value("codecs"@) {
        None => seq![
            HnswCodec::Fp32,
            HnswCodec::Trellis,
            HnswCodec::TrellisCodesOnly,
            HnswCodec::Rabitq,
            HnswCodec::Baseline,
        ],
        Some(t) => hnsw_list(pieces(t, ',')),
    }
}

fn hnsw_codecs(o: &Options) -> (out: Vec<HnswCodec>)
    ensures
        out@ == hnsw_given(*o),
{
    let mut out: Vec<HnswCodec> = Vec::new();
    match o.get("codecs") {
        None => {
            out.push(HnswCodec::Fp32);
            out.push(HnswCodec::Trellis);
            out.push(HnswCodec::TrellisCodesOnly);
            out.push(HnswCodec::Rabitq);
            out.push(HnswCodec::Baseline);
            assert(out@ =~= hnsw_given(*o));
        },
        Some(t) => {
            let parts: Vec<Vec<char>> = split(&chars_of(t.as_str()), ',');
            let ghost all = views(parts@);
            let mut i: usize = 0;
            assert(all.take(0) =~= Seq::empty());
            while i < parts.len()
                invariant
                    i <= parts.len(),
                    all == views(parts@),
                    out@ == hnsw_list(all.take(i as int)),
                decreases parts.len() - i,
            {
                proof {
                    let s = all.take(i + 1);
                    assert(s.drop_last() =~= all.take(i as int));
                    assert(s.last() == parts@[i as int]@);
                }
                if let Some(c) = hnsw_codec(&trim(&parts[i])) {
                    out.push(c);
                }
                i += 1;
            }
            assert(all.take(i as int) =~= all);
        },
    }
    out
}

/// The plan of a sweep over a hierarchical graph.
pub struct HnswPlan {
    pub bits: u8,
    pub seed: u64,
    pub reps: usize,
    pub m: usize,
    pub ef_construction: usize,
    pub efs: Vec<usize>,
    pub codecs: Vec<HnswCodec>,
    pub query_max: usize,
}

/// What is wrong with the options of a sweep over a graph, in the order in which it is found.
pub open spec fn hnsw_error(o: Options) -> Option<PlanError> {
    if o.value("dataset"@) is None {
        Some(PlanError::NoDataset)
    } else if bits_given(o) is None {
        Some(PlanError::Bits)
    } else if hnsw_given(o).len() == 0 {
        Some(PlanError::NoCodecs)
    } else if o.value("query-file"@) is None {
        Some(PlanError::NoQueryFile)
    } else {
        None
    }
}

/// The plan of a sweep over a hierarchical graph.
pub fn plan_hnsw(o: &Options) -> (r: Result<HnswPlan, PlanError>)
    ensures
        match r {
            Ok(p) => {
                &&& hnsw_error(*o) is None
                &&& bits_given(*o) == Some(p.bits as nat)
                &&& p.seed == seed_given(*o)
                &&& p.reps == number_given(*o, "reps"@, 3)
                &&& p.m == number_given(*o, "m"@, 16)
                &&& p.ef_construction == number_given(*o, "ef-construction"@, 200)
                &&& nats(p.efs@) == list_given(*o, "ef"@, seq![16nat, 32, 64, 128, 256])
                &&& p.codecs@ == hnsw_given(*o)
                &&& p.query_max == number_given(*o, "query-max"@, 0)
            },
            Err(e) => hnsw_error(*o) == Some(e),
        },
{
    if !given(o, "dataset") {
        return Err(PlanError::NoDataset);
    }
    let width: u8 = match bits(o) {
        Ok(b) => b,
        Err(e) => {
            return Err(e);
        },
    };
    let codecs: Vec<HnswCodec> = hnsw_codecs(o);
    if codecs.len() == 0 {
        return Err(PlanError::NoCodecs);
    }
    if !given(o, "query-file") {
        return Err(PlanError::NoQueryFile);
    }
    let efs: Vec<usize> = vec![16usize, 32, 64, 128, 256];
    assert(nats(efs@) =~= seq![16nat, 32, 64, 128, 256]);
    Ok(
        HnswPlan {
            bits: width,
            seed: seed(o),
            reps: number(o, "reps", 3),
            m: number(o, "m", 16),
            ef_construction: number(o, "ef-construction", 200),
            efs: list(o, "ef", efs),
            codecs,
            query_max: number(o, "query-max", 0),
        },
    )
}

/// What is wrong with the options of a run with queries from a file.
pub open spec fn query_run_error(o: Options) -> Option<PlanError> {
    if o.value("dataset"@) is None {
        Some(PlanError::NoDataset)
    } else if bits_given(o) is None {
        Some(PlanError::Bits)
    } else if o.value("query-file"@) is None {
        Some(PlanError::NoQueryFile)
    } else {
        None
    }
}

/// The bit width of a run with queries from a file.
fn query_run(o: &Options) -> (r: Result<u8, PlanError>)
    ensures
        match r {
            Ok(b) => query_run_error(*o) is None && bits_given(*o) == Some(b as nat),
            Err(e) => query_run_error(*o) == Some(e),
        },
{
    if !given(o, "dataset") {
        return Err(PlanError::NoDataset);
    }
    let width: u8 = match bits(o) {
        Ok(b) => b,
        Err(e) => {
            return Err(e);
        },
    };
    if !given(o, "query-file") {
        return Err(PlanError::NoQueryFile);
    }
    Ok(width)
}

/// The plan of a stream.
pub struct StreamPlan {
    pub bits: u8,
    pub groups: usize,
    pub seed: u64,
    pub window: Option<usize>,
    pub query_max: usize,
    /// The degree and the beam of a graph, if the stream goes through one.
    pub graph: Option<(usize, usize)>,
}

/// The plan of a stream.
pub fn plan_stream(o: &Options) -> (r: Result<StreamPlan, PlanError>)
    ensures
        match r {
            Ok(p) => {
                &&& query_run_error(*o) is None
                &&& bits_given(*o) == Some(p.bits as nat)
                &&& p.groups == number_given(*o, "groups"@, 10)
                &&& p.seed == seed_given(*o)
                &&& match o.value("window"@) {
                    None => p.window is None,
                    Some(t) => match natural_upto(t, usize::MAX as nat) {
                        None => p.window is None,
                        Some(w) => p.window matches Some(x) && x == w,
                    },
                }
                &&& p.query_max == number_given(*o, "query-max"@, 0)
                &&& if o.value("graph"@) is Some {
                    p.graph matches Some(g) && g.0 == number_given(*o, "m"@, 16) && g.1
                        == number_given(*o, "ef"@, 64)
                } else {
                    p.graph is None
                }
            },
            Err(e) => query_run_error(*o) == Some(e),
        },
{
    let width: u8 = match query_run(o) {
        Ok(b) => b,
        Err(e) => {
            return Err(e);
        },
    };
    let window: Option<usize> = match o.get("window") {
        None => None,
        Some(t) => match parse_natural(&chars_of(t.as_str()), usize::MAX as u64) {
            None => None,
            Some(w) => Some(w as usize),
        },
    };
    let graph: Option<(usize, usize)> = if given(o, "graph") {
        Some((number(o, "m", 16), number(o, "ef", 64)))
    } else {
        None
    };
    Ok(
        StreamPlan {
            bits: width,
            groups: number(o, "groups", 10),
            seed: seed(o),
            window,
            query_max: number(o, "query-max", 0),
            graph,
        },
    )
}

/// The plan of a calibration sweep or of a shortlist sweep.
pub struct SweepPlan {
    pub bits: u8,
    pub seed: u64,
    pub reps: usize,
    pub sizes: Vec<usize>,
    pub query_max: usize,
}

/// The plan of a calibration sweep.
pub fn plan_coldstart(o: &Options) -> (r: Result<SweepPlan, PlanError>)
    ensures
        match r {
            Ok(p) => {
                &&& query_run_error(*o) is None
                &&& bits_given(*o) == Some(p.bits as nat)
                &&& p.seed == seed_given(*o)
                &&& p.reps == 1
                &&& nats(p.sizes@) == list_given(
                    *o,
                    "calib"@,
                    seq![64nat, 128, 256, 512, 1000, 2000, 5000, 20000, 0],
                )
                &&& p.query_max == number_given(*o, "query-max"@, 0)
            },
            Err(e) => query_run_error(*o) == Some(e),
        },
{
    let width: u8 = match query_run(o) {
        Ok(b) => b,
        Err(e) => {
            return Err(e);
        },
    };
    let sizes: Vec<usize> = vec![64usize, 128, 256, 512, 1000, 2000, 5000, 20000, 0];
    assert(nats(sizes@) =~= seq![64nat, 128, 256, 512, 1000, 2000, 5000, 20000, 0]);
    Ok(
        SweepPlan {
            bits: width,
            seed: seed(o),
            reps: 1,
            sizes: list(o, "calib", sizes),
            query_max: number(o, "query-max", 0),
        },
    )
}

/// The plan of a shortlist sweep.
pub fn plan_companion(o: &Options) -> (r: Result<SweepPlan, PlanError>)
    ensures
        match r {
            Ok(p) => {
                &&& query_run_error(*o) is None
                &&& bits_given(*o) == Some(p.bits as nat)
                &&& p.seed == seed_given(*o)
                &&& p.reps == number_given(*o, "reps"@, 3)
                &&& nats(p.sizes@) == list_given(
                    *o,
                    "shortlist"@,
                    seq![50nat, 100, 200, 500, 1000, 2000],
                )
                &&& p.query_max == number_given(*o, "query-max"@, 0)
            },
            Err(e) => query_run_error(*o) == Some(e),
        },
{
    let width: u8 = match query_run(o) {
        Ok(b) => b,
        Err(e) => {
            return Err(e);
        },
    };
    let sizes: Vec<usize> = vec![50usize, 100, 200, 500, 1000, 2000];
    assert(nats(sizes@) =~= seq![50nat, 100, 200, 500, 1000, 2000]);
    Ok(
        SweepPlan {
            bits: width,
            seed: seed(o),
            reps: number(o, "reps", 3),
            sizes: list(o, "shortlist", sizes),
            query_max: number(o, "query-max", 0),
        },
    )
}

/// The plan of an estimator diagnostic.
pub struct DiagPlan {
    pub bits: u8,
    pub sample_db: usize,
    pub sample_q: usize,
    pub n_queries: usize,
    pub seed: u64,
    /// How many queries are read from a file, if they come from one.
    pub query_max: Option<usize>,
}

/// The plan of an estimator diagnostic.
pub fn plan_diag(o: &Options) -> (r: Result<DiagPlan, PlanError>)
    ensures
        match r {
            Ok(p) => {
                &&& o.value("dataset"@) is Some
                &&& bits_given(*o) == Some(p.bits as nat)
                &&& p.sample_db == number_given(*o, "sample-db"@, 1000)
                &&& p.sample_q == number_given(*o, "sample-q"@, 100)
                &&& p.n_queries == number_given(*o, "queries"@, 200)
                &&& p.seed == seed_given(*o)
                &&& if o.value("query-file"@) is Some {
                    p.query_max matches Some(m) && m == number_given(
                        *o,
                        "query-max"@,
                        p.sample_q as nat,
                    )
                } else {
                    p.query_max is None
                }
            },
            Err(e) => {
                ||| e == PlanError::NoDataset && o.value("dataset"@) is None
                ||| e == PlanError::Bits && o.value("dataset"@) is Some && bits_given(*o) is None
            },
        },
{
    if !given(o, "dataset") {
        return Err(PlanError::NoDataset);
    }
    let width: u8 = match bits(o) {
        Ok(b) => b,
        Err(e) => {
            return Err(e);
        },
    };
    let sample_q: usize = number(o, "sample-q", 100);
    let query_max: Option<usize> = if given(o, "query-file") {
        Some(number(o, "query-max", sample_q))
    } else {
        None
    };
    Ok(
        DiagPlan {
            bits: width,
            sample_db: number(o, "sample-db", 1000),
            sample_q,
            n_queries: number(o, "queries", 200),
            seed: seed(o),
            query_max,
        },
    )
}

/// The backends that reconstruct vectors.
#[derive(Clone, Copy, Debug, PartialEq, Eq, Structural)]
pub enum Backend {
    Trellis,
    TrellisLearned,
    Rabitq,
    Pvq,
    Baseline,
    Blockquant,
    Pq,
    Ultraquant,
    Dehub,
}

/// The backend that a name stands for.
pub open spec fn backend_named(s: Seq<char>) -> Option<Backend> {
    if s == "trellis"@ {
        Some(Backend::Trellis)
    } else if s == "trellis-lr"@ {
        Some(Backend::TrellisLearned)
    } else if s == "rabitq"@ {
        Some(Backend::Rabitq)
    } else if s == "pvq"@ {
        Some(Backend::Pvq)
    } else if s == "baseline"@ {
        Some(Backend::Baseline)
    } else if s == "blockquant"@ {
        Some(Backend::Blockquant)
    } else if s == "pq"@ {
        Some(Backend::Pq)
    } else if s == "ultraquant"@ {
        Some(Backend::Ultraquant)
    } else if s == "dehub"@ {
        Some(Backend::Dehub)
    } else {
        None
    }
}

/// The backend that a name stands for.
pub fn parse_backend(s: &str) -> (b: Option<Backend>)
    ensures
        b == backend_named(s@),
{
    if same_text(s, "trellis") {
        Some(Backend::Trellis)
    } else if same_text(s, "trellis-lr") {
        Some(Backend::TrellisLearned)
    } else if same_text(s, "rabitq") {
        Some(Backend::Rabitq)
    } else if same_text(s, "pvq") {
        Some(Backend::Pvq)
    } else if same_text(s, "baseline") {
        Some(Backend::Baseline)
    } else if same_text(s, "blockquant") {
        Some(Backend::Blockquant)
    } else if same_text(s, "pq") {
        Some(Backend::Pq)
    } else if same_text(s, "ultraquant") {
        Some(Backend::Ultraquant)
    } else if same_text(s, "dehub") {
        Some(Backend::Dehub)
    } else {
        None
    }
}

/// What a reconstruction run does.
#[derive(Clone, Copy, Debug, PartialEq, Eq, Structural)]
pub enum ReconTask {
    /// Times the decoding of the trellis over so many rounds.
    DecodeBench { rounds: usize },
    /// Writes reconstructions by a backend. A budget in bytes, if there is one, is for the
    /// quantized-head codec.
    Write { backend: Backend, budget: Option<usize> },
}

/// The plan of a reconstruction run.
pub struct ReconPlan {
    pub bits: u8,
    pub task: ReconTask,
}

/// The name of the backend: the trellis unless given.
pub open spec fn backend_given(o: Options) -> Option<Backend> {
    match o.value("backend"@) {
        None => Some(Backend::Trellis),
        Some(t) => backend_named(t),
    }
}

/// What is wrong with the options of a reconstruction run, in the order in which it is found.
pub open spec fn recon_error(o: Options) -> Option<PlanError> {
    if o.value("dataset"@) is None {
        Some(PlanError::NoDataset)
    } else if bits_given(o) is None {
        Some(PlanError::Bits)
    } else if o.value("decode-bench"@) is Some {
        None
    } else if o.value("out"@) is None {
        Some(PlanError::NoOutput)
    } else if backend_given(o) is None {
        Some(PlanError::NoBackend)
    } else {
        None
    }
}

/// The plan of a reconstruction run.
pub fn plan_recon(o: &Options) -> (r: Result<ReconPlan, PlanError>)
    ensures
        match r {
            Ok(p) => {
                &&& recon_error(*o) is None
                &&& bits_given(*o) == Some(p.bits as nat)
                &&& if o.value("decode-bench"@) is Some {
                    p.task matches ReconTask::DecodeBench { rounds } && rounds == number_given(
                        *o,
                        "decode-bench"@,
                        3,
                    )
                } else {
                    p.task matches ReconTask::Write { backend, budget } && backend_given(*o) == Some(
                        backend,
                    ) && match o.value("budget-bytes"@) {
                        None => budget is None,
                        Some(t) => match natural_upto(t, usize::MAX as nat) {
                            None => budget is None,
                            Some(b) => budget matches Some(x) && x == b,
                        },
                    }
                }
            },
            Err(e) => recon_error(*o) == Some(e),
        },
{
    if !given(o, "dataset") {
        return Err(PlanError::NoDataset);
    }
    let width: u8 = match bits(o) {
        Ok(b) => b,
        Err(e) => {
            return Err(e);
        },
    };
    if given(o, "decode-bench") {
        let rounds: usize = number(o, "decode-bench", 3);
        return Ok(ReconPlan { bits: width, task: ReconTask::DecodeBench { rounds } });
    }
    if !given(o, "out") {
        return Err(PlanError::NoOutput);
    }
    let named: Option<Backend> = match o.get("backend") {
        None => Some(Backend::Trellis),
        Some(t) => parse_backend(t.as_str()),
    };
    let budget: Option<usize> = match o.get("budget-bytes") {
        None => None,
        Some(t) => match parse_natural(&chars_of(t.as_str()), usize::MAX as u64) {
            None => None,
            Some(b) => Some(b as usize),
        },
    };
    match named {
        None => Err(PlanError::NoBackend),
        Some(backend) => Ok(ReconPlan { bits: width, task: ReconTask::Write { backend, budget } }),
    }
}

// ---- What plans promise ----

/// A number that is given in decimal is taken, and one that is not given has its default.
pub proof fn given_numbers_are_taken(o: Options, key: Seq<char>, default: nat, n: nat)
    requires
        n <= usize::MAX,
    ensures
        o.value(key) is None ==> number_given(o, key, default) == default,
        o.value(key) == Some(decimal(n)) ==> number_given(o, key, default) == n,
        o.value("seed"@) is None ==> seed_given(o) == 42,
        o.value("seed"@) == Some(decimal(n)) ==> seed_given(o) == n,
{
    decimal_reads_back(n);
}

/// A list whose parts are all numbers gives these numbers in their order.
pub proof fn a_list_gives_its_numbers(parts: Seq<Seq<char>>, max: nat, v: Seq<nat>)
    requires
        parts.len() == v.len(),
        forall|i: int|
            0 <= i < parts.len() ==> natural_upto(trimmed(#[trigger] parts[i]), max) == Some(v[i]),
    ensures
        numbers_in(parts, max) == v,
    decreases parts.len(),
{
    if parts.len() > 0 {
        let front = parts.drop_last();
        assert forall|i: int| 0 <= i < front.len() implies natural_upto(
            trimmed(#[trigger] front[i]),
            max,
        ) == Some(v.drop_last()[i]) by {
            assert(front[i] == parts[i]);
        }
        a_list_gives_its_numbers(front, max, v.drop_last());
        assert(natural_upto(trimmed(parts[parts.len() - 1]), max) == Some(v[v.len() - 1]));
        assert(numbers_in(parts, max) =~= v);
    } else {
        assert(numbers_in(parts, max) =~= v);
    }
}

/// Of a list of sizes the positive ones are kept, in their order.
pub proof fn zero_sizes_are_passed_over(s: Seq<nat>)
    ensures
        forall|i: int| 0 <= i < positive(s).len() ==> (#[trigger] positive(s)[i]) > 0,
        forall|x: nat| x > 0 ==> (#[trigger] positive(s).contains(x) <==> s.contains(x)),
        positive(s).len() <= s.len(),
        (forall|i: int| 0 <= i < s.len() ==> (#[trigger] s[i]) > 0) ==> positive(s) == s,
    decreases s.len(),
{
    if s.len() > 0 {
        let front = s.drop_last();
        zero_sizes_are_passed_over(front);
        let p = positive(s);
        assert forall|x: nat| x > 0 implies (#[trigger] p.contains(x) <==> s.contains(x)) by {
            if s.contains(x) {
                let i = choose|i: int| 0 <= i < s.len() && s[i] == x;
                if i < front.len() {
                    assert(front[i] == x);
                    assert(positive(front).contains(x));
                    let q = choose|q: int| 0 <= q < positive(front).len() && positive(front)[q] == x;
                    assert(p[q] == x);
                } else {
                    assert(p[p.len() - 1] == x);
                }
            }
            if p.contains(x) {
                let q = choose|q: int| 0 <= q < p.len() && p[q] == x;
                if q < positive(front).len() {
                    assert(positive(front)[q] == x);
                    assert(positive(front).contains(x));
                    assert(front.contains(x));
                    let i = choose|i: int| 0 <= i < front.len() && front[i] == x;
                    assert(s[i] == x);
                } else {
                    assert(s[s.len() - 1] == x);
                }
            }
        }
        if forall|i: int| 0 <= i < s.len() ==> (#[trigger] s[i]) > 0 {
            assert forall|i: int| 0 <= i < front.len() implies (#[trigger] front[i]) > 0 by {
                assert(s[i] > 0);
            }
            assert(s[s.len() - 1] > 0);
            assert(p =~= s);
        }
    }
}

/// The rounded root is the integer whose square is nearest: `n` lies between its products with
/// the integers before and after it.
pub proof fn the_root_is_nearest(n: nat, r: nat)
    requires
        is_rounded_root(n, r),
    ensures
        r > 0 ==> r * (r - 1) < n,
        n <= r * (r + 1),
{
    assert((2 * r + 1) * (2 * r + 1) == 4 * (r * (r + 1)) + 1) by (nonlinear_arith);
    assert((2 * r - 1) * (2 * r - 1) == 4 * (r * (r - 1)) + 1) by (nonlinear_arith);
}

/// Without options a sweep over lists has its defaults: 42 as its seed, three passes, about the
/// square root of the vectors as lists, powers of two up to 128 as probes, and no reranking.
pub proof fn a_bare_sweep_has_its_defaults(o: Options, n: nat, cs: Seq<usize>, p: IvfPlan)
    requires
        is_ivf_plan(o, n, cs, p),
        o.value("bits"@) is None,
        o.value("seed"@) is None,
        o.value("reps"@) is None,
        o.value("nlist"@) is None,
        o.value("nprobe"@) is None,
        o.value("query-max"@) is None,
        o.value("rerank"@) is None,
        o.value("codecs"@) is None,
        n > 2,
    ensures
        p.bits == 2,
        p.seed == 42,
        p.reps == 3,
        p.nlist >= 2,
        p.nlist * (p.nlist - 1) < n <= p.nlist * (p.nlist + 1),
        p.nprobes@ == seq![1usize, 2, 4, 8, 16, 32, 64, 128],
        p.query_max == 0,
        p.rerank is None,
        p.rerank_probe == 1,
        p.codecs@.len() == 5 + cs.len(),
        p.codecs@[0] == IvfCodec::Baseline,
        p.codecs@[1] == IvfCodec::Rabitq,
        p.codecs@[2] == IvfCodec::TrellisRecon,
        p.codecs@[3] == IvfCodec::TrellisCodes,
        p.codecs@[4] == IvfCodec::Pvq,
{
    let root = choose|root: nat| #[trigger]
        is_rounded_root(n, root) && p.nlist == {
            let g = number_given(o, "nlist"@, root);
            if g < 2 {
                2
            } else {
                g
            }
        };
    the_root_is_nearest(n, root);
    if root < 2 {
        assert(root * (root + 1) <= 2) by (nonlinear_arith)
            requires
                0 <= root < 2,
        ;
    }
    assert(p.nlist == root);
    let want = seq![1nat, 2, 4, 8, 16, 32, 64, 128];
    let have = nats(p.nprobes@);
    assert(have == want);
    assert(want.len() == 8 && have.len() == p.nprobes@.len());
    assert(p.nprobes@.len() == 8);
    assert forall|i: int| 0 <= i < 8 implies p.nprobes@[i] == seq![
        1usize,
        2,
        4,
        8,
        16,
        32,
        64,
        128,
    ][i] by {
        assert(have[i] == p.nprobes@[i] as nat);
    }
    assert(p.nprobes@ =~= seq![1usize, 2, 4, 8, 16, 32, 64, 128]);
}

/// The lists of a sweep are as many as given, but at least two.
pub proof fn given_lists_are_taken(o: Options, n: nat, nlist: nat, g: nat)
    requires
        is_nlist(o, n, nlist),
        o.value("nlist"@) == Some(decimal(g)),
        g <= usize::MAX,
    ensures
        g >= 2 ==> nlist == g,
        g < 2 ==> nlist == 2,
{
    decimal_reads_back(g);
}

/// Reranking happens at the first probe.
pub proof fn reranking_happens_at_the_first_probe(
    o: Options,
    n: nat,
    cs: Seq<usize>,
    p: IvfPlan,
)
    requires
        is_ivf_plan(o, n, cs, p),
        p.nprobes@.len() > 0,
    ensures
        p.rerank_probe == p.nprobes@[0],
{
}

/// A sweep is accepted only with a dataset, queries, a rate, codecs and, if it reranks, depths;
/// and then it is accepted.
pub proof fn a_sweep_needs_what_it_reads(o: Options, cs: Seq<usize>)
    ensures
        ivf_error(o, cs) is None <==> {
            &&& o.value("dataset"@) is Some
            &&& o.value("query-file"@) is Some
            &&& bits_given(o) is Some
            &&& ivf_given(o, cs).len() > 0
            &&& o.value("rerank"@) is Some ==> list_given(o, "rerank"@, Seq::empty()).len() > 0
        },
        hnsw_error(o) is None <==> {
            &&& o.value("dataset"@) is Some
            &&& o.value("query-file"@) is Some
            &&& bits_given(o) is Some
            &&& hnsw_given(o).len() > 0
        },
        query_run_error(o) is None <==> {
            &&& o.value("dataset"@) is Some
            &&& o.value("query-file"@) is Some
            &&& bits_given(o) is Some
        },
        recon_error(o) is None <==> {
            &&& o.value("dataset"@) is Some
            &&& bits_given(o) is Some
            &&& o.value("decode-bench"@) is Some || (o.value("out"@) is Some && backend_given(
                o,
            ) is Some)
        },
{
}

/// Every codec of a list is asked for by its own name.
pub proof fn list_codecs_are_asked_for_by_name(
    c: IvfCodec,
    cs: Seq<usize>,
    asym: bool,
    rnorm: bool,
)
    requires
        !(c is TrellisShortlist),
    ensures
        ivf_named(c.name(), cs, asym, rnorm) == seq![c],
{
    reveal_strlit("baseline");
    reveal_strlit("turboquant_baseline");
    reveal_strlit("rabitq");
    reveal_strlit("trellis_recon");
    reveal_strlit("trellis-recon");
    reveal_strlit("trellis_codes");
    reveal_strlit("trellis-codes");
    reveal_strlit("pvq");
    reveal_strlit("trellis_shortlist");
    reveal_strlit("trellis-shortlist");
    assert("baseline"@.len() == 8);
    assert("turboquant_baseline"@.len() == 19);
    assert("rabitq"@.len() == 6);
    assert("trellis_recon"@.len() == 13);
    assert("trellis-recon"@.len() == 13);
    assert("trellis_codes"@.len() == 13);
    assert("trellis-codes"@.len() == 13);
    assert("pvq"@.len() == 3);
    assert("trellis_shortlist"@.len() == 17);
    assert("trellis-shortlist"@.len() == 17);
    assert("trellis_recon"@[7] == '_' && "trellis-recon"@[7] == '-' && "trellis_codes"@[7] == '_'
        && "trellis-codes"@[7] == '-');
    assert("trellis_recon"@[8] == 'r' && "trellis_codes"@[8] == 'c');
}

/// Every codec of a graph is asked for by its own name.
pub proof fn graph_codecs_are_asked_for_by_name(c: HnswCodec)
    ensures
        hnsw_named(c.name()) == Some(c),
{
    reveal_strlit("fp32");
    reveal_strlit("baseline");
    reveal_strlit("turboquant_baseline");
    reveal_strlit("rabitq");
    reveal_strlit("trellis");
    reveal_strlit("trellis_recon");
    reveal_strlit("trellis-recon");
    reveal_strlit("trellis_codes_only");
    reveal_strlit("trellis-codes-only");
    reveal_strlit("trellis_codes");
    assert("fp32"@.len() == 4);
    assert("baseline"@.len() == 8);
    assert("turboquant_baseline"@.len() == 19);
    assert("rabitq"@.len() == 6);
    assert("trellis"@.len() == 7);
    assert("trellis_recon"@.len() == 13);
    assert("trellis-recon"@.len() == 13);
    assert("trellis_codes_only"@.len() == 18);
    assert("trellis-codes-only"@.len() == 18);
    assert("trellis_codes"@.len() == 13);
}

/// A backend is known to the command line exactly if it is one that can reconstruct.
pub proof fn known_backends_are_accepted(s: Seq<char>)
    ensures
        backend_named(s) is Some <==> crate::cli::backend_word(s),
{
}

/// A list of names stands for what its names stand for, one after the other.
pub proof fn a_list_of_names_is_read_in_order(
    parts: Seq<Seq<char>>,
    name: Seq<char>,
    cs: Seq<usize>,
    asym: bool,
    rnorm: bool,
)
    ensures
        ivf_list(parts.push(name), cs, asym, rnorm) == ivf_list(parts, cs, asym, rnorm)
            + ivf_named(trimmed(name), cs, asym, rnorm),
        ivf_list(Seq::empty(), cs, asym, rnorm).len() == 0,
        hnsw_named(trimmed(name)) matches Some(c) ==> hnsw_list(parts.push(name)) == hnsw_list(
            parts,
        ).push(c),
        hnsw_named(trimmed(name)) is None ==> hnsw_list(parts.push(name)) == hnsw_list(parts),
{
    assert(parts.push(name).drop_last() =~= parts);
}

/// What a comparison is held against: the given ids first, then inner products, then queries from
/// a file, and else held-out queries.
pub proof fn a_protocol_is_chosen_in_order(o: Options)
    ensures
        protocol_given(o) == Protocol::Gold <==> o.value("gold-file"@) is Some,
        protocol_given(o) == Protocol::IpExternal <==> o.value("gold-file"@) is None && o.value(
            "metric"@,
        ) == Some("ip"@) && o.value("query-file"@) is Some,
        protocol_given(o) == Protocol::IpSplit <==> o.value("gold-file"@) is None && o.value(
            "metric"@,
        ) == Some("ip"@) && o.value("query-file"@) is None,
        protocol_given(o) == Protocol::External <==> o.value("gold-file"@) is None && o.value(
            "metric"@,
        ) != Some("ip"@) && o.value("query-file"@) is Some,
{
}

/// Every command is called by its own word; a call for help has three.
pub proof fn commands_are_called_by_name(s: Seq<char>)
    ensures
        command_named("bench"@) == Some(Command::Bench),
        command_named("ivf"@) == Some(Command::Ivf),
        command_named("hnsw"@) == Some(Command::Hnsw),
        command_named("diag"@) == Some(Command::Diag),
        command_named("recon"@) == Some(Command::Recon),
        command_named("stream"@) == Some(Command::Stream),
        command_named("coldstart"@) == Some(Command::Coldstart),
        command_named("companion"@) == Some(Command::Companion),
        command_named(s) == Some(Command::Help) <==> s == "-h"@ || s == "--help"@ || s == "help"@,
        command_named(s) is None ==> s != "bench"@ && s != "ivf"@ && s != "hnsw"@ && s != "help"@,
        command_named(s) is Some ==> s.len() <= 9,
{
    reveal_strlit("bench");
    reveal_strlit("ivf");
    reveal_strlit("hnsw");
    reveal_strlit("diag");
    reveal_strlit("recon");
    reveal_strlit("stream");
    reveal_strlit("coldstart");
    reveal_strlit("companion");
    reveal_strlit("-h");
    reveal_strlit("--help");
    reveal_strlit("help");
    assert("bench"@.len() == 5 && "bench"@[0] == 'b');
    assert("recon"@.len() == 5 && "recon"@[0] == 'r');
    assert("hnsw"@.len() == 4 && "hnsw"@[0] == 'h' && "hnsw"@[1] == 'n');
    assert("help"@.len() == 4 && "help"@[1] == 'e');
    assert("diag"@.len() == 4 && "diag"@[0] == 'd');
    assert("stream"@.len() == 6 && "stream"@[0] == 's');
    assert("--help"@.len() == 6 && "--help"@[0] == '-');
    assert("coldstart"@.len() == 9 && "coldstart"@[2] == 'l');
    assert("companion"@.len() == 9 && "companion"@[2] == 'm');
    assert("ivf"@.len() == 3);
    assert("-h"@.len() == 2);
}

/// Of several sets of variants that are asked for, the narrowest comparison comes first; without
/// any, all variants are run.
pub proof fn a_set_of_variants_is_chosen_in_order(o: Options)
    ensures
        set_given(o) == VariantSet::Sota3 <==> o.value("sota3"@) is Some,
        set_given(o) == VariantSet::Sota <==> o.value("sota3"@) is None && o.value("sota"@)
            is Some,
        set_given(o) == VariantSet::Full <==> o.value("sota3"@) is None && o.value("sota"@) is None
            && o.value("aniso"@) is None && o.value("pq"@) is None && o.value("lean"@) is None,
        set_given(o) == VariantSet::Aniso ==> o.value("aniso"@) is Some,
        set_given(o) == VariantSet::Pq ==> o.value("pq"@) is Some && o.value("aniso"@) is None,
        set_given(o) == VariantSet::Lean ==> o.value("lean"@) is Some && o.value("pq"@) is None,
{
}

/// Shortlists have the sizes that are given, in their order, with nothing for a size of zero; by
/// default there is one of 256.
pub proof fn shortlist_sizes_are_given(o: Options, t: Seq<char>, v: Seq<nat>)
    requires
        pieces(t, ',').len() == v.len(),
        forall|i: int|
            0 <= i < v.len() ==> v[i] > 0 && natural_upto(
                trimmed(#[trigger] pieces(t, ',')[i]),
                usize::MAX as nat,
            ) == Some(v[i]),
    ensures
        o.value("shortlist"@) is None ==> sizes_given(o) == seq![256nat],
        o.value("shortlist"@) == Some(t) ==> sizes_given(o) == v,
        forall|i: int| 0 <= i < sizes_given(o).len() ==> (#[trigger] sizes_given(o)[i]) > 0,
{
    if o.value("shortlist"@) is Some {
        zero_sizes_are_passed_over(
            numbers_in(pieces(o.value("shortlist"@)->0, ','), usize::MAX as nat),
        );
        if o.value("shortlist"@) == Some(t) {
            a_list_gives_its_numbers(pieces(t, ','), usize::MAX as nat, v);
            assert forall|i: int| 0 <= i < v.len() implies (#[trigger] v[i]) > 0 by {
                assert(natural_upto(trimmed(pieces(t, ',')[i]), usize::MAX as nat) == Some(v[i]));
            }
        }
    }
}

} // verus!
