//! Pages of the recall-against-throughput sweeps.

use vstd::prelude::*;
use vstd::string::*;

use crate::cli::texts;
use crate::hnsw::HnswCodec;
use crate::ivf::{per_vector, recall_at_ten, recall_ten, resident_with_rerank, share, IvfCodec};
use crate::page::{
    a_page_shows_what_its_parts_show, a_row_is_its_cells_between_bars,
    a_table_begins_with_its_head, all_cells, append_joined, append_rows, append_table,
    every_row_is_shown, fill, filled, joined_text, line_of, row_text, rows_text, shows, table_text,
};
use crate::pareto::{
    are_tenfold, best_of, best_point, derived_from, derived_targets, eligible, first_seen, is_best,
    is_finite_key, is_target_list, is_top_recall, recall_targets, seen_codecs, the_best_is_unique,
    top_recall, Operating, Point,
};
use crate::scored::ItemId;
use crate::text::{decimal, decimal_of};

verus! {

pub const RERANK_TITLE: &'static str = "# IVF recall@10 vs QPS WITH exact rerank — {}\n\n";

pub const RERANK_FACTS: &'static str =
    "- dim **{}**, db **{}**, queries **{}**, nlist **{}**, {}-bit, **{} threads**. The deployed ANN protocol: IVF retrieves the top-`rdepth` candidates by the compressed codec, then re-scores them by **exact fp32 cosine** (a separate memory tier) and returns the true top-10.\n";

pub const RERANK_NOTES: &'static str =
    "- `code B/vec` is the serialized codec footprint. `resident B/vec` includes index/model/cache memory and, when `rdepth>0`, the fp32 exact-vector tier.\n\n";

pub const RERANK_HEAD: &'static str =
    "| codec | regime | nprobe | rdepth | recall@10 | QPS | code B/vec | resident B/vec |\n|---|---|---|---|---|---|---|---|\n";

pub const RERANK_TARGETS: &'static str =
    "\n## QPS at a fixed recall target (smaller rdepth -> higher QPS; the fidelity codec needs fewer)\n\n";

pub const RERANK_PART: &'static str = "{} {} QPS @ rdepth {}";

pub const UNREACHED: &'static str = "{} (target unreached)";

pub const TARGET_LINE: &'static str = "- **recall@10 >= {}:** ";

pub const HNSW_TITLE: &'static str = "# HNSW recall@10 vs QPS Pareto (codec drop-in) — {}\n\n";

pub const HNSW_FACTS: &'static str =
    "- dim **{}**, db **{}**, queries **{}**, graph **M={}**, ef_construction **{}**, {}-bit, **{} threads**.\n";

pub const HNSW_NOTES: &'static str =
    "- Pure-Rust, BLAS-free HNSW (Malkov & Yashunin 2018). A graph is rebuilt from each codec's reconstructed vectors, and the same reconstructions are resident during search. This is a controlled navigation study, not a codes-only production index. recall@10 is vs **exact cosine top-10** over the same database.\n- `code B/vec` is the serialized codec footprint. `resident B/vec` additionally includes the graph and the mandatory fp32 reconstruction cache used by this implementation. Recall--QPS comparisons must use the resident column.\n\n";

pub const HNSW_HEAD: &'static str =
    "| codec | ef | recall@10 | QPS | code B/vec | resident B/vec | build s |\n|---|---|---|---|---|---|---|\n";

pub const HNSW_TARGETS: &'static str =
    "\n## QPS at a fixed recall target (the fidelity codec reaches it at smaller ef → higher QPS)\n\n";

pub const HNSW_PART: &'static str = "{} {} QPS @ ef {} ({} B/vec)";

pub const IVF_TITLE: &'static str = "# IVF recall@10 vs QPS Pareto — {}\n\n";

pub const IVF_FACTS: &'static str =
    "- dim **{}**, db **{}**, queries **{}**, nlist **{}**, {}-bit, seed **{}**, **{} threads** (rayon, queries fanned out)\n";

pub const IVF_NOTES: &'static str =
    "- recall@10 is measured against exact cosine top-10 ground truth over the same database; QPS is wall-clock over the full query set.\n- trellis is reported in both deployment modes: `trellis_recon` uses a decode-free fp32 reconstruction cache; `trellis_codes` performs per-candidate Viterbi-state decoding from the compact representation.\n\n## recall@10 vs QPS, per codec × nprobe\n\n";

pub const IVF_HEAD: &'static str =
    "| codec | regime | nprobe | recall@10 | QPS | mean µs/q | code B/vec | resident B/vec |\n|---|---|---|---|---|---|---|---|\n";

pub const IVF_TARGETS: &'static str =
    "\n## QPS at a recall@10 target (highest QPS among nprobes that reach it)\n\nTargets include the standard systems-paper thresholds reached here plus data-derived ones (fractions of the max achieved recall@10 = {}).\n\n";

pub const IVF_WINNERS: &'static str =
    "\n## Pareto winner per recall@10 target (max QPS across all codecs)\n\n| R@10 target | winning codec | QPS | nprobe |\n|---|---|---|---|\n";

pub const REACHED: &'static str = "R@10≥{}";

pub const AT_LEAST: &'static str = "≥{}";

pub const WINNER: &'static str = "{} ({})";

/// One codec at one number of probed lists.
pub struct ParetoPoint {
    pub codec: String,
    pub regime: String,
    pub nprobe: usize,
    pub mean_us: String,
    /// Found items, of `total` to be found.
    pub hits: u64,
    pub total: u64,
    /// The recall as text.
    pub recall10: String,
    /// The order key of the throughput.
    pub speed: i64,
    /// The throughput as text.
    pub qps: String,
    pub bytes_per_vec: usize,
    pub total_resident_bytes_per_vec: usize,
}

impl Point for ParetoPoint {
    open spec fn operating(&self) -> Operating {
        Operating {
            codec: self.codec@,
            hits: self.hits as nat,
            total: self.total as nat,
            speed: self.speed as int,
        }
    }

    fn codec(&self) -> (r: &String) {
        &self.codec
    }

    fn hits(&self) -> (r: u64) {
        self.hits
    }

    fn total(&self) -> (r: u64) {
        self.total
    }

    fn speed(&self) -> (r: i64) {
        self.speed
    }
}

/// One codec at one rerank depth.
pub struct RerankPoint {
    pub codec: String,
    pub regime: String,
    pub nprobe: usize,
    pub rdepth: usize,
    /// Found items, of `total` to be found.
    pub hits: u64,
    pub total: u64,
    /// The recall as text.
    pub recall10: String,
    /// The order key of the throughput.
    pub speed: i64,
    /// The throughput as text.
    pub qps: String,
    pub bytes_per_vec: usize,
    pub total_resident_bytes_per_vec: usize,
}

impl Point for RerankPoint {
    open spec fn operating(&self) -> Operating {
        Operating {
            codec: self.codec@,
            hits: self.hits as nat,
            total: self.total as nat,
            speed: self.speed as int,
        }
    }

    fn codec(&self) -> (r: &String) {
        &self.codec
    }

    fn hits(&self) -> (r: u64) {
        self.hits
    }

    fn total(&self) -> (r: u64) {
        self.total
    }

    fn speed(&self) -> (r: i64) {
        self.speed
    }
}

/// One codec at one beam width.
pub struct HnswPoint {
    pub codec: String,
    pub ef: usize,
    pub build_s: String,
    /// Found items, of `total` to be found.
    pub hits: u64,
    pub total: u64,
    /// The recall as text.
    pub recall10: String,
    /// The order key of the throughput.
    pub speed: i64,
    /// The throughput as text.
    pub qps: String,
    pub bytes_per_vec: usize,
    pub total_resident_bytes_per_vec: usize,
}

impl Point for HnswPoint {
    open spec fn operating(&self) -> Operating {
        Operating {
            codec: self.codec@,
            hits: self.hits as nat,
            total: self.total as nat,
            speed: self.speed as int,
        }
    }

    fn codec(&self) -> (r: &String) {
        &self.codec
    }

    fn hits(&self) -> (r: u64) {
        self.hits
    }

    fn total(&self) -> (r: u64) {
        self.total
    }

    fn speed(&self) -> (r: i64) {
        self.speed
    }
}

/// A recall target in thousandths, and its label.
pub struct RecallTarget {
    pub thousandths: u32,
    pub label: String,
}

/// A sweep over the number of probed lists.
pub struct IvfReport {
    pub dataset: String,
    pub dim: usize,
    pub n_db: usize,
    pub n_queries: usize,
    pub nlist: usize,
    pub bits: u8,
    pub seed: u64,
    pub threads: usize,
    pub points: Vec<ParetoPoint>,
}

/// A sweep over the rerank depth.
pub struct RerankReport {
    pub dataset: String,
    pub dim: usize,
    pub n_db: usize,
    pub n_queries: usize,
    pub nlist: usize,
    pub bits: u8,
    pub threads: usize,
    pub points: Vec<RerankPoint>,
}

/// A sweep over the beam width.
pub struct HnswReport {
    pub dataset: String,
    pub dim: usize,
    pub n_db: usize,
    pub n_queries: usize,
    pub m: usize,
    pub ef_construction: usize,
    pub bits: u8,
    pub threads: usize,
    pub points: Vec<HnswPoint>,
}

/// The cells of a point of a probe sweep.
pub open spec fn ivf_cells(p: ParetoPoint) -> Seq<Seq<char>> {
    seq![
        p.codec@,
        p.regime@,
        decimal(p.nprobe as nat),
        p.recall10@,
        p.qps@,
        p.mean_us@,
        decimal(p.bytes_per_vec as nat),
        decimal(p.total_resident_bytes_per_vec as nat),
    ]
}

/// The rows of these cells.
pub open spec fn ivf_rows(points: Seq<ParetoPoint>) -> Seq<Seq<Seq<char>>> {
    Seq::new(points.len(), |i: int| ivf_cells(points[i]))
}

fn append_ivf_rows(out: &mut String, points: &Vec<ParetoPoint>)
    ensures
        final(out)@ == old(out)@ + rows_text(ivf_rows(points@)),
{
    let mut rows: Vec<Vec<String>> = Vec::with_capacity(points.len());
    let mut i: usize = 0;
    while i < points.len()
        invariant
            i <= points.len(),
            rows.len() == i,
            forall|k: int|
                0 <= k < i ==> texts((#[trigger] rows@[k])@) == ivf_cells(points@[k]),
        decreases points.len() - i,
    {
        let p: &ParetoPoint = &points[i];
        let cells: Vec<String> = vec![
            p.codec.clone(),
            p.regime.clone(),
            decimal_of(p.nprobe as u64),
            p.recall10.clone(),
            p.qps.clone(),
            p.mean_us.clone(),
            decimal_of(p.bytes_per_vec as u64),
            decimal_of(p.total_resident_bytes_per_vec as u64),
        ];
        assert(texts(cells@) =~= ivf_cells(*p));
        rows.push(cells);
        i += 1;
    }
    assert(all_cells(rows@) =~= ivf_rows(points@));
    append_rows(out, &rows);
}

/// The cells of a point of a rerank sweep.
pub open spec fn rerank_cells(p: RerankPoint) -> Seq<Seq<char>> {
    seq![
        p.codec@,
        p.regime@,
        decimal(p.nprobe as nat),
        decimal(p.rdepth as nat),
        p.recall10@,
        p.qps@,
        decimal(p.bytes_per_vec as nat),
        decimal(p.total_resident_bytes_per_vec as nat),
    ]
}

/// The rows of these cells.
pub open spec fn rerank_rows(points: Seq<RerankPoint>) -> Seq<Seq<Seq<char>>> {
    Seq::new(points.len(), |i: int| rerank_cells(points[i]))
}

fn append_rerank_rows(out: &mut String, points: &Vec<RerankPoint>)
    ensures
        final(out)@ == old(out)@ + rows_text(rerank_rows(points@)),
{
    let mut rows: Vec<Vec<String>> = Vec::with_capacity(points.len());
    let mut i: usize = 0;
    while i < points.len()
        invariant
            i <= points.len(),
            rows.len() == i,
            forall|k: int|
                0 <= k < i ==> texts((#[trigger] rows@[k])@) == rerank_cells(points@[k]),
        decreases points.len() - i,
    {
        let p: &RerankPoint = &points[i];
        let cells: Vec<String> = vec![
            p.codec.clone(),
            p.regime.clone(),
            decimal_of(p.nprobe as u64),
            decimal_of(p.rdepth as u64),
            p.recall10.clone(),
            p.qps.clone(),
            decimal_of(p.bytes_per_vec as u64),
            decimal_of(p.total_resident_bytes_per_vec as u64),
        ];
        assert(texts(cells@) =~= rerank_cells(*p));
        rows.push(cells);
        i += 1;
    }
    assert(all_cells(rows@) =~= rerank_rows(points@));
    append_rows(out, &rows);
}

/// The cells of a point of a beam sweep.
pub open spec fn hnsw_cells(p: HnswPoint) -> Seq<Seq<char>> {
    seq![
        p.codec@,
        decimal(p.ef as nat),
        p.recall10@,
        p.qps@,
        decimal(p.bytes_per_vec as nat),
        decimal(p.total_resident_bytes_per_vec as nat),
        p.build_s@,
    ]
}

/// The rows of these cells.
pub open spec fn hnsw_rows(points: Seq<HnswPoint>) -> Seq<Seq<Seq<char>>> {
    Seq::new(points.len(), |i: int| hnsw_cells(points[i]))
}

fn append_hnsw_rows(out: &mut String, points: &Vec<HnswPoint>)
    ensures
        final(out)@ == old(out)@ + rows_text(hnsw_rows(points@)),
{
    let mut rows: Vec<Vec<String>> = Vec::with_capacity(points.len());
    let mut i: usize = 0;
    while i < points.len()
        invariant
            i <= points.len(),
            rows.len() == i,
            forall|k: int|
                0 <= k < i ==> texts((#[trigger] rows@[k])@) == hnsw_cells(points@[k]),
        decreases points.len() - i,
    {
        let p: &HnswPoint = &points[i];
        let cells: Vec<String> = vec![
            p.codec.clone(),
            decimal_of(p.ef as u64),
            p.recall10.clone(),
            p.qps.clone(),
            decimal_of(p.bytes_per_vec as u64),
            decimal_of(p.total_resident_bytes_per_vec as u64),
            p.build_s.clone(),
        ];
        assert(texts(cells@) =~= hnsw_cells(*p));
        rows.push(cells);
        i += 1;
    }
    assert(all_cells(rows@) =~= hnsw_rows(points@));
    append_rows(out, &rows);
}

/// What one codec does at a target.
pub open spec fn rerank_part(points: Seq<RerankPoint>, codec: Seq<char>, target: nat) -> Seq<char> {
    match best_of(points, Some(codec), target) {
        Some(b) => filled(RERANK_PART@, rerank_fillings(codec, points[b])),
        None => filled(UNREACHED@, seq![codec]),
    }
}

/// What a summary tells of a codec's fastest point.
pub open spec fn rerank_fillings(codec: Seq<char>, p: RerankPoint) -> Seq<Seq<char>> {
    seq![codec, p.qps@, decimal(p.rdepth as nat)]
}

/// What each codec does at a target.
pub open spec fn rerank_parts(points: Seq<RerankPoint>, target: nat) -> Seq<Seq<char>> {
    let codecs = first_seen(points, points.len() as int);
    Seq::new(codecs.len(), |i: int| rerank_part(points, codecs[i], target))
}

/// The line of a target.
pub open spec fn rerank_line(points: Seq<RerankPoint>, target: nat, label: Seq<char>) -> Seq<char> {
    filled(TARGET_LINE@, seq![label]) + joined_text(rerank_parts(points, target), " · "@) + "\n"@
}

fn append_rerank_line(out: &mut String, points: &Vec<RerankPoint>, target: u32, label: &str)
    ensures
        final(out)@ == old(out)@ + rerank_line(points@, target as nat, label@),
{
    let ghost before = out@;
    let a: Vec<String> = vec![label.to_owned()];
    assert(texts(a@) =~= seq![label@]);
    fill(out, TARGET_LINE, &a);
    let codecs: Vec<String> = seen_codecs(points);
    let mut parts: Vec<String> = Vec::with_capacity(codecs.len());
    let mut i: usize = 0;
    while i < codecs.len()
        invariant
            i <= codecs.len(),
            parts.len() == i,
            forall|k: int|
                0 <= k < i ==> (#[trigger] parts@[k])@ == rerank_part(
                    points@,
                    codecs@[k]@,
                    target as nat,
                ),
        decreases codecs.len() - i,
    {
        let mut part: String = String::new();
        match best_point(points, Some(&codecs[i]), target) {
            Some(b) => {
                let p: &RerankPoint = &points[b];
                let c: Vec<String> = vec![codecs[i].clone(), p.qps.clone(), decimal_of(p.rdepth as u64)];
                assert(texts(c@) =~= rerank_fillings(codecs@[i as int]@, *p));
                fill(&mut part, RERANK_PART, &c);
            },
            None => {
                let c: Vec<String> = vec![codecs[i].clone()];
                assert(texts(c@) =~= seq![codecs@[i as int]@]);
                fill(&mut part, UNREACHED, &c);
            },
        }
        assert(part@ =~= rerank_part(points@, codecs@[i as int]@, target as nat));
        parts.push(part);
        i += 1;
    }
    proof {
        let named = texts(codecs@);
        assert(named == first_seen(points@, points@.len() as int));
        assert forall|k: int| 0 <= k < parts.len() implies #[trigger] texts(parts@)[k]
            == rerank_parts(points@, target as nat)[k] by {
            assert(named[k] == codecs@[k]@);
            assert(parts@[k]@ == rerank_part(points@, codecs@[k]@, target as nat));
        }
        assert(texts(parts@) =~= rerank_parts(points@, target as nat));
    }
    append_joined(out, &parts, " · ");
    out.append("\n");
    assert(out@ =~= before + rerank_line(points@, target as nat, label@));
}

/// The lines of the usual targets.
pub open spec fn rerank_summary(points: Seq<RerankPoint>) -> Seq<char> {
    rerank_line(points, 900, "0.90"@) + rerank_line(points, 950, "0.95"@) + rerank_line(
        points,
        990,
        "0.99"@,
    )
}

fn append_rerank_summary(out: &mut String, points: &Vec<RerankPoint>)
    ensures
        final(out)@ == old(out)@ + rerank_summary(points@),
{
    let ghost before = out@;
    append_rerank_line(out, points, 900, "0.90");
    append_rerank_line(out, points, 950, "0.95");
    append_rerank_line(out, points, 990, "0.99");
    assert(out@ =~= before + rerank_summary(points@));
}

/// What one codec does at a target.
pub open spec fn hnsw_part(points: Seq<HnswPoint>, codec: Seq<char>, target: nat) -> Seq<char> {
    match best_of(points, Some(codec), target) {
        Some(b) => filled(HNSW_PART@, hnsw_fillings(codec, points[b])),
        None => filled(UNREACHED@, seq![codec]),
    }
}

/// What a summary tells of a codec's fastest point.
pub open spec fn hnsw_fillings(codec: Seq<char>, p: HnswPoint) -> Seq<Seq<char>> {
    seq![codec, p.qps@, decimal(p.ef as nat), decimal(p.bytes_per_vec as nat)]
}

/// What each codec does at a target.
pub open spec fn hnsw_parts(points: Seq<HnswPoint>, target: nat) -> Seq<Seq<char>> {
    let codecs = first_seen(points, points.len() as int);
    Seq::new(codecs.len(), |i: int| hnsw_part(points, codecs[i], target))
}

/// The line of a target.
pub open spec fn hnsw_line(points: Seq<HnswPoint>, target: nat, label: Seq<char>) -> Seq<char> {
    filled(TARGET_LINE@, seq![label]) + joined_text(hnsw_parts(points, target), " · "@) + "\n"@
}

fn append_hnsw_line(out: &mut String, points: &Vec<HnswPoint>, target: u32, label: &str)
    ensures
        final(out)@ == old(out)@ + hnsw_line(points@, target as nat, label@),
{
    let ghost before = out@;
    let a: Vec<String> = vec![label.to_owned()];
    assert(texts(a@) =~= seq![label@]);
    fill(out, TARGET_LINE, &a);
    let codecs: Vec<String> = seen_codecs(points);
    let mut parts: Vec<String> = Vec::with_capacity(codecs.len());
    let mut i: usize = 0;
    while i < codecs.len()
        invariant
            i <= codecs.len(),
            parts.len() == i,
            forall|k: int|
                0 <= k < i ==> (#[trigger] parts@[k])@ == hnsw_part(
                    points@,
                    codecs@[k]@,
                    target as nat,
                ),
        decreases codecs.len() - i,
    {
        let mut part: String = String::new();
        match best_point(points, Some(&codecs[i]), target) {
            Some(b) => {
                let p: &HnswPoint = &points[b];
                let c: Vec<String> = vec![
                    codecs[i].clone(),
                    p.qps.clone(),
                    decimal_of(p.ef as u64),
                    decimal_of(p.bytes_per_vec as u64),
                ];
                assert(texts(c@) =~= hnsw_fillings(codecs@[i as int]@, *p));
                fill(&mut part, HNSW_PART, &c);
            },
            None => {
                let c: Vec<String> = vec![codecs[i].clone()];
                assert(texts(c@) =~= seq![codecs@[i as int]@]);
                fill(&mut part, UNREACHED, &c);
            },
        }
        assert(part@ =~= hnsw_part(points@, codecs@[i as int]@, target as nat));
        parts.push(part);
        i += 1;
    }
    proof {
        let named = texts(codecs@);
        assert(named == first_seen(points@, points@.len() as int));
        assert forall|k: int| 0 <= k < parts.len() implies #[trigger] texts(parts@)[k]
            == hnsw_parts(points@, target as nat)[k] by {
            assert(named[k] == codecs@[k]@);
            assert(parts@[k]@ == hnsw_part(points@, codecs@[k]@, target as nat));
        }
        assert(texts(parts@) =~= hnsw_parts(points@, target as nat));
    }
    append_joined(out, &parts, " · ");
    out.append("\n");
    assert(out@ =~= before + hnsw_line(points@, target as nat, label@));
}

/// The lines of the usual targets.
pub open spec fn hnsw_summary(points: Seq<HnswPoint>) -> Seq<char> {
    hnsw_line(points, 900, "0.90"@) + hnsw_line(points, 950, "0.95"@) + hnsw_line(
        points,
        990,
        "0.99"@,
    )
}

fn append_hnsw_summary(out: &mut String, points: &Vec<HnswPoint>)
    ensures
        final(out)@ == old(out)@ + hnsw_summary(points@),
{
    let ghost before = out@;
    append_hnsw_line(out, points, 900, "0.90");
    append_hnsw_line(out, points, 950, "0.95");
    append_hnsw_line(out, points, 990, "0.99");
    assert(out@ =~= before + hnsw_summary(points@));
}

/// The page of a rerank sweep.
pub open spec fn rerank_page(r: RerankReport) -> Seq<char> {
    filled(RERANK_TITLE@, seq![r.dataset@])
        + filled(
            RERANK_FACTS@,
            seq![
                decimal(r.dim as nat),
                decimal(r.n_db as nat),
                decimal(r.n_queries as nat),
                decimal(r.nlist as nat),
                decimal(r.bits as nat),
                decimal(r.threads as nat),
            ],
        )
        + RERANK_NOTES@
        + RERANK_HEAD@
        + rows_text(rerank_rows(r.points@))
        + RERANK_TARGETS@
        + rerank_summary(r.points@)
}

/// The page of a rerank sweep.
pub fn render_rerank_markdown(r: &RerankReport) -> (s: String)
    ensures
        s@ == rerank_page(*r),
{
    let mut s: String = String::new();
    let a1: Vec<String> = vec![r.dataset.clone()];
    assert(texts(a1@) =~= seq![r.dataset@]);
    fill(&mut s, RERANK_TITLE, &a1);
    assert(s@ =~= filled(RERANK_TITLE@, seq![r.dataset@]));
    let a2: Vec<String> = vec![
        decimal_of(r.dim as u64),
        decimal_of(r.n_db as u64),
        decimal_of(r.n_queries as u64),
        decimal_of(r.nlist as u64),
        decimal_of(r.bits as u64),
        decimal_of(r.threads as u64),
    ];
    assert(texts(a2@) =~= seq![
        decimal(r.dim as nat),
        decimal(r.n_db as nat),
        decimal(r.n_queries as nat),
        decimal(r.nlist as nat),
        decimal(r.bits as nat),
        decimal(r.threads as nat),
    ]);
    fill(&mut s, RERANK_FACTS, &a2);
    s.append(RERANK_NOTES);
    s.append(RERANK_HEAD);
    append_rerank_rows(&mut s, &r.points);
    s.append(RERANK_TARGETS);
    append_rerank_summary(&mut s, &r.points);
    s
}

/// The page of a beam sweep.
pub open spec fn hnsw_page(r: HnswReport) -> Seq<char> {
    filled(HNSW_TITLE@, seq![r.dataset@])
        + filled(
            HNSW_FACTS@,
            seq![
                decimal(r.dim as nat),
                decimal(r.n_db as nat),
                decimal(r.n_queries as nat),
                decimal(r.m as nat),
                decimal(r.ef_construction as nat),
                decimal(r.bits as nat),
                decimal(r.threads as nat),
            ],
        )
        + HNSW_NOTES@
        + HNSW_HEAD@
        + rows_text(hnsw_rows(r.points@))
        + HNSW_TARGETS@
        + hnsw_summary(r.points@)
}

/// The page of a beam sweep.
pub fn render_hnsw_markdown(r: &HnswReport) -> (s: String)
    ensures
        s@ == hnsw_page(*r),
{
    let mut s: String = String::new();
    let a1: Vec<String> = vec![r.dataset.clone()];
    assert(texts(a1@) =~= seq![r.dataset@]);
    fill(&mut s, HNSW_TITLE, &a1);
    assert(s@ =~= filled(HNSW_TITLE@, seq![r.dataset@]));
    let a2: Vec<String> = vec![
        decimal_of(r.dim as u64),
        decimal_of(r.n_db as u64),
        decimal_of(r.n_queries as u64),
        decimal_of(r.m as u64),
        decimal_of(r.ef_construction as u64),
        decimal_of(r.bits as u64),
        decimal_of(r.threads as u64),
    ];
    assert(texts(a2@) =~= seq![
        decimal(r.dim as nat),
        decimal(r.n_db as nat),
        decimal(r.n_queries as nat),
        decimal(r.m as nat),
        decimal(r.ef_construction as nat),
        decimal(r.bits as nat),
        decimal(r.threads as nat),
    ]);
    fill(&mut s, HNSW_FACTS, &a2);
    s.append(HNSW_NOTES);
    s.append(HNSW_HEAD);
    append_hnsw_rows(&mut s, &r.points);
    s.append(HNSW_TARGETS);
    append_hnsw_summary(&mut s, &r.points);
    s
}

/// The head of the table of targets.
pub open spec fn target_heads(targets: Seq<RecallTarget>) -> Seq<Seq<char>> {
    seq!["codec"@] + Seq::new(
        targets.len(),
        |i: int| filled(REACHED@, seq![targets[i].label@]),
    )
}

/// The throughput of a codec at a target, a dash where it is not reached.
pub open spec fn speed_cell(
    points: Seq<ParetoPoint>,
    codec: Seq<char>,
    target: nat,
) -> Seq<char> {
    match best_of(points, Some(codec), target) {
        Some(b) => if is_finite_key(points[b].speed as int) {
            points[b].qps@
        } else {
            "—"@
        },
        None => "—"@,
    }
}

/// The row of a codec in the table of targets.
pub open spec fn codec_cells(
    points: Seq<ParetoPoint>,
    codec: Seq<char>,
    targets: Seq<RecallTarget>,
) -> Seq<Seq<char>> {
    seq![codec] + Seq::new(
        targets.len(),
        |i: int| speed_cell(points, codec, targets[i].thousandths as nat),
    )
}

/// The rows of the table of targets.
pub open spec fn codec_rows(
    points: Seq<ParetoPoint>,
    targets: Seq<RecallTarget>,
) -> Seq<Seq<Seq<char>>> {
    let codecs = first_seen(points, points.len() as int);
    Seq::new(codecs.len(), |i: int| codec_cells(points, codecs[i], targets))
}

fn codec_row(points: &Vec<ParetoPoint>, codec: &String, targets: &Vec<RecallTarget>) -> (cells: Vec<
    String,
>)
    ensures
        texts(cells@) == codec_cells(points@, codec@, targets@),
{
    let mut cells: Vec<String> = Vec::new();
    cells.push(codec.clone());
    let mut i: usize = 0;
    while i < targets.len()
        invariant
            i <= targets.len(),
            cells.len() == i + 1,
            cells@[0]@ == codec@,
            forall|k: int|
                1 <= k <= i ==> (#[trigger] cells@[k])@ == speed_cell(
                    points@,
                    codec@,
                    targets@[k - 1].thousandths as nat,
                ),
        decreases targets.len() - i,
    {
        let cell: String = match best_point(points, Some(codec), targets[i].thousandths) {
            Some(b) => {
                let speed: i64 = points[b].speed;
                if -0x7FF0_0000_0000_0000 <= speed && speed < 0x7FF0_0000_0000_0000 {
                    points[b].qps.clone()
                } else {
                    "—".to_owned()
                }
            },
            None => "—".to_owned(),
        };
        cells.push(cell);
        i += 1;
    }
    assert(texts(cells@) =~= codec_cells(points@, codec@, targets@));
    cells
}

fn append_codec_table(out: &mut String, points: &Vec<ParetoPoint>, targets: &Vec<RecallTarget>)
    ensures
        final(out)@ == old(out)@ + table_text(
            target_heads(targets@),
            codec_rows(points@, targets@),
        ),
{
    let mut heads: Vec<String> = Vec::new();
    heads.push("codec".to_owned());
    let mut i: usize = 0;
    while i < targets.len()
        invariant
            i <= targets.len(),
            heads.len() == i + 1,
            heads@[0]@ == "codec"@,
            forall|k: int|
                1 <= k <= i ==> (#[trigger] heads@[k])@ == filled(
                    REACHED@,
                    seq![targets@[k - 1].label@],
                ),
        decreases targets.len() - i,
    {
        let a: Vec<String> = vec![targets[i].label.clone()];
        assert(texts(a@) =~= seq![targets@[i as int].label@]);
        let mut head: String = String::new();
        fill(&mut head, REACHED, &a);
        assert(head@ =~= filled(REACHED@, seq![targets@[i as int].label@]));
        heads.push(head);
        i += 1;
    }
    assert(texts(heads@) =~= target_heads(targets@));
    let codecs: Vec<String> = seen_codecs(points);
    let mut rows: Vec<Vec<String>> = Vec::with_capacity(codecs.len());
    let mut j: usize = 0;
    while j < codecs.len()
        invariant
            j <= codecs.len(),
            rows.len() == j,
            forall|k: int|
                0 <= k < j ==> texts((#[trigger] rows@[k])@) == codec_cells(
                    points@,
                    codecs@[k]@,
                    targets@,
                ),
        decreases codecs.len() - j,
    {
        rows.push(codec_row(points, &codecs[j], targets));
        j += 1;
    }
    proof {
        let named = texts(codecs@);
        assert forall|k: int| 0 <= k < rows.len() implies #[trigger] all_cells(rows@)[k]
            == codec_rows(points@, targets@)[k] by {
            assert(named[k] == codecs@[k]@);
            assert(texts(rows@[k]@) == codec_cells(points@, codecs@[k]@, targets@));
        }
        assert(all_cells(rows@) =~= codec_rows(points@, targets@));
    }
    append_table(out, &heads, &rows);
}

/// The row of a target in the table of winners.
pub open spec fn winner_cells(points: Seq<ParetoPoint>, t: RecallTarget) -> Seq<Seq<char>> {
    let label = filled(AT_LEAST@, seq![t.label@]);
    match best_of(points, None, t.thousandths as nat) {
        Some(b) => seq![
            label,
            filled(WINNER@, seq![points[b].codec@, points[b].regime@]),
            points[b].qps@,
            decimal(points[b].nprobe as nat),
        ],
        None => seq![label, "(none reached)"@, "—"@, "—"@],
    }
}

/// The rows of the table of winners.
pub open spec fn winner_rows(
    points: Seq<ParetoPoint>,
    targets: Seq<RecallTarget>,
) -> Seq<Seq<Seq<char>>> {
    Seq::new(targets.len(), |i: int| winner_cells(points, targets[i]))
}

fn append_winners(out: &mut String, points: &Vec<ParetoPoint>, targets: &Vec<RecallTarget>)
    ensures
        final(out)@ == old(out)@ + rows_text(winner_rows(points@, targets@)),
{
    let mut rows: Vec<Vec<String>> = Vec::with_capacity(targets.len());
    let mut i: usize = 0;
    while i < targets.len()
        invariant
            i <= targets.len(),
            rows.len() == i,
            forall|k: int|
                0 <= k < i ==> texts((#[trigger] rows@[k])@) == winner_cells(points@, targets@[k]),
        decreases targets.len() - i,
    {
        let t: &RecallTarget = &targets[i];
        let a: Vec<String> = vec![t.label.clone()];
        assert(texts(a@) =~= seq![t.label@]);
        let mut label: String = String::new();
        fill(&mut label, AT_LEAST, &a);
        assert(label@ =~= filled(AT_LEAST@, seq![t.label@]));
        let cells: Vec<String> = match best_point(points, None, t.thousandths) {
            Some(b) => {
                let p: &ParetoPoint = &points[b];
                let c: Vec<String> = vec![p.codec.clone(), p.regime.clone()];
                assert(texts(c@) =~= seq![p.codec@, p.regime@]);
                let mut winner: String = String::new();
                fill(&mut winner, WINNER, &c);
                assert(winner@ =~= filled(WINNER@, seq![p.codec@, p.regime@]));
                vec![label, winner, p.qps.clone(), decimal_of(p.nprobe as u64)]
            },
            None => vec![label, "(none reached)".to_owned(), "—".to_owned(), "—".to_owned()],
        };
        assert(texts(cells@) =~= winner_cells(points@, *t));
        rows.push(cells);
        i += 1;
    }
    assert(all_cells(rows@) =~= winner_rows(points@, targets@));
    append_rows(out, &rows);
}

/// The page of a probe sweep with the given targets and the given text of its best recall.
pub open spec fn ivf_page(
    r: IvfReport,
    targets: Seq<RecallTarget>,
    max_recall: Seq<char>,
) -> Seq<char> {
    filled(IVF_TITLE@, seq![r.dataset@])
        + filled(
            IVF_FACTS@,
            seq![
                decimal(r.dim as nat),
                decimal(r.n_db as nat),
                decimal(r.n_queries as nat),
                decimal(r.nlist as nat),
                decimal(r.bits as nat),
                decimal(r.seed as nat),
                decimal(r.threads as nat),
            ],
        )
        + IVF_NOTES@
        + IVF_HEAD@
        + rows_text(ivf_rows(r.points@))
        + filled(IVF_TARGETS@, seq![max_recall])
        + table_text(target_heads(targets), codec_rows(r.points@, targets))
        + IVF_WINNERS@
        + rows_text(winner_rows(r.points@, targets))
}

/// Each target carries the label that `label` gives it.
pub open spec fn are_labelled<F: Fn(u32) -> String>(
    label: F,
    thousandths: Seq<u32>,
    targets: Seq<RecallTarget>,
) -> bool {
    &&& targets.len() == thousandths.len()
    &&& forall|i: int|
        0 <= i < targets.len() ==> (#[trigger] targets[i]).thousandths == thousandths[i]
            && label.ensures((thousandths[i],), targets[i].label)
}

/// The page of a probe sweep. The targets are the usual ones that some point reaches and shares
/// of the best recall; `label` writes a target in thousandths, `top` the best recall.
pub open spec fn is_ivf_page<F: Fn(u32) -> String, G: Fn(u64, u64) -> String>(
    r: IvfReport,
    label: F,
    top: G,
    page: Seq<char>,
) -> bool {
    exists|hits: u64, total: u64, best: String, thousandths: Seq<u32>, targets: Seq<RecallTarget>|
        {
            &&& is_top_recall(r.points@, hits as nat, total as nat)
            &&& #[trigger] top.ensures((hits, total), best)
            &&& is_target_list(
                r.points@,
                derived_from(hits as nat, total as nat),
                thousandths,
            )
            &&& #[trigger] are_labelled(label, thousandths, targets)
            &&& page == ivf_page(r, targets, best@)
        }
}

/// The page of a probe sweep, for the tables that its points alone give: the targets follow from
/// the points.
pub fn render_ivf_markdown<F: Fn(u32) -> String, G: Fn(u64, u64) -> String>(
    r: &IvfReport,
    label: &F,
    top: &G,
) -> (s: String)
    requires
        are_tenfold(r.points@),
        forall|t: u32| #[trigger] label.requires((t,)),
        forall|hits: u64, total: u64| #[trigger] top.requires((hits, total)),
    ensures
        is_ivf_page(*r, *label, *top, s@),
{
    let (hits, total): (u64, u64) = top_recall(&r.points);
    let best: String = top(hits, total);
    let thousandths: Vec<u32> = recall_targets(&r.points, &derived_targets(hits, total));
    let mut targets: Vec<RecallTarget> = Vec::with_capacity(thousandths.len());
    let mut i: usize = 0;
    while i < thousandths.len()
        invariant
            i <= thousandths.len(),
            targets.len() == i,
            forall|t: u32| #[trigger] label.requires((t,)),
            forall|k: int|
                0 <= k < i ==> (#[trigger] targets@[k]).thousandths == thousandths@[k]
                    && label.ensures((thousandths@[k],), targets@[k].label),
        decreases thousandths.len() - i,
    {
        let t: u32 = thousandths[i];
        targets.push(RecallTarget { thousandths: t, label: label(t) });
        i += 1;
    }
    let s: String = render_ivf_page(r, &targets, &best);
    assert(are_labelled(*label, thousandths@, targets@));
    s
}

/// The page of a probe sweep: every point, the fastest point of each codec at each target, and
/// the winner of each target.
pub fn render_ivf_page(
    r: &IvfReport,
    targets: &Vec<RecallTarget>,
    max_recall: &String,
) -> (s: String)
    ensures
        s@ == ivf_page(*r, targets@, max_recall@),
{
    let mut s: String = String::new();
    let a1: Vec<String> = vec![r.dataset.clone()];
    assert(texts(a1@) =~= seq![r.dataset@]);
    fill(&mut s, IVF_TITLE, &a1);
    assert(s@ =~= filled(IVF_TITLE@, seq![r.dataset@]));
    let a2: Vec<String> = vec![
        decimal_of(r.dim as u64),
        decimal_of(r.n_db as u64),
        decimal_of(r.n_queries as u64),
        decimal_of(r.nlist as u64),
        decimal_of(r.bits as u64),
        decimal_of(r.seed as u64),
        decimal_of(r.threads as u64),
    ];
    assert(texts(a2@) =~= seq![
        decimal(r.dim as nat),
        decimal(r.n_db as nat),
        decimal(r.n_queries as nat),
        decimal(r.nlist as nat),
        decimal(r.bits as nat),
        decimal(r.seed as nat),
        decimal(r.threads as nat),
    ]);
    fill(&mut s, IVF_FACTS, &a2);
    s.append(IVF_NOTES);
    s.append(IVF_HEAD);
    append_ivf_rows(&mut s, &r.points);
    let a3: Vec<String> = vec![max_recall.clone()];
    assert(texts(a3@) =~= seq![max_recall@]);
    fill(&mut s, IVF_TARGETS, &a3);
    append_codec_table(&mut s, &r.points, targets);
    s.append(IVF_WINNERS);
    append_winners(&mut s, &r.points, targets);
    s
}

/// What was measured at an operating point: the order key of the throughput, and the measured
/// values as text.
pub struct Measured {
    pub speed: i64,
    pub recall10: String,
    pub qps: String,
    /// The time per query, or of the build.
    pub time: String,
}

/// The bytes of an index that holds `n` vectors: those of its codes and all resident ones.
#[derive(Clone, Copy)]
pub struct Footprint {
    pub code: usize,
    pub resident: usize,
    pub n: usize,
}

/// The point of a codec at one number of probed lists.
pub fn ivf_point(
    codec: IvfCodec,
    nprobe: usize,
    gold: &Vec<Vec<ItemId>>,
    got: &Vec<Vec<ItemId>>,
    bytes: Footprint,
    measured: Measured,
) -> (p: ParetoPoint)
    requires
        gold.len() <= u32::MAX,
    ensures
        p.codec@ == codec.name(),
        p.regime@ == codec.regime_text(),
        p.nprobe == nprobe,
        (p.hits as int, p.total as int) == recall_at_ten(gold@, got@),
        p.hits <= 10 * p.total,
        p.bytes_per_vec == share(bytes.code as nat, bytes.n as nat),
        p.total_resident_bytes_per_vec == share(bytes.resident as nat, bytes.n as nat),
        p.recall10 == measured.recall10,
        p.speed == measured.speed,
        p.qps == measured.qps,
        p.mean_us == measured.time,
{
    let (hits, total): (u64, u64) = recall_ten(gold, got);
    ParetoPoint {
        codec: codec.label(),
        regime: codec.regime().to_owned(),
        nprobe,
        mean_us: measured.time,
        hits,
        total,
        recall10: measured.recall10,
        speed: measured.speed,
        qps: measured.qps,
        bytes_per_vec: per_vector(bytes.code, bytes.n),
        total_resident_bytes_per_vec: per_vector(bytes.resident, bytes.n),
    }
}

/// The point of a codec at one rerank depth. Reranking keeps the exact vectors of `dim`
/// coordinates at four bytes each.
pub fn rerank_point(
    codec: IvfCodec,
    nprobe: usize,
    rdepth: usize,
    dim: usize,
    gold: &Vec<Vec<ItemId>>,
    got: &Vec<Vec<ItemId>>,
    bytes: Footprint,
    measured: Measured,
) -> (p: RerankPoint)
    requires
        gold.len() <= u32::MAX,
        rdepth > 0 ==> share(bytes.resident as nat, bytes.n as nat) + 4 * dim <= usize::MAX,
    ensures
        p.codec@ == codec.name(),
        p.regime@ == codec.regime_text(),
        p.nprobe == nprobe,
        p.rdepth == rdepth,
        (p.hits as int, p.total as int) == recall_at_ten(gold@, got@),
        p.bytes_per_vec == share(bytes.code as nat, bytes.n as nat),
        p.total_resident_bytes_per_vec == share(bytes.resident as nat, bytes.n as nat) + if rdepth
            > 0 {
            4 * dim
        } else {
            0
        },
        p.recall10 == measured.recall10,
        p.speed == measured.speed,
        p.qps == measured.qps,
{
    let (hits, total): (u64, u64) = recall_ten(gold, got);
    let per_vec: usize = per_vector(bytes.resident, bytes.n);
    RerankPoint {
        codec: codec.label(),
        regime: codec.regime().to_owned(),
        nprobe,
        rdepth,
        hits,
        total,
        recall10: measured.recall10,
        speed: measured.speed,
        qps: measured.qps,
        bytes_per_vec: per_vector(bytes.code, bytes.n),
        total_resident_bytes_per_vec: resident_with_rerank(per_vec, dim, rdepth),
    }
}

/// The point of a codec at one beam width; `bytes_per_vec` is what the codec stores.
pub fn hnsw_point(
    codec: HnswCodec,
    ef: usize,
    gold: &Vec<Vec<ItemId>>,
    got: &Vec<Vec<ItemId>>,
    bytes_per_vec: usize,
    resident: usize,
    n: usize,
    measured: Measured,
) -> (p: HnswPoint)
    requires
        gold.len() <= u32::MAX,
    ensures
        p.codec@ == codec.name(),
        p.ef == ef,
        (p.hits as int, p.total as int) == recall_at_ten(gold@, got@),
        p.bytes_per_vec == bytes_per_vec,
        p.total_resident_bytes_per_vec == share(resident as nat, n as nat),
        p.recall10 == measured.recall10,
        p.speed == measured.speed,
        p.qps == measured.qps,
        p.build_s == measured.time,
{
    let (hits, total): (u64, u64) = recall_ten(gold, got);
    HnswPoint {
        codec: codec.label().to_owned(),
        ef,
        build_s: measured.time,
        hits,
        total,
        recall10: measured.recall10,
        speed: measured.speed,
        qps: measured.qps,
        bytes_per_vec,
        total_resident_bytes_per_vec: per_vector(resident, n),
    }
}

// ---- What the pages promise ----

/// Every point of a probe sweep has its line: codec, regime, probed lists, recall, throughput, time
/// for a query, code bytes and resident bytes.
pub proof fn a_probe_sweep_shows_every_point(r: IvfReport, targets: Seq<RecallTarget>, max_recall: Seq<char>, i: int)
    requires
        0 <= i < r.points@.len(),
    ensures
        shows(
            ivf_page(r, targets, max_recall),
            line_of(
                seq![
                    r.points@[i].codec@,
                    r.points@[i].regime@,
                    decimal(r.points@[i].nprobe as nat),
                    r.points@[i].recall10@,
                    r.points@[i].qps@,
                    r.points@[i].mean_us@,
                    decimal(r.points@[i].bytes_per_vec as nat),
                    decimal(r.points@[i].total_resident_bytes_per_vec as nat),
                ],
            ),
        ),
{
    let page = ivf_page(r, targets, max_recall);
    let rows = ivf_rows(r.points@);
    let front = filled(IVF_TITLE@, seq![r.dataset@]) + filled(
        IVF_FACTS@,
        seq![
            decimal(r.dim as nat),
            decimal(r.n_db as nat),
            decimal(r.n_queries as nat),
            decimal(r.nlist as nat),
            decimal(r.bits as nat),
            decimal(r.seed as nat),
            decimal(r.threads as nat),
        ],
    ) + IVF_NOTES@ + IVF_HEAD@;
    let back = filled(IVF_TARGETS@, seq![max_recall])
        + table_text(target_heads(targets), codec_rows(r.points@, targets)) + IVF_WINNERS@
        + rows_text(winner_rows(r.points@, targets));
    let cells = seq![
        r.points@[i].codec@,
                    r.points@[i].regime@,
                    decimal(r.points@[i].nprobe as nat),
                    r.points@[i].recall10@,
                    r.points@[i].qps@,
                    r.points@[i].mean_us@,
                    decimal(r.points@[i].bytes_per_vec as nat),
                    decimal(r.points@[i].total_resident_bytes_per_vec as nat),
    ];
    assert(page =~= front + rows_text(rows) + back);
    every_row_is_shown(rows, i);
    assert(rows[i] =~= cells);
    a_row_is_its_cells_between_bars(cells);
    a_page_shows_what_its_parts_show(page, front, rows_text(rows), back, row_text(rows[i]));
}

/// Every point of a rerank sweep has its line: codec, regime, probed lists, rerank depth, recall,
/// throughput, code bytes and resident bytes.
pub proof fn a_rerank_sweep_shows_every_point(r: RerankReport, i: int)
    requires
        0 <= i < r.points@.len(),
    ensures
        shows(
            rerank_page(r),
            line_of(
                seq![
                    r.points@[i].codec@,
                    r.points@[i].regime@,
                    decimal(r.points@[i].nprobe as nat),
                    decimal(r.points@[i].rdepth as nat),
                    r.points@[i].recall10@,
                    r.points@[i].qps@,
                    decimal(r.points@[i].bytes_per_vec as nat),
                    decimal(r.points@[i].total_resident_bytes_per_vec as nat),
                ],
            ),
        ),
{
    let page = rerank_page(r);
    let rows = rerank_rows(r.points@);
    let front = filled(RERANK_TITLE@, seq![r.dataset@]) + filled(
        RERANK_FACTS@,
        seq![
            decimal(r.dim as nat),
            decimal(r.n_db as nat),
            decimal(r.n_queries as nat),
            decimal(r.nlist as nat),
            decimal(r.bits as nat),
            decimal(r.threads as nat),
        ],
    ) + RERANK_NOTES@ + RERANK_HEAD@;
    let back = RERANK_TARGETS@ + rerank_summary(r.points@);
    let cells = seq![
        r.points@[i].codec@,
                    r.points@[i].regime@,
                    decimal(r.points@[i].nprobe as nat),
                    decimal(r.points@[i].rdepth as nat),
                    r.points@[i].recall10@,
                    r.points@[i].qps@,
                    decimal(r.points@[i].bytes_per_vec as nat),
                    decimal(r.points@[i].total_resident_bytes_per_vec as nat),
    ];
    assert(page =~= front + rows_text(rows) + back);
    every_row_is_shown(rows, i);
    assert(rows[i] =~= cells);
    a_row_is_its_cells_between_bars(cells);
    a_page_shows_what_its_parts_show(page, front, rows_text(rows), back, row_text(rows[i]));
}

/// Every point of a beam sweep has its line: codec, beam width, recall, throughput, code bytes,
/// resident bytes and the time of the build.
pub proof fn a_beam_sweep_shows_every_point(r: HnswReport, i: int)
    requires
        0 <= i < r.points@.len(),
    ensures
        shows(
            hnsw_page(r),
            line_of(
                seq![
                    r.points@[i].codec@,
                    decimal(r.points@[i].ef as nat),
                    r.points@[i].recall10@,
                    r.points@[i].qps@,
                    decimal(r.points@[i].bytes_per_vec as nat),
                    decimal(r.points@[i].total_resident_bytes_per_vec as nat),
                    r.points@[i].build_s@,
                ],
            ),
        ),
{
    let page = hnsw_page(r);
    let rows = hnsw_rows(r.points@);
    let front = filled(HNSW_TITLE@, seq![r.dataset@]) + filled(
        HNSW_FACTS@,
        seq![
            decimal(r.dim as nat),
            decimal(r.n_db as nat),
            decimal(r.n_queries as nat),
            decimal(r.m as nat),
            decimal(r.ef_construction as nat),
            decimal(r.bits as nat),
            decimal(r.threads as nat),
        ],
    ) + HNSW_NOTES@ + HNSW_HEAD@;
    let back = HNSW_TARGETS@ + hnsw_summary(r.points@);
    let cells = seq![
        r.points@[i].codec@,
                    decimal(r.points@[i].ef as nat),
                    r.points@[i].recall10@,
                    r.points@[i].qps@,
                    decimal(r.points@[i].bytes_per_vec as nat),
                    decimal(r.points@[i].total_resident_bytes_per_vec as nat),
                    r.points@[i].build_s@,
    ];
    assert(page =~= front + rows_text(rows) + back);
    every_row_is_shown(rows, i);
    assert(rows[i] =~= cells);
    a_row_is_its_cells_between_bars(cells);
    a_page_shows_what_its_parts_show(page, front, rows_text(rows), back, row_text(rows[i]));
}

/// A codec's cell at a target shows the throughput of its fastest point that reaches the target,
/// or a dash where there is none.
pub proof fn a_cell_shows_the_fastest_point(
    points: Seq<ParetoPoint>,
    codec: Seq<char>,
    target: nat,
    b: int,
)
    requires
        0 <= b < points.len(),
        points[b].codec@ == codec,
        points[b].total > 0,
        1000 * points[b].hits >= target * points[b].total,
        is_finite_key(points[b].speed as int),
        forall|i: int|
            0 <= i < points.len() && i != b && (#[trigger] points[i]).codec@ == codec
                && points[i].total > 0 && 1000 * points[i].hits >= target * points[i].total
                ==> points[i].speed < points[b].speed,
    ensures
        speed_cell(points, codec, target) == points[b].qps@,
{
    assert(is_best(points, Some(codec), target, Some(b))) by {
        assert forall|i: int|
            0 <= i < points.len() && eligible(#[trigger] points[i], Some(codec), target) implies {
            &&& points[i].operating().speed <= points[b].operating().speed
            &&& i > b ==> points[i].operating().speed < points[b].operating().speed
        } by {
            assert(points[i].codec@ == codec);
        }
    }
    the_best_is_unique(
        points,
        Some(codec),
        target,
        best_of(points, Some(codec), target),
        Some(b),
    );
}

/// Where no point of a codec reaches a target, its cell holds a dash.
pub proof fn an_unreached_target_shows_a_dash(
    points: Seq<ParetoPoint>,
    codec: Seq<char>,
    target: nat,
)
    requires
        forall|i: int|
            0 <= i < points.len() && (#[trigger] points[i]).codec@ == codec && points[i].total > 0
                ==> 1000 * points[i].hits < target * points[i].total,
    ensures
        speed_cell(points, codec, target) == "—"@,
{
    assert(is_best(points, Some(codec), target, None)) by {
        assert forall|i: int| 0 <= i < points.len() implies !eligible(
            #[trigger] points[i],
            Some(codec),
            target,
        ) by {
            assert(points[i].operating().codec == points[i].codec@);
        }
    }
    the_best_is_unique(points, Some(codec), target, best_of(points, Some(codec), target), None);
}

/// The winner of a target is the fastest point of all that reach it.
pub proof fn the_winner_is_the_fastest_of_all(points: Seq<ParetoPoint>, t: RecallTarget, b: int)
    requires
        0 <= b < points.len(),
        points[b].total > 0,
        1000 * points[b].hits >= t.thousandths * points[b].total,
        forall|i: int|
            0 <= i < points.len() && i != b && (#[trigger] points[i]).total > 0 && 1000
                * points[i].hits >= t.thousandths * points[i].total ==> points[i].speed
                < points[b].speed,
    ensures
        winner_cells(points, t).len() == 4,
        winner_cells(points, t)[2] == points[b].qps@,
        winner_cells(points, t)[3] == decimal(points[b].nprobe as nat),
        winner_cells(points, t)[1] == filled(WINNER@, seq![points[b].codec@, points[b].regime@]),
        winner_cells(points, t)[0] == filled(AT_LEAST@, seq![t.label@]),
{
    assert(is_best(points, None, t.thousandths as nat, Some(b))) by {
        assert forall|i: int|
            0 <= i < points.len() && eligible(
                #[trigger] points[i],
                None,
                t.thousandths as nat,
            ) implies {
            &&& points[i].operating().speed <= points[b].operating().speed
            &&& i > b ==> points[i].operating().speed < points[b].operating().speed
        } by {
            assert(points[i].total > 0);
        }
    }
    the_best_is_unique(
        points,
        None,
        t.thousandths as nat,
        best_of(points, None, t.thousandths as nat),
        Some(b),
    );
}

/// A rerank sweep opens with its data set, dimension, sizes, lists, rate and threads.
pub proof fn a_rerank_sweep_opens_with_its_facts(r: RerankReport)
    ensures
        (filled(RERANK_TITLE@, seq![r.dataset@]) + filled(
            RERANK_FACTS@,
            seq![
                decimal(r.dim as nat),
                decimal(r.n_db as nat),
                decimal(r.n_queries as nat),
                decimal(r.nlist as nat),
                decimal(r.bits as nat),
                decimal(r.threads as nat),
            ],
        )).is_prefix_of(rerank_page(r)),
{
    let opening = filled(RERANK_TITLE@, seq![r.dataset@]) + filled(
        RERANK_FACTS@,
        seq![
            decimal(r.dim as nat),
            decimal(r.n_db as nat),
            decimal(r.n_queries as nat),
            decimal(r.nlist as nat),
            decimal(r.bits as nat),
            decimal(r.threads as nat),
        ],
    );
    assert(rerank_page(r) =~= opening + (RERANK_NOTES@ + RERANK_HEAD@ + rows_text(
        rerank_rows(r.points@),
    ) + RERANK_TARGETS@ + rerank_summary(r.points@)));
    assert(rerank_page(r).subrange(0, opening.len() as int) =~= opening);
}

/// A beam sweep opens with its data set, dimension, sizes, degree, width, rate and threads.
pub proof fn a_beam_sweep_opens_with_its_facts(r: HnswReport)
    ensures
        (filled(HNSW_TITLE@, seq![r.dataset@]) + filled(
            HNSW_FACTS@,
            seq![
                decimal(r.dim as nat),
                decimal(r.n_db as nat),
                decimal(r.n_queries as nat),
                decimal(r.m as nat),
                decimal(r.ef_construction as nat),
                decimal(r.bits as nat),
                decimal(r.threads as nat),
            ],
        )).is_prefix_of(hnsw_page(r)),
{
    let opening = filled(HNSW_TITLE@, seq![r.dataset@]) + filled(
        HNSW_FACTS@,
        seq![
            decimal(r.dim as nat),
            decimal(r.n_db as nat),
            decimal(r.n_queries as nat),
            decimal(r.m as nat),
            decimal(r.ef_construction as nat),
            decimal(r.bits as nat),
            decimal(r.threads as nat),
        ],
    );
    assert(hnsw_page(r) =~= opening + (HNSW_NOTES@ + HNSW_HEAD@ + rows_text(
        hnsw_rows(r.points@),
    ) + HNSW_TARGETS@ + hnsw_summary(r.points@)));
    assert(hnsw_page(r).subrange(0, opening.len() as int) =~= opening);
}

/// A probe sweep opens with its data set, dimension, sizes, lists, rate, seed and threads.
pub proof fn a_probe_sweep_opens_with_its_facts(r: IvfReport, targets: Seq<RecallTarget>, max_recall: Seq<char>)
    ensures
        (filled(IVF_TITLE@, seq![r.dataset@]) + filled(
            IVF_FACTS@,
            seq![
                decimal(r.dim as nat),
                decimal(r.n_db as nat),
                decimal(r.n_queries as nat),
                decimal(r.nlist as nat),
                decimal(r.bits as nat),
                decimal(r.seed as nat),
                decimal(r.threads as nat),
            ],
        )).is_prefix_of(ivf_page(r, targets, max_recall)),
{
    let opening = filled(IVF_TITLE@, seq![r.dataset@]) + filled(
        IVF_FACTS@,
        seq![
            decimal(r.dim as nat),
            decimal(r.n_db as nat),
            decimal(r.n_queries as nat),
            decimal(r.nlist as nat),
            decimal(r.bits as nat),
            decimal(r.seed as nat),
            decimal(r.threads as nat),
        ],
    );
    assert(ivf_page(r, targets, max_recall) =~= opening + (IVF_NOTES@ + IVF_HEAD@ + rows_text(
        ivf_rows(r.points@),
    ) + filled(IVF_TARGETS@, seq![max_recall]) + table_text(
        target_heads(targets),
        codec_rows(r.points@, targets),
    ) + IVF_WINNERS@ + rows_text(winner_rows(r.points@, targets))));
    assert(ivf_page(r, targets, max_recall).subrange(0, opening.len() as int) =~= opening);
}

/// A probe sweep has a line for every codec, with a cell for every target, and a line for the
/// winner of every target.
pub proof fn a_probe_sweep_shows_every_codec(
    r: IvfReport,
    targets: Seq<RecallTarget>,
    max_recall: Seq<char>,
    i: int,
    j: int,
)
    requires
        0 <= i < r.points@.len(),
        0 <= j < targets.len(),
    ensures
        ({
            let codec = r.points@[i].codec@;
            let speeds = Seq::new(
                targets.len(),
                |t: int| speed_cell(r.points@, codec, targets[t].thousandths as nat),
            );
            let page = ivf_page(r, targets, max_recall);
            &&& shows(page, line_of(seq![codec] + speeds))
            &&& shows(page, line_of(winner_cells(r.points@, targets[j])))
            &&& shows(page, filled(IVF_TARGETS@, seq![max_recall]))
        }),
{
    let points = r.points@;
    let page = ivf_page(r, targets, max_recall);
    let codecs = first_seen(points, points.len() as int);
    let codec = points[i].codec@;
    lemma_codec_seen(points, points.len() as int, i);
    let c = choose|c: int| 0 <= c < codecs.len() && codecs[c] == codec;
    let rows = codec_rows(points, targets);
    let winners = winner_rows(points, targets);
    let cells = codec_cells(points, codec, targets);
    assert(rows[c] == cells);
    assert(winners[j] == winner_cells(points, targets[j]));
    a_table_begins_with_its_head(target_heads(targets), rows, c);
    every_row_is_shown(winners, j);
    a_row_is_its_cells_between_bars(cells);
    a_row_is_its_cells_between_bars(winner_cells(points, targets[j]));
    let top = filled(IVF_TITLE@, seq![r.dataset@]) + filled(
        IVF_FACTS@,
        seq![
            decimal(r.dim as nat),
            decimal(r.n_db as nat),
            decimal(r.n_queries as nat),
            decimal(r.nlist as nat),
            decimal(r.bits as nat),
            decimal(r.seed as nat),
            decimal(r.threads as nat),
        ],
    ) + IVF_NOTES@ + IVF_HEAD@ + rows_text(ivf_rows(points));
    let best = filled(IVF_TARGETS@, seq![max_recall]);
    let table = table_text(target_heads(targets), rows);
    let rest = IVF_WINNERS@ + rows_text(winners);
    assert(page =~= top + best + (table + rest));
    assert(page =~= (top + best) + table + rest);
    a_page_shows_what_its_parts_show(page, top + best, table, rest, row_text(cells));
    let front = top + best + table + IVF_WINNERS@;
    assert(page =~= front + rows_text(winners) + Seq::<char>::empty());
    a_page_shows_what_its_parts_show(
        page,
        front,
        rows_text(winners),
        Seq::empty(),
        row_text(winners[j]),
    );
}

proof fn lemma_codec_seen<T: Point>(points: Seq<T>, n: int, i: int)
    requires
        0 <= i < n <= points.len(),
    ensures
        first_seen(points, n).contains(points[i].operating().codec),
    decreases n,
{
    let before = first_seen(points, n - 1);
    let codec = points[n - 1].operating().codec;
    if i < n - 1 {
        lemma_codec_seen(points, n - 1, i);
        let c = choose|c: int| 0 <= c < before.len() && before[c] == points[i].operating().codec;
        assert(first_seen(points, n)[c] == before[c]);
    } else if !before.contains(codec) {
        assert(first_seen(points, n)[before.len() as int] == codec);
    }
}

/// A summary names for each codec its fastest point that reaches the target.
pub proof fn a_summary_names_the_fastest_point(
    points: Seq<HnswPoint>,
    codec: Seq<char>,
    target: nat,
    b: int,
)
    requires
        0 <= b < points.len(),
        points[b].codec@ == codec,
        points[b].total > 0,
        1000 * points[b].hits >= target * points[b].total,
        forall|i: int|
            0 <= i < points.len() && i != b && (#[trigger] points[i]).codec@ == codec
                && points[i].total > 0 && 1000 * points[i].hits >= target * points[i].total
                ==> points[i].speed < points[b].speed,
    ensures
        hnsw_part(points, codec, target) == filled(
            HNSW_PART@,
            seq![
                codec,
                points[b].qps@,
                decimal(points[b].ef as nat),
                decimal(points[b].bytes_per_vec as nat),
            ],
        ),
{
    assert(is_best(points, Some(codec), target, Some(b))) by {
        assert forall|i: int|
            0 <= i < points.len() && eligible(#[trigger] points[i], Some(codec), target) implies {
            &&& points[i].operating().speed <= points[b].operating().speed
            &&& i > b ==> points[i].operating().speed < points[b].operating().speed
        } by {
            assert(points[i].codec@ == codec);
        }
    }
    the_best_is_unique(
        points,
        Some(codec),
        target,
        best_of(points, Some(codec), target),
        Some(b),
    );
}

/// A summary of reranking names for each codec its fastest point that reaches the target.
pub proof fn a_rerank_summary_names_the_fastest_point(
    points: Seq<RerankPoint>,
    codec: Seq<char>,
    target: nat,
    b: int,
)
    requires
        0 <= b < points.len(),
        points[b].codec@ == codec,
        points[b].total > 0,
        1000 * points[b].hits >= target * points[b].total,
        forall|i: int|
            0 <= i < points.len() && i != b && (#[trigger] points[i]).codec@ == codec
                && points[i].total > 0 && 1000 * points[i].hits >= target * points[i].total
                ==> points[i].speed < points[b].speed,
    ensures
        rerank_part(points, codec, target) == filled(
            RERANK_PART@,
            seq![codec, points[b].qps@, decimal(points[b].rdepth as nat)],
        ),
{
    assert(is_best(points, Some(codec), target, Some(b))) by {
        assert forall|i: int|
            0 <= i < points.len() && eligible(#[trigger] points[i], Some(codec), target) implies {
            &&& points[i].operating().speed <= points[b].operating().speed
            &&& i > b ==> points[i].operating().speed < points[b].operating().speed
        } by {
            assert(points[i].codec@ == codec);
        }
    }
    the_best_is_unique(
        points,
        Some(codec),
        target,
        best_of(points, Some(codec), target),
        Some(b),
    );
}

/// A beam sweep ends with a line for each of the targets 0.90, 0.95 and 0.99, which holds the part
/// of every codec in the order in which the codecs were first seen.
pub proof fn a_beam_sweep_ends_with_its_targets(
    r: HnswReport,
    codecs: Seq<Seq<char>>,
    target: nat,
    label: Seq<char>,
)
    requires
        codecs == first_seen(r.points@, r.points@.len() as int),
        (target == 900 && label == "0.90"@) || (target == 950 && label == "0.95"@) || (target
            == 990 && label == "0.99"@),
    ensures
        shows(
            hnsw_page(r),
            filled(TARGET_LINE@, seq![label]) + joined_text(
                Seq::new(codecs.len(), |i: int| hnsw_part(r.points@, codecs[i], target)),
                " · "@,
            ) + "\n"@,
        ),
{
    let p = r.points@;
    let page = hnsw_page(r);
    let (a, b, c) = (
        hnsw_line(p, 900, "0.90"@),
        hnsw_line(p, 950, "0.95"@),
        hnsw_line(p, 990, "0.99"@),
    );
    let top = filled(HNSW_TITLE@, seq![r.dataset@]) + filled(
        HNSW_FACTS@,
        seq![
            decimal(r.dim as nat),
            decimal(r.n_db as nat),
            decimal(r.n_queries as nat),
            decimal(r.m as nat),
            decimal(r.ef_construction as nat),
            decimal(r.bits as nat),
            decimal(r.threads as nat),
        ],
    ) + HNSW_NOTES@ + HNSW_HEAD@ + rows_text(hnsw_rows(p)) + HNSW_TARGETS@;
    assert(hnsw_parts(p, target) =~= Seq::new(
        codecs.len(),
        |i: int| hnsw_part(r.points@, codecs[i], target),
    ));
    assert(page =~= top + a + (b + c));
    assert(page =~= (top + a) + b + c);
    assert(page =~= (top + a + b) + c + Seq::<char>::empty());
}

/// A rerank sweep ends with a line for each of the targets 0.90, 0.95 and 0.99, which holds the
/// part of every codec in the order in which the codecs were first seen.
pub proof fn a_rerank_sweep_ends_with_its_targets(
    r: RerankReport,
    codecs: Seq<Seq<char>>,
    target: nat,
    label: Seq<char>,
)
    requires
        codecs == first_seen(r.points@, r.points@.len() as int),
        (target == 900 && label == "0.90"@) || (target == 950 && label == "0.95"@) || (target
            == 990 && label == "0.99"@),
    ensures
        shows(
            rerank_page(r),
            filled(TARGET_LINE@, seq![label]) + joined_text(
                Seq::new(codecs.len(), |i: int| rerank_part(r.points@, codecs[i], target)),
                " · "@,
            ) + "\n"@,
        ),
{
    let p = r.points@;
    let page = rerank_page(r);
    let (a, b, c) = (
        rerank_line(p, 900, "0.90"@),
        rerank_line(p, 950, "0.95"@),
        rerank_line(p, 990, "0.99"@),
    );
    let top = filled(RERANK_TITLE@, seq![r.dataset@]) + filled(
        RERANK_FACTS@,
        seq![
            decimal(r.dim as nat),
            decimal(r.n_db as nat),
            decimal(r.n_queries as nat),
            decimal(r.nlist as nat),
            decimal(r.bits as nat),
            decimal(r.threads as nat),
        ],
    ) + RERANK_NOTES@ + RERANK_HEAD@ + rows_text(rerank_rows(p)) + RERANK_TARGETS@;
    assert(rerank_parts(p, target) =~= Seq::new(
        codecs.len(),
        |i: int| rerank_part(r.points@, codecs[i], target),
    ));
    assert(page =~= top + a + (b + c));
    assert(page =~= (top + a) + b + c);
    assert(page =~= (top + a + b) + c + Seq::<char>::empty());
}

/// Codecs are listed in the order in which they are first seen, each once, and none is left out.
pub proof fn codecs_are_listed_once<T: Point>(points: Seq<T>, n: int, i: int)
    requires
        0 <= i < n <= points.len(),
    ensures
        first_seen(points, n).no_duplicates(),
        first_seen(points, n).contains(points[i].operating().codec),
        first_seen(points, n).len() <= n,
        first_seen(points, n)[0] == points[0].operating().codec,
    decreases n,
{
    lemma_codec_seen(points, n, i);
    if n > 1 {
        codecs_are_listed_once(points, n - 1, 0);
        let before = first_seen(points, n - 1);
        if before.len() == 0 {
            assert(!before.contains(points[0].operating().codec));
        }
    } else {
        reveal_with_fuel(first_seen, 2);
        assert(first_seen(points, 0).len() == 0);
        assert(!first_seen(points, 0).contains(points[0].operating().codec));
    }
}

} // verus!
