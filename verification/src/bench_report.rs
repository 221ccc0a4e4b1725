//! Pages of the codec comparisons.

use vstd::prelude::*;
use vstd::string::*;

use crate::bench::{calibration_label, calibration_note, calibration_text, cold_start_note, Outcome};
use crate::cli::texts;
use crate::ivf::{per_vector, share};
use crate::page::{
    a_page_shows_what_its_parts_show, a_row_is_its_cells_between_bars,
    a_table_begins_with_its_head, all_cells, append_rows, append_table, every_row_is_shown, fill,
    filled, line_of, row_text, rows_text, shows, table_text,
};
use crate::text::{decimal, decimal_of, same_text};

verus! {

pub const BENCH_TITLE: &'static str = "# Flat codec benchmark — {}\n\n";

pub const BENCH_FACTS: &'static str =
    "- dim **{}**, db **{}**, queries **{}**, seed **{}**\n- recall is **pre-rerank** (the quantizer's own quality; an exact-f32 rerank would restore ~1.0 for all)\n\n";

pub const BENCH_NORMS: &'static str =
    "- MIPS code and resident bytes include the exact database norm: already present in TurboQuant's record, otherwise a 4-byte sidecar.\n\n";

pub const BENCH_HEAD: &'static str =
    "| quantizer | bits | R@1 | R@10 | R@100 | recon MSE | query µs (p50) | code B/vec | resident B/vec |\n|---|---|---|---|---|---|---|---|---|\n";

pub const BENCH_DELTAS: &'static str =
    "\n## Δ recall@10 vs TurboQuant baseline (percentage points)\n\n| variant | bits | Δpp@10 |\n|---|---|---|\n";

pub const BENCH_PAIRED: &'static str =
    "\n## Paired query-bootstrap Recall@10 comparisons\n\nUltraVec minus comparator in percentage points; 95% percentile interval from 10000 paired resamples. \"lead\"/\"behind\" requires the interval to exclude zero.\n\n| comparator | bits | Δpp@10 | 95% CI | outcome |\n|---|---|---|---|---|\n";

pub const BENCH_GAIN: &'static str =
    "\n**At least one ≥3pp recall@10 gain over the TurboQuant reference ({}):** {}.\n";

pub const INTERVAL: &'static str = "[{}, {}]";

pub const CSV_HEAD: &'static str =
    "dataset,bits,query,quantizer,recall_at_1,recall_at_10,recall_at_100\n";

pub const CSV_LINE: &'static str = "{},{},{},{},{},{},{}\n";

pub const DIAG_TITLE: &'static str = "# Estimator-variance diagnostic — {}\n\n";

pub const DIAG_FACTS: &'static str = "- dim **{}**, db **{}**, queries **{}**, seed **{}**\n";

pub const DIAG_NOTES: &'static str =
    "- `g=⟨ō,o⟩` recon-to-truth cosine; `κ=√((1−g²)/g²)`; `σ_pred=κ/√(D−1)` (RaBitQ Thm-3.2 per-pair std); `σ_emp`=std(estimate−exact)\n\n| backend | bits | M | mean g | κ | σ_pred | σ_emp | bias | recon MSE |\n|---|---|---|---|---|---|---|---|---|\n";

pub const COLD_TITLE: &'static str = "# Cold-start calibration sweep — {}\n\n";

pub const COLD_FACTS: &'static str =
    "- dim **{}**, db **{}**, queries **{}**, {}-bit, seed {}; fair reconstruction-cosine recall@10 over the full corpus\n";

pub const COLD_NOTES: &'static str =
    "- **oblivious (calibration-free): trellis {} · rabitq {}** — flat, independent of calibration size\n\n## PQ recall@10 vs calibration-set size K\n\n| K (PQ calib) | pq R@10 | vs trellis | note |\n|---|---|---|---|\n";

pub const COMPANION_TITLE: &'static str = "# FastScan companion Pareto — {}\n\n";

pub const COMPANION_FACTS: &'static str =
    "- dim **{}**, db **{}**, queries **{}**, base bits **{}**, seed **{}**\n";

pub const COMPANION_NOTES: &'static str =
    "- pre-rerank recall vs exact-cosine gold; `cand/q` = trellis decodes per query (the QPS proxy, C vs N={}); QPS = best-of-reps rayon throughput.\n- 1-bit sign-code shortlist → trellis-rescaled rerank of the top-C. Centering OFF.\n\n| config | R@1 | R@10 | R@100 | cand/q | QPS | B/vec |\n|---|---|---|---|---|---|---|\n";

pub const STREAM_TITLE: &'static str = "# Streaming drift: recall under churn vs refit cost — {}\n\n";

pub const STREAM_FACTS: &'static str =
    "- dim **{}**, db **{}**, queries **{}**, {} clusters (drift order), {}-bit, seed {}\n";

pub const STREAM_NOTES: &'static str =
    "- pre-rerank recall@10 over the **live** set; exact gold recomputed each checkpoint\n- trellis/rabitq: data-oblivious, **centroid-free** (refit cost 0). frozen_pq: codebook frozen on cluster 0. rebuild_pq: codebook retrained on the full live set each checkpoint (O(n_live)).\n\n## recall@10 vs stream fraction (the hero curve)\n\n";

pub const STREAM_REFIT: &'static str = "\n## refit cost (vectors touched per checkpoint)\n\n";

pub const STREAM_FINAL: &'static str =
    "\n## final checkpoint — recall@{1,10,100}\n\n| codec | R@1 | R@10 | R@100 |\n|---|---|---|---|\n";

pub const GRAPH_TITLE: &'static str = "# Graph-ANN streaming under distribution drift — {}\n\n";

pub const GRAPH_FACTS: &'static str =
    "- dim **{}**, queries **{}**, {} clusters (drift order), {}-bit, NSW M={} ef={}, seed {}\n";

pub const GRAPH_NOTES: &'static str =
    "- graph recall@10 (NSW search) vs flat recall@10 (exhaustive over the SAME decoded vectors); both vs exact un-quantized gold. The gap = graph-structure penalty.\n\n## graph recall@10 vs stream fraction\n\n";

pub const GRAPH_FLAT: &'static str =
    "\n## flat recall@10 (exhaustive over decoded — fair per-codec)\n\n";

pub const GRAPH_PENALTY: &'static str = "\n## graph−flat penalty (recall lost to graph structure)\n\n";

/// One codec at one rate. Measured values are text.
pub struct BenchRow {
    pub quantizer: String,
    pub bits: u8,
    pub r1: String,
    pub r10: String,
    pub r100: String,
    /// The reconstruction error, where the codec has reconstructions.
    pub mse: Option<String>,
    pub query_us_p50: String,
    pub code_bytes: usize,
    pub resident_bytes: usize,
    pub per_query_recall: Vec<QueryTexts>,
}

/// The recall of one query at the three reported depths.
pub struct QueryTexts {
    pub r1: String,
    pub r10: String,
    pub r100: String,
}

/// The gain of a codec over the reference.
pub struct DeltaRow {
    pub variant: String,
    pub bits: u8,
    pub delta: String,
}

/// A paired comparison with its interval.
pub struct PairedRow {
    pub comparator: String,
    pub bits: u8,
    pub delta: String,
    pub ci_low: String,
    pub ci_high: String,
    pub outcome: Outcome,
}

/// A flat comparison.
pub struct BenchReport {
    pub dataset: String,
    pub dim: usize,
    pub n_db: usize,
    pub n_queries: usize,
    pub seed: u64,
    pub rows: Vec<BenchRow>,
    pub deltas: Vec<DeltaRow>,
    pub paired_r10: Vec<PairedRow>,
    pub has_three_point_gain: bool,
}

/// One backend of an estimator diagnostic.
pub struct DiagRow {
    pub backend: String,
    pub bits: u8,
    pub mem: u8,
    pub mean_g: String,
    pub mean_kappa: String,
    pub sigma_pred: String,
    pub sigma_emp: String,
    pub bias_emp: String,
    pub mse: String,
    /// Whether the backend has reconstructions to measure.
    pub has_recon: bool,
}

/// An estimator diagnostic.
pub struct DiagReport {
    pub dataset: String,
    pub dim: usize,
    pub n_db: usize,
    pub n_queries: usize,
    pub seed: u64,
    pub rows: Vec<DiagRow>,
}

/// The recall of a codec that was fitted to `k` vectors; zero stands for all of them.
pub struct ColdPoint {
    pub k: usize,
    pub recall: String,
    pub delta: String,
    /// Whether it reaches the recall of the code that needs no calibration.
    pub ahead: bool,
}

/// A calibration sweep.
pub struct ColdStartReport {
    pub dataset: String,
    pub dim: usize,
    pub n_db: usize,
    pub n_queries: usize,
    pub bits: u8,
    pub seed: u64,
    pub trellis_r10: String,
    pub rabitq_r10: String,
    pub pq: Vec<ColdPoint>,
}

/// A shortlist size of a companion sweep.
pub struct CompanionPoint {
    pub label: String,
    pub r1: String,
    pub r10: String,
    pub r100: String,
    pub cand_per_q: usize,
    pub qps: String,
    pub bytes_per_vec: usize,
}

/// A companion sweep.
pub struct CompanionReport {
    pub dataset: String,
    pub dim: usize,
    pub n_db: usize,
    pub n_queries: usize,
    pub bits: u8,
    pub seed: u64,
    pub points: Vec<CompanionPoint>,
}

/// Something that has a name.
pub trait Named {
    spec fn called(&self) -> Seq<char>;

    fn name(&self) -> (r: &String)
        ensures
            r@ == self.called(),
    ;
}

/// The recall of a codec at a checkpoint.
pub struct StreamRecall {
    pub codec: String,
    pub r1: String,
    pub r10: String,
    pub r100: String,
}

/// How many vectors a codec touched at a checkpoint.
pub struct Refit {
    pub codec: String,
    pub touched: usize,
}

/// A checkpoint of a stream.
pub struct StreamCheckpoint {
    pub frac: String,
    pub n_live: usize,
    pub recall: Vec<StreamRecall>,
    pub refit_touched: Vec<Refit>,
}

/// A stream.
pub struct StreamReport {
    pub dataset: String,
    pub dim: usize,
    pub n_db: usize,
    pub n_queries: usize,
    pub n_groups: usize,
    pub bits: u8,
    pub seed: u64,
    pub checkpoints: Vec<StreamCheckpoint>,
}

/// The recall of a codec through a graph and without one.
pub struct GraphRecall {
    pub codec: String,
    pub graph: String,
    pub flat: String,
    pub penalty: String,
}

/// A checkpoint of a stream through a graph.
pub struct GraphCheckpoint {
    pub frac: String,
    pub n_live: usize,
    pub rows: Vec<GraphRecall>,
}

/// A stream through a graph.
pub struct GraphStreamReport {
    pub dataset: String,
    pub dim: usize,
    pub n_queries: usize,
    pub n_groups: usize,
    pub bits: u8,
    pub m: usize,
    pub ef: usize,
    pub seed: u64,
    pub checkpoints: Vec<GraphCheckpoint>,
}

impl Named for StreamRecall {
    open spec fn called(&self) -> Seq<char> {
        self.codec@
    }

    fn name(&self) -> (r: &String) {
        &self.codec
    }
}

impl Named for Refit {
    open spec fn called(&self) -> Seq<char> {
        self.codec@
    }

    fn name(&self) -> (r: &String) {
        &self.codec
    }
}

impl Named for GraphRecall {
    open spec fn called(&self) -> Seq<char> {
        self.codec@
    }

    fn name(&self) -> (r: &String) {
        &self.codec
    }
}

/// A text, or a dash where there is none.
pub open spec fn text_or_dash(t: Option<String>) -> Seq<char> {
    match t {
        Some(s) => s@,
        None => "—"@,
    }
}

/// The cells of a codec.
pub open spec fn bench_cells(p: BenchRow, n_db: nat) -> Seq<Seq<char>> {
    seq![
        p.quantizer@,
        decimal(p.bits as nat),
        p.r1@,
        p.r10@,
        p.r100@,
        text_or_dash(p.mse),
        p.query_us_p50@,
        decimal(share(p.code_bytes as nat, n_db)),
        decimal(share(p.resident_bytes as nat, n_db)),
    ]
}

/// The rows of these cells.
pub open spec fn bench_rows(points: Seq<BenchRow>, n_db: nat) -> Seq<Seq<Seq<char>>> {
    Seq::new(points.len(), |i: int| bench_cells(points[i], n_db))
}

fn append_bench_rows(out: &mut String, points: &Vec<BenchRow>, n_db: usize)
    ensures
        final(out)@ == old(out)@ + rows_text(bench_rows(points@, n_db as nat)),
{
    let mut rows: Vec<Vec<String>> = Vec::with_capacity(points.len());
    let mut i: usize = 0;
    while i < points.len()
        invariant
            i <= points.len(),
            rows.len() == i,
            forall|k: int|
                0 <= k < i ==> texts((#[trigger] rows@[k])@) == bench_cells(points@[k], n_db as nat),
        decreases points.len() - i,
    {
        let p: &BenchRow = &points[i];
        let mse: String = match &p.mse {
            Some(t) => t.clone(),
            None => "—".to_owned(),
        };
        let cells: Vec<String> = vec![
            p.quantizer.clone(),
            decimal_of(p.bits as u64),
            p.r1.clone(),
            p.r10.clone(),
            p.r100.clone(),
            mse,
            p.query_us_p50.clone(),
            decimal_of(per_vector(p.code_bytes, n_db) as u64),
            decimal_of(per_vector(p.resident_bytes, n_db) as u64),
        ];
        assert(texts(cells@) =~= bench_cells(*p, n_db as nat));
        rows.push(cells);
        i += 1;
    }
    assert(all_cells(rows@) =~= bench_rows(points@, n_db as nat));
    append_rows(out, &rows);
}

/// The cells of a gain.
pub open spec fn delta_cells(p: DeltaRow) -> Seq<Seq<char>> {
    seq![p.variant@, decimal(p.bits as nat), p.delta@]
}

/// The rows of these cells.
pub open spec fn delta_rows(points: Seq<DeltaRow>) -> Seq<Seq<Seq<char>>> {
    Seq::new(points.len(), |i: int| delta_cells(points[i]))
}

fn append_delta_rows(out: &mut String, points: &Vec<DeltaRow>)
    ensures
        final(out)@ == old(out)@ + rows_text(delta_rows(points@)),
{
    let mut rows: Vec<Vec<String>> = Vec::with_capacity(points.len());
    let mut i: usize = 0;
    while i < points.len()
        invariant
            i <= points.len(),
            rows.len() == i,
            forall|k: int|
                0 <= k < i ==> texts((#[trigger] rows@[k])@) == delta_cells(points@[k]),
        decreases points.len() - i,
    {
        let p: &DeltaRow = &points[i];
        let cells: Vec<String> = vec![p.variant.clone(), decimal_of(p.bits as u64), p.delta.clone()];
        assert(texts(cells@) =~= delta_cells(*p));
        rows.push(cells);
        i += 1;
    }
    assert(all_cells(rows@) =~= delta_rows(points@));
    append_rows(out, &rows);
}

/// The cells of a paired comparison.
pub open spec fn paired_cells(p: PairedRow) -> Seq<Seq<char>> {
    seq![
        p.comparator@,
        decimal(p.bits as nat),
        p.delta@,
        filled(INTERVAL@, seq![p.ci_low@, p.ci_high@]),
        outcome_text(p.outcome),
    ]
}

/// The rows of these cells.
pub open spec fn paired_rows(points: Seq<PairedRow>) -> Seq<Seq<Seq<char>>> {
    Seq::new(points.len(), |i: int| paired_cells(points[i]))
}

fn append_paired_rows(out: &mut String, points: &Vec<PairedRow>)
    ensures
        final(out)@ == old(out)@ + rows_text(paired_rows(points@)),
{
    let mut rows: Vec<Vec<String>> = Vec::with_capacity(points.len());
    let mut i: usize = 0;
    while i < points.len()
        invariant
            i <= points.len(),
            rows.len() == i,
            forall|k: int|
                0 <= k < i ==> texts((#[trigger] rows@[k])@) == paired_cells(points@[k]),
        decreases points.len() - i,
    {
        let p: &PairedRow = &points[i];
        let ends: Vec<String> = vec![p.ci_low.clone(), p.ci_high.clone()];
        assert(texts(ends@) =~= seq![p.ci_low@, p.ci_high@]);
        let mut interval: String = String::new();
        fill(&mut interval, INTERVAL, &ends);
        assert(interval@ =~= filled(INTERVAL@, seq![p.ci_low@, p.ci_high@]));
        let outcome: &str = match p.outcome {
            Outcome::Lead => "lead",
            Outcome::Behind => "behind",
            Outcome::Tied => "tied",
        };
        let cells: Vec<String> = vec![
            p.comparator.clone(),
            decimal_of(p.bits as u64),
            p.delta.clone(),
            interval,
            outcome.to_owned(),
        ];
        assert(texts(cells@) =~= paired_cells(*p));
        rows.push(cells);
        i += 1;
    }
    assert(all_cells(rows@) =~= paired_rows(points@));
    append_rows(out, &rows);
}

/// The word for an outcome.
pub open spec fn outcome_text(o: Outcome) -> Seq<char> {
    match o {
        Outcome::Lead => "lead"@,
        Outcome::Behind => "behind"@,
        Outcome::Tied => "tied"@,
    }
}

/// Whether a dataset was ranked by inner product, which its name tells.
pub open spec fn is_ip_name(s: Seq<char>) -> bool {
    s.len() >= 3 && s[s.len() - 3] == '-' && s[s.len() - 2] == 'i' && s[s.len() - 1] == 'p'
}

/// What a page says of exact norms.
pub open spec fn norm_note(dataset: Seq<char>) -> Seq<char> {
    if is_ip_name(dataset) {
        BENCH_NORMS@
    } else {
        Seq::empty()
    }
}

fn append_norm_note(out: &mut String, dataset: &String)
    ensures
        final(out)@ == old(out)@ + norm_note(dataset@),
{
    let ghost before = out@;
    let name: &str = dataset.as_str();
    let n: usize = name.unicode_len();
    if n >= 3 && name.get_char(n - 3) == '-' && name.get_char(n - 2) == 'i' && name.get_char(n - 1)
        == 'p' {
        out.append(BENCH_NORMS);
    }
    assert(out@ =~= before + norm_note(dataset@));
}

/// Yes or no.
pub open spec fn yes_or_no(b: bool) -> Seq<char> {
    if b {
        "yes"@
    } else {
        "no"@
    }
}

fn append_gain(out: &mut String, dataset: &String, gain: bool)
    ensures
        final(out)@ == old(out)@ + filled(BENCH_GAIN@, seq![dataset@, yes_or_no(gain)]),
{
    let word: &str = if gain {
        "yes"
    } else {
        "no"
    };
    let a: Vec<String> = vec![dataset.clone(), word.to_owned()];
    assert(texts(a@) =~= seq![dataset@, yes_or_no(gain)]);
    fill(out, BENCH_GAIN, &a);
}

/// The page of a flat comparison.
pub open spec fn bench_page(r: BenchReport) -> Seq<char> {
    filled(BENCH_TITLE@, seq![r.dataset@])
        + filled(
            BENCH_FACTS@,
            seq![
                decimal(r.dim as nat),
                decimal(r.n_db as nat),
                decimal(r.n_queries as nat),
                decimal(r.seed as nat),
            ],
        )
        + norm_note(r.dataset@)
        + BENCH_HEAD@
        + rows_text(bench_rows(r.rows@, r.n_db as nat))
        + BENCH_DELTAS@
        + rows_text(delta_rows(r.deltas@))
        + BENCH_PAIRED@
        + rows_text(paired_rows(r.paired_r10@))
        + filled(BENCH_GAIN@, seq![r.dataset@, yes_or_no(r.has_three_point_gain)])
}

/// The page of a flat comparison.
pub fn render_markdown(r: &BenchReport) -> (s: String)
    ensures
        s@ == bench_page(*r),
{
    let mut s: String = String::new();
    let a1: Vec<String> = vec![r.dataset.clone()];
    assert(texts(a1@) =~= seq![r.dataset@]);
    fill(&mut s, BENCH_TITLE, &a1);
    assert(s@ =~= filled(BENCH_TITLE@, seq![r.dataset@]));
    let a2: Vec<String> = vec![
        decimal_of(r.dim as u64),
        decimal_of(r.n_db as u64),
        decimal_of(r.n_queries as u64),
        decimal_of(r.seed as u64),
    ];
    assert(texts(a2@) =~= seq![
        decimal(r.dim as nat),
        decimal(r.n_db as nat),
        decimal(r.n_queries as nat),
        decimal(r.seed as nat),
    ]);
    fill(&mut s, BENCH_FACTS, &a2);
    append_norm_note(&mut s, &r.dataset);
    s.append(BENCH_HEAD);
    append_bench_rows(&mut s, &r.rows, r.n_db);
    s.append(BENCH_DELTAS);
    append_delta_rows(&mut s, &r.deltas);
    s.append(BENCH_PAIRED);
    append_paired_rows(&mut s, &r.paired_r10);
    append_gain(&mut s, &r.dataset, r.has_three_point_gain);
    s
}

/// The line of one query.
pub open spec fn query_line(dataset: Seq<char>, row: BenchRow, query: int) -> Seq<char> {
    let t = row.per_query_recall@[query];
    filled(
        CSV_LINE@,
        seq![
            dataset,
            decimal(row.bits as nat),
            decimal(query as nat),
            row.quantizer@,
            t.r1@,
            t.r10@,
            t.r100@,
        ],
    )
}

/// The lines of the first `n` queries of a codec.
pub open spec fn query_lines(dataset: Seq<char>, row: BenchRow, n: int) -> Seq<char>
    decreases n,
{
    if n <= 0 {
        Seq::empty()
    } else {
        query_lines(dataset, row, n - 1) + query_line(dataset, row, n - 1)
    }
}

/// The lines of the first `n` codecs.
pub open spec fn csv_lines(dataset: Seq<char>, rows: Seq<BenchRow>, n: int) -> Seq<char>
    decreases n,
{
    if n <= 0 {
        Seq::empty()
    } else {
        csv_lines(dataset, rows, n - 1) + query_lines(
            dataset,
            rows[n - 1],
            rows[n - 1].per_query_recall@.len() as int,
        )
    }
}

fn append_query_lines(out: &mut String, dataset: &String, row: &BenchRow)
    ensures
        final(out)@ == old(out)@ + query_lines(
            dataset@,
            *row,
            row.per_query_recall@.len() as int,
        ),
{
    let ghost before = out@;
    let mut i: usize = 0;
    assert(out@ =~= before + query_lines(dataset@, *row, 0));
    while i < row.per_query_recall.len()
        invariant
            i <= row.per_query_recall.len(),
            out@ == before + query_lines(dataset@, *row, i as int),
        decreases row.per_query_recall.len() - i,
    {
        let t: &QueryTexts = &row.per_query_recall[i];
        let a: Vec<String> = vec![
            dataset.clone(),
            decimal_of(row.bits as u64),
            decimal_of(i as u64),
            row.quantizer.clone(),
            t.r1.clone(),
            t.r10.clone(),
            t.r100.clone(),
        ];
        assert(texts(a@) =~= seq![
            dataset@,
            decimal(row.bits as nat),
            decimal(i as nat),
            row.quantizer@,
            t.r1@,
            t.r10@,
            t.r100@,
        ]);
        fill(out, CSV_LINE, &a);
        i += 1;
        assert(out@ =~= before + query_lines(dataset@, *row, i as int));
    }
}

/// The recall of every query of every codec, one per line.
pub fn render_per_query_csv(r: &BenchReport) -> (s: String)
    ensures
        s@ == CSV_HEAD@ + csv_lines(r.dataset@, r.rows@, r.rows@.len() as int),
{
    let mut s: String = CSV_HEAD.to_owned();
    let mut i: usize = 0;
    assert(s@ =~= CSV_HEAD@ + csv_lines(r.dataset@, r.rows@, 0));
    while i < r.rows.len()
        invariant
            i <= r.rows.len(),
            s@ == CSV_HEAD@ + csv_lines(r.dataset@, r.rows@, i as int),
        decreases r.rows.len() - i,
    {
        append_query_lines(&mut s, &r.dataset, &r.rows[i]);
        i += 1;
        assert(s@ =~= CSV_HEAD@ + csv_lines(r.dataset@, r.rows@, i as int));
    }
    s
}

/// A measured text, or a dash where there are no reconstructions to measure.
pub open spec fn measured(t: String, has_recon: bool) -> Seq<char> {
    if has_recon {
        t@
    } else {
        "—"@
    }
}

fn measured_text(t: &String, has_recon: bool) -> (s: String)
    ensures
        s@ == measured(*t, has_recon),
{
    if has_recon {
        t.clone()
    } else {
        "—".to_owned()
    }
}

/// The cells of a backend.
pub open spec fn diag_cells(p: DiagRow) -> Seq<Seq<char>> {
    seq![
        p.backend@,
        decimal(p.bits as nat),
        decimal(p.mem as nat),
        measured(p.mean_g, p.has_recon),
        measured(p.mean_kappa, p.has_recon),
        measured(p.sigma_pred, p.has_recon),
        p.sigma_emp@,
        p.bias_emp@,
        measured(p.mse, p.has_recon),
    ]
}

/// The rows of these cells.
pub open spec fn diag_rows(points: Seq<DiagRow>) -> Seq<Seq<Seq<char>>> {
    Seq::new(points.len(), |i: int| diag_cells(points[i]))
}

fn append_diag_rows(out: &mut String, points: &Vec<DiagRow>)
    ensures
        final(out)@ == old(out)@ + rows_text(diag_rows(points@)),
{
    let mut rows: Vec<Vec<String>> = Vec::with_capacity(points.len());
    let mut i: usize = 0;
    while i < points.len()
        invariant
            i <= points.len(),
            rows.len() == i,
            forall|k: int|
                0 <= k < i ==> texts((#[trigger] rows@[k])@) == diag_cells(points@[k]),
        decreases points.len() - i,
    {
        let p: &DiagRow = &points[i];
        let cells: Vec<String> = vec![
            p.backend.clone(),
            decimal_of(p.bits as u64),
            decimal_of(p.mem as u64),
            measured_text(&p.mean_g, p.has_recon),
            measured_text(&p.mean_kappa, p.has_recon),
            measured_text(&p.sigma_pred, p.has_recon),
            p.sigma_emp.clone(),
            p.bias_emp.clone(),
            measured_text(&p.mse, p.has_recon),
        ];
        assert(texts(cells@) =~= diag_cells(*p));
        rows.push(cells);
        i += 1;
    }
    assert(all_cells(rows@) =~= diag_rows(points@));
    append_rows(out, &rows);
}

/// The page of an estimator diagnostic.
pub open spec fn diag_page(r: DiagReport) -> Seq<char> {
    filled(DIAG_TITLE@, seq![r.dataset@])
        + filled(
            DIAG_FACTS@,
            seq![
                decimal(r.dim as nat),
                decimal(r.n_db as nat),
                decimal(r.n_queries as nat),
                decimal(r.seed as nat),
            ],
        )
        + DIAG_NOTES@
        + rows_text(diag_rows(r.rows@))
}

/// The page of an estimator diagnostic.
pub fn render_diag_markdown(r: &DiagReport) -> (s: String)
    ensures
        s@ == diag_page(*r),
{
    let mut s: String = String::new();
    let a1: Vec<String> = vec![r.dataset.clone()];
    assert(texts(a1@) =~= seq![r.dataset@]);
    fill(&mut s, DIAG_TITLE, &a1);
    assert(s@ =~= filled(DIAG_TITLE@, seq![r.dataset@]));
    let a2: Vec<String> = vec![
        decimal_of(r.dim as u64),
        decimal_of(r.n_db as u64),
        decimal_of(r.n_queries as u64),
        decimal_of(r.seed as u64),
    ];
    assert(texts(a2@) =~= seq![
        decimal(r.dim as nat),
        decimal(r.n_db as nat),
        decimal(r.n_queries as nat),
        decimal(r.seed as nat),
    ]);
    fill(&mut s, DIAG_FACTS, &a2);
    s.append(DIAG_NOTES);
    append_diag_rows(&mut s, &r.rows);
    s
}

/// The cells of a calibration size.
pub open spec fn cold_cells(p: ColdPoint) -> Seq<Seq<char>> {
    seq![calibration_text(p.k as nat), p.recall@, p.delta@, calibration_note(p.k as nat, p.ahead)]
}

/// The rows of these cells.
pub open spec fn cold_rows(points: Seq<ColdPoint>) -> Seq<Seq<Seq<char>>> {
    Seq::new(points.len(), |i: int| cold_cells(points[i]))
}

fn append_cold_rows(out: &mut String, points: &Vec<ColdPoint>)
    ensures
        final(out)@ == old(out)@ + rows_text(cold_rows(points@)),
{
    let mut rows: Vec<Vec<String>> = Vec::with_capacity(points.len());
    let mut i: usize = 0;
    while i < points.len()
        invariant
            i <= points.len(),
            rows.len() == i,
            forall|k: int|
                0 <= k < i ==> texts((#[trigger] rows@[k])@) == cold_cells(points@[k]),
        decreases points.len() - i,
    {
        let p: &ColdPoint = &points[i];
        let cells: Vec<String> = vec![
            calibration_label(p.k),
            p.recall.clone(),
            p.delta.clone(),
            cold_start_note(p.k, p.ahead).to_owned(),
        ];
        assert(texts(cells@) =~= cold_cells(*p));
        rows.push(cells);
        i += 1;
    }
    assert(all_cells(rows@) =~= cold_rows(points@));
    append_rows(out, &rows);
}

/// The page of a calibration sweep.
pub open spec fn cold_page(r: ColdStartReport) -> Seq<char> {
    filled(COLD_TITLE@, seq![r.dataset@])
        + filled(
            COLD_FACTS@,
            seq![
                decimal(r.dim as nat),
                decimal(r.n_db as nat),
                decimal(r.n_queries as nat),
                decimal(r.bits as nat),
                decimal(r.seed as nat),
            ],
        )
        + filled(COLD_NOTES@, seq![r.trellis_r10@, r.rabitq_r10@])
        + rows_text(cold_rows(r.pq@))
}

/// The page of a calibration sweep.
pub fn render_cold_start_markdown(r: &ColdStartReport) -> (s: String)
    ensures
        s@ == cold_page(*r),
{
    let mut s: String = String::new();
    let a1: Vec<String> = vec![r.dataset.clone()];
    assert(texts(a1@) =~= seq![r.dataset@]);
    fill(&mut s, COLD_TITLE, &a1);
    assert(s@ =~= filled(COLD_TITLE@, seq![r.dataset@]));
    let a2: Vec<String> = vec![
        decimal_of(r.dim as u64),
        decimal_of(r.n_db as u64),
        decimal_of(r.n_queries as u64),
        decimal_of(r.bits as u64),
        decimal_of(r.seed as u64),
    ];
    assert(texts(a2@) =~= seq![
        decimal(r.dim as nat),
        decimal(r.n_db as nat),
        decimal(r.n_queries as nat),
        decimal(r.bits as nat),
        decimal(r.seed as nat),
    ]);
    fill(&mut s, COLD_FACTS, &a2);
    let a3: Vec<String> = vec![r.trellis_r10.clone(), r.rabitq_r10.clone()];
    assert(texts(a3@) =~= seq![r.trellis_r10@, r.rabitq_r10@]);
    fill(&mut s, COLD_NOTES, &a3);
    append_cold_rows(&mut s, &r.pq);
    s
}

/// The cells of a shortlist size.
pub open spec fn companion_cells(p: CompanionPoint) -> Seq<Seq<char>> {
    seq![
        p.label@,
        p.r1@,
        p.r10@,
        p.r100@,
        decimal(p.cand_per_q as nat),
        p.qps@,
        decimal(p.bytes_per_vec as nat),
    ]
}

/// The rows of these cells.
pub open spec fn companion_rows(points: Seq<CompanionPoint>) -> Seq<Seq<Seq<char>>> {
    Seq::new(points.len(), |i: int| companion_cells(points[i]))
}

fn append_companion_rows(out: &mut String, points: &Vec<CompanionPoint>)
    ensures
        final(out)@ == old(out)@ + rows_text(companion_rows(points@)),
{
    let mut rows: Vec<Vec<String>> = Vec::with_capacity(points.len());
    let mut i: usize = 0;
    while i < points.len()
        invariant
            i <= points.len(),
            rows.len() == i,
            forall|k: int|
                0 <= k < i ==> texts((#[trigger] rows@[k])@) == companion_cells(points@[k]),
        decreases points.len() - i,
    {
        let p: &CompanionPoint = &points[i];
        let cells: Vec<String> = vec![
            p.label.clone(),
            p.r1.clone(),
            p.r10.clone(),
            p.r100.clone(),
            decimal_of(p.cand_per_q as u64),
            p.qps.clone(),
            decimal_of(p.bytes_per_vec as u64),
        ];
        assert(texts(cells@) =~= companion_cells(*p));
        rows.push(cells);
        i += 1;
    }
    assert(all_cells(rows@) =~= companion_rows(points@));
    append_rows(out, &rows);
}

/// The page of a companion sweep.
pub open spec fn companion_page(r: CompanionReport) -> Seq<char> {
    filled(COMPANION_TITLE@, seq![r.dataset@])
        + filled(
            COMPANION_FACTS@,
            seq![
                decimal(r.dim as nat),
                decimal(r.n_db as nat),
                decimal(r.n_queries as nat),
                decimal(r.bits as nat),
                decimal(r.seed as nat),
            ],
        )
        + filled(COMPANION_NOTES@, seq![decimal(r.n_db as nat)])
        + rows_text(companion_rows(r.points@))
}

/// The page of a companion sweep.
pub fn render_companion_markdown(r: &CompanionReport) -> (s: String)
    ensures
        s@ == companion_page(*r),
{
    let mut s: String = String::new();
    let a1: Vec<String> = vec![r.dataset.clone()];
    assert(texts(a1@) =~= seq![r.dataset@]);
    fill(&mut s, COMPANION_TITLE, &a1);
    assert(s@ =~= filled(COMPANION_TITLE@, seq![r.dataset@]));
    let a2: Vec<String> = vec![
        decimal_of(r.dim as u64),
        decimal_of(r.n_db as u64),
        decimal_of(r.n_queries as u64),
        decimal_of(r.bits as u64),
        decimal_of(r.seed as u64),
    ];
    assert(texts(a2@) =~= seq![
        decimal(r.dim as nat),
        decimal(r.n_db as nat),
        decimal(r.n_queries as nat),
        decimal(r.bits as nat),
        decimal(r.seed as nat),
    ]);
    fill(&mut s, COMPANION_FACTS, &a2);
    let a3: Vec<String> = vec![decimal_of(r.n_db as u64)];
    assert(texts(a3@) =~= seq![decimal(r.n_db as nat)]);
    fill(&mut s, COMPANION_NOTES, &a3);
    append_companion_rows(&mut s, &r.points);
    s
}

/// The names of a list.
pub open spec fn names<T: Named>(items: Seq<T>) -> Seq<Seq<char>> {
    Seq::new(items.len(), |i: int| items[i].called())
}

/// The first item of a name, from the `i`-th on.
pub open spec fn first_named<T: Named>(items: Seq<T>, name: Seq<char>, i: int) -> Option<int>
    decreases items.len() - i,
{
    if i >= items.len() {
        None
    } else if items[i].called() == name {
        Some(i)
    } else {
        first_named(items, name, i + 1)
    }
}

fn find_named<T: Named>(items: &Vec<T>, name: &String) -> (r: Option<usize>)
    ensures
        match r {
            Some(i) => first_named(items@, name@, 0) == Some(i as int) && i < items.len(),
            None => first_named(items@, name@, 0) is None,
        },
{
    let mut i: usize = 0;
    while i < items.len()
        invariant
            i <= items.len(),
            first_named(items@, name@, 0) == first_named(items@, name@, i as int),
        decreases items.len() - i,
    {
        if same_text(items[i].name().as_str(), name.as_str()) {
            return Some(i);
        }
        i += 1;
    }
    None
}

fn name_list<T: Named>(items: &Vec<T>) -> (v: Vec<String>)
    ensures
        texts(v@) == names(items@),
{
    let mut v: Vec<String> = Vec::with_capacity(items.len());
    let mut i: usize = 0;
    while i < items.len()
        invariant
            i <= items.len(),
            v.len() == i,
            forall|k: int| 0 <= k < i ==> (#[trigger] v@[k])@ == items@[k].called(),
        decreases items.len() - i,
    {
        v.push(items[i].name().clone());
        i += 1;
    }
    assert(texts(v@) =~= names(items@));
    v
}

/// The head of a table of codecs: what its first columns hold, and the codecs.
pub open spec fn codec_heads(with_live: bool, codecs: Seq<Seq<char>>) -> Seq<Seq<char>> {
    if with_live {
        seq!["frac"@, "n_live"@] + codecs
    } else {
        seq!["frac"@] + codecs
    }
}

fn head_row(with_live: bool, codecs: &Vec<String>) -> (v: Vec<String>)
    ensures
        texts(v@) == codec_heads(with_live, texts(codecs@)),
{
    let mut v: Vec<String> = Vec::new();
    v.push("frac".to_owned());
    if with_live {
        v.push("n_live".to_owned());
    }
    let ghost lead = texts(v@);
    assert(lead =~= codec_heads(with_live, Seq::empty()));
    let mut i: usize = 0;
    while i < codecs.len()
        invariant
            i <= codecs.len(),
            v.len() == lead.len() + i,
            forall|k: int| 0 <= k < lead.len() ==> (#[trigger] v@[k])@ == lead[k],
            forall|k: int|
                lead.len() <= k < lead.len() + i ==> (#[trigger] v@[k])@ == codecs@[k
                    - lead.len()]@,
        decreases codecs.len() - i,
    {
        v.push(codecs[i].clone());
        i += 1;
    }
    assert(texts(v@) =~= lead + texts(codecs@));
    assert(codec_heads(with_live, texts(codecs@)) =~= lead + texts(codecs@));
    v
}

/// The recall of a codec at a checkpoint.
pub open spec fn hero_cell(c: StreamCheckpoint, codec: Seq<char>) -> Seq<char> {
    match first_named(c.recall@, codec, 0) {
        Some(i) => c.recall@[i].r10@,
        None => "0.000"@,
    }
}

/// The row of a checkpoint.
pub open spec fn hero_cells(c: StreamCheckpoint, codecs: Seq<Seq<char>>) -> Seq<Seq<char>> {
    seq![c.frac@, decimal(c.n_live as nat)] + Seq::new(codecs.len(), |i: int| hero_cell(c, codecs[i]))
}

/// The rows of all checkpoints.
pub open spec fn hero_rows(cs: Seq<StreamCheckpoint>, codecs: Seq<Seq<char>>) -> Seq<Seq<Seq<char>>> {
    Seq::new(cs.len(), |i: int| hero_cells(cs[i], codecs))
}

fn hero_row(cp: &StreamCheckpoint, codecs: &Vec<String>) -> (row: Vec<String>)
    ensures
        texts(row@) == hero_cells(*cp, texts(codecs@)),
{
    let mut row: Vec<String> = Vec::new();
    row.push(cp.frac.clone());
    row.push(decimal_of(cp.n_live as u64));
    let ghost lead = texts(row@);
    assert(lead =~= seq![cp.frac@, decimal(cp.n_live as nat)]);
    let mut i: usize = 0;
    while i < codecs.len()
        invariant
            i <= codecs.len(),
            lead.len() == 2,
            row.len() == 2 + i,
            forall|k: int| 0 <= k < 2 ==> (#[trigger] row@[k])@ == lead[k],
            forall|k: int|
                2 <= k < 2 + i ==> (#[trigger] row@[k])@ == hero_cell(*cp, codecs@[k - 2]@),
        decreases codecs.len() - i,
    {
        let cell: String = match find_named(&cp.recall, &codecs[i]) {
            Some(j) => cp.recall[j].r10.clone(),
            None => "0.000".to_owned(),
        };
        row.push(cell);
        i += 1;
    }
    assert(texts(row@) =~= hero_cells(*cp, texts(codecs@)));
    row
}

fn append_hero_table(out: &mut String, cs: &Vec<StreamCheckpoint>, codecs: &Vec<String>)
    ensures
        final(out)@ == old(out)@ + table_text(
            codec_heads(true, texts(codecs@)),
            hero_rows(cs@, texts(codecs@)),
        ),
{
    let head: Vec<String> = head_row(true, codecs);
    let mut rows: Vec<Vec<String>> = Vec::with_capacity(cs.len());
    let mut i: usize = 0;
    while i < cs.len()
        invariant
            i <= cs.len(),
            rows.len() == i,
            forall|k: int|
                0 <= k < i ==> texts((#[trigger] rows@[k])@) == hero_cells(
                    cs@[k],
                    texts(codecs@),
                ),
        decreases cs.len() - i,
    {
        rows.push(hero_row(&cs[i], codecs));
        i += 1;
    }
    assert(all_cells(rows@) =~= hero_rows(cs@, texts(codecs@)));
    append_table(out, &head, &rows);
}

/// How many vectors a codec touched at a checkpoint.
pub open spec fn refit_cell(c: StreamCheckpoint, codec: Seq<char>) -> Seq<char> {
    match first_named(c.refit_touched@, codec, 0) {
        Some(i) => decimal(c.refit_touched@[i].touched as nat),
        None => "0"@,
    }
}

/// The row of a checkpoint.
pub open spec fn refit_cells(c: StreamCheckpoint, codecs: Seq<Seq<char>>) -> Seq<Seq<char>> {
    seq![c.frac@] + Seq::new(codecs.len(), |i: int| refit_cell(c, codecs[i]))
}

/// The rows of all checkpoints.
pub open spec fn refit_rows(cs: Seq<StreamCheckpoint>, codecs: Seq<Seq<char>>) -> Seq<Seq<Seq<char>>> {
    Seq::new(cs.len(), |i: int| refit_cells(cs[i], codecs))
}

fn refit_row(cp: &StreamCheckpoint, codecs: &Vec<String>) -> (row: Vec<String>)
    ensures
        texts(row@) == refit_cells(*cp, texts(codecs@)),
{
    let mut row: Vec<String> = Vec::new();
    row.push(cp.frac.clone());
    let ghost lead = texts(row@);
    assert(lead =~= seq![cp.frac@]);
    let mut i: usize = 0;
    while i < codecs.len()
        invariant
            i <= codecs.len(),
            lead.len() == 1,
            row.len() == 1 + i,
            forall|k: int| 0 <= k < 1 ==> (#[trigger] row@[k])@ == lead[k],
            forall|k: int|
                1 <= k < 1 + i ==> (#[trigger] row@[k])@ == refit_cell(*cp, codecs@[k - 1]@),
        decreases codecs.len() - i,
    {
        let cell: String = match find_named(&cp.refit_touched, &codecs[i]) {
            Some(j) => decimal_of(cp.refit_touched[j].touched as u64),
            None => "0".to_owned(),
        };
        row.push(cell);
        i += 1;
    }
    assert(texts(row@) =~= refit_cells(*cp, texts(codecs@)));
    row
}

fn append_refit_table(out: &mut String, cs: &Vec<StreamCheckpoint>, codecs: &Vec<String>)
    ensures
        final(out)@ == old(out)@ + table_text(
            codec_heads(false, texts(codecs@)),
            refit_rows(cs@, texts(codecs@)),
        ),
{
    let head: Vec<String> = head_row(false, codecs);
    let mut rows: Vec<Vec<String>> = Vec::with_capacity(cs.len());
    let mut i: usize = 0;
    while i < cs.len()
        invariant
            i <= cs.len(),
            rows.len() == i,
            forall|k: int|
                0 <= k < i ==> texts((#[trigger] rows@[k])@) == refit_cells(
                    cs@[k],
                    texts(codecs@),
                ),
        decreases cs.len() - i,
    {
        rows.push(refit_row(&cs[i], codecs));
        i += 1;
    }
    assert(all_cells(rows@) =~= refit_rows(cs@, texts(codecs@)));
    append_table(out, &head, &rows);
}

/// The recall of a codec through a graph.
pub open spec fn graph_cell(c: GraphCheckpoint, codec: Seq<char>) -> Seq<char> {
    match first_named(c.rows@, codec, 0) {
        Some(i) => c.rows@[i].graph@,
        None => "0.000"@,
    }
}

/// The row of a checkpoint.
pub open spec fn graph_cells(c: GraphCheckpoint, codecs: Seq<Seq<char>>) -> Seq<Seq<char>> {
    seq![c.frac@, decimal(c.n_live as nat)] + Seq::new(codecs.len(), |i: int| graph_cell(c, codecs[i]))
}

/// The rows of all checkpoints.
pub open spec fn graph_rows(cs: Seq<GraphCheckpoint>, codecs: Seq<Seq<char>>) -> Seq<Seq<Seq<char>>> {
    Seq::new(cs.len(), |i: int| graph_cells(cs[i], codecs))
}

fn graph_row(cp: &GraphCheckpoint, codecs: &Vec<String>) -> (row: Vec<String>)
    ensures
        texts(row@) == graph_cells(*cp, texts(codecs@)),
{
    let mut row: Vec<String> = Vec::new();
    row.push(cp.frac.clone());
    row.push(decimal_of(cp.n_live as u64));
    let ghost lead = texts(row@);
    assert(lead =~= seq![cp.frac@, decimal(cp.n_live as nat)]);
    let mut i: usize = 0;
    while i < codecs.len()
        invariant
            i <= codecs.len(),
            lead.len() == 2,
            row.len() == 2 + i,
            forall|k: int| 0 <= k < 2 ==> (#[trigger] row@[k])@ == lead[k],
            forall|k: int|
                2 <= k < 2 + i ==> (#[trigger] row@[k])@ == graph_cell(*cp, codecs@[k - 2]@),
        decreases codecs.len() - i,
    {
        let cell: String = match find_named(&cp.rows, &codecs[i]) {
            Some(j) => cp.rows[j].graph.clone(),
            None => "0.000".to_owned(),
        };
        row.push(cell);
        i += 1;
    }
    assert(texts(row@) =~= graph_cells(*cp, texts(codecs@)));
    row
}

fn append_graph_table(out: &mut String, cs: &Vec<GraphCheckpoint>, codecs: &Vec<String>)
    ensures
        final(out)@ == old(out)@ + table_text(
            codec_heads(true, texts(codecs@)),
            graph_rows(cs@, texts(codecs@)),
        ),
{
    let head: Vec<String> = head_row(true, codecs);
    let mut rows: Vec<Vec<String>> = Vec::with_capacity(cs.len());
    let mut i: usize = 0;
    while i < cs.len()
        invariant
            i <= cs.len(),
            rows.len() == i,
            forall|k: int|
                0 <= k < i ==> texts((#[trigger] rows@[k])@) == graph_cells(
                    cs@[k],
                    texts(codecs@),
                ),
        decreases cs.len() - i,
    {
        rows.push(graph_row(&cs[i], codecs));
        i += 1;
    }
    assert(all_cells(rows@) =~= graph_rows(cs@, texts(codecs@)));
    append_table(out, &head, &rows);
}

/// The recall of a codec without a graph.
pub open spec fn flat_cell(c: GraphCheckpoint, codec: Seq<char>) -> Seq<char> {
    match first_named(c.rows@, codec, 0) {
        Some(i) => c.rows@[i].flat@,
        None => "0.000"@,
    }
}

/// The row of a checkpoint.
pub open spec fn flat_cells(c: GraphCheckpoint, codecs: Seq<Seq<char>>) -> Seq<Seq<char>> {
    seq![c.frac@, decimal(c.n_live as nat)] + Seq::new(codecs.len(), |i: int| flat_cell(c, codecs[i]))
}

/// The rows of all checkpoints.
pub open spec fn flat_rows(cs: Seq<GraphCheckpoint>, codecs: Seq<Seq<char>>) -> Seq<Seq<Seq<char>>> {
    Seq::new(cs.len(), |i: int| flat_cells(cs[i], codecs))
}

fn flat_row(cp: &GraphCheckpoint, codecs: &Vec<String>) -> (row: Vec<String>)
    ensures
        texts(row@) == flat_cells(*cp, texts(codecs@)),
{
    let mut row: Vec<String> = Vec::new();
    row.push(cp.frac.clone());
    row.push(decimal_of(cp.n_live as u64));
    let ghost lead = texts(row@);
    assert(lead =~= seq![cp.frac@, decimal(cp.n_live as nat)]);
    let mut i: usize = 0;
    while i < codecs.len()
        invariant
            i <= codecs.len(),
            lead.len() == 2,
            row.len() == 2 + i,
            forall|k: int| 0 <= k < 2 ==> (#[trigger] row@[k])@ == lead[k],
            forall|k: int|
                2 <= k < 2 + i ==> (#[trigger] row@[k])@ == flat_cell(*cp, codecs@[k - 2]@),
        decreases codecs.len() - i,
    {
        let cell: String = match find_named(&cp.rows, &codecs[i]) {
            Some(j) => cp.rows[j].flat.clone(),
            None => "0.000".to_owned(),
        };
        row.push(cell);
        i += 1;
    }
    assert(texts(row@) =~= flat_cells(*cp, texts(codecs@)));
    row
}

fn append_flat_table(out: &mut String, cs: &Vec<GraphCheckpoint>, codecs: &Vec<String>)
    ensures
        final(out)@ == old(out)@ + table_text(
            codec_heads(true, texts(codecs@)),
            flat_rows(cs@, texts(codecs@)),
        ),
{
    let head: Vec<String> = head_row(true, codecs);
    let mut rows: Vec<Vec<String>> = Vec::with_capacity(cs.len());
    let mut i: usize = 0;
    while i < cs.len()
        invariant
            i <= cs.len(),
            rows.len() == i,
            forall|k: int|
                0 <= k < i ==> texts((#[trigger] rows@[k])@) == flat_cells(
                    cs@[k],
                    texts(codecs@),
                ),
        decreases cs.len() - i,
    {
        rows.push(flat_row(&cs[i], codecs));
        i += 1;
    }
    assert(all_cells(rows@) =~= flat_rows(cs@, texts(codecs@)));
    append_table(out, &head, &rows);
}

/// What a graph costs a codec in recall.
pub open spec fn penalty_cell(c: GraphCheckpoint, codec: Seq<char>) -> Seq<char> {
    match first_named(c.rows@, codec, 0) {
        Some(i) => c.rows@[i].penalty@,
        None => "+0.000"@,
    }
}

/// The row of a checkpoint.
pub open spec fn penalty_cells(c: GraphCheckpoint, codecs: Seq<Seq<char>>) -> Seq<Seq<char>> {
    seq![c.frac@] + Seq::new(codecs.len(), |i: int| penalty_cell(c, codecs[i]))
}

/// The rows of all checkpoints.
pub open spec fn penalty_rows(cs: Seq<GraphCheckpoint>, codecs: Seq<Seq<char>>) -> Seq<Seq<Seq<char>>> {
    Seq::new(cs.len(), |i: int| penalty_cells(cs[i], codecs))
}

fn penalty_row(cp: &GraphCheckpoint, codecs: &Vec<String>) -> (row: Vec<String>)
    ensures
        texts(row@) == penalty_cells(*cp, texts(codecs@)),
{
    let mut row: Vec<String> = Vec::new();
    row.push(cp.frac.clone());
    let ghost lead = texts(row@);
    assert(lead =~= seq![cp.frac@]);
    let mut i: usize = 0;
    while i < codecs.len()
        invariant
            i <= codecs.len(),
            lead.len() == 1,
            row.len() == 1 + i,
            forall|k: int| 0 <= k < 1 ==> (#[trigger] row@[k])@ == lead[k],
            forall|k: int|
                1 <= k < 1 + i ==> (#[trigger] row@[k])@ == penalty_cell(*cp, codecs@[k - 1]@),
        decreases codecs.len() - i,
    {
        let cell: String = match find_named(&cp.rows, &codecs[i]) {
            Some(j) => cp.rows[j].penalty.clone(),
            None => "+0.000".to_owned(),
        };
        row.push(cell);
        i += 1;
    }
    assert(texts(row@) =~= penalty_cells(*cp, texts(codecs@)));
    row
}

fn append_penalty_table(out: &mut String, cs: &Vec<GraphCheckpoint>, codecs: &Vec<String>)
    ensures
        final(out)@ == old(out)@ + table_text(
            codec_heads(false, texts(codecs@)),
            penalty_rows(cs@, texts(codecs@)),
        ),
{
    let head: Vec<String> = head_row(false, codecs);
    let mut rows: Vec<Vec<String>> = Vec::with_capacity(cs.len());
    let mut i: usize = 0;
    while i < cs.len()
        invariant
            i <= cs.len(),
            rows.len() == i,
            forall|k: int|
                0 <= k < i ==> texts((#[trigger] rows@[k])@) == penalty_cells(
                    cs@[k],
                    texts(codecs@),
                ),
        decreases cs.len() - i,
    {
        rows.push(penalty_row(&cs[i], codecs));
        i += 1;
    }
    assert(all_cells(rows@) =~= penalty_rows(cs@, texts(codecs@)));
    append_table(out, &head, &rows);
}

/// The cells of a codec at the last checkpoint.
pub open spec fn final_cells(p: StreamRecall) -> Seq<Seq<char>> {
    seq![p.codec@, p.r1@, p.r10@, p.r100@]
}

/// The rows of these cells.
pub open spec fn final_rows(points: Seq<StreamRecall>) -> Seq<Seq<Seq<char>>> {
    Seq::new(points.len(), |i: int| final_cells(points[i]))
}

fn append_final_rows(out: &mut String, points: &Vec<StreamRecall>)
    ensures
        final(out)@ == old(out)@ + rows_text(final_rows(points@)),
{
    let mut rows: Vec<Vec<String>> = Vec::with_capacity(points.len());
    let mut i: usize = 0;
    while i < points.len()
        invariant
            i <= points.len(),
            rows.len() == i,
            forall|k: int|
                0 <= k < i ==> texts((#[trigger] rows@[k])@) == final_cells(points@[k]),
        decreases points.len() - i,
    {
        let p: &StreamRecall = &points[i];
        let cells: Vec<String> = vec![p.codec.clone(), p.r1.clone(), p.r10.clone(), p.r100.clone()];
        assert(texts(cells@) =~= final_cells(*p));
        rows.push(cells);
        i += 1;
    }
    assert(all_cells(rows@) =~= final_rows(points@));
    append_rows(out, &rows);
}

/// The codecs of a stream: those of its first checkpoint.
pub open spec fn stream_names(cs: Seq<StreamCheckpoint>) -> Seq<Seq<char>> {
    if cs.len() == 0 {
        Seq::empty()
    } else {
        names(cs[0].recall@)
    }
}

/// The table of the last checkpoint, if there is one.
pub open spec fn last_table(cs: Seq<StreamCheckpoint>) -> Seq<char> {
    if cs.len() == 0 {
        Seq::empty()
    } else {
        STREAM_FINAL@ + rows_text(final_rows(cs[cs.len() - 1].recall@))
    }
}

fn append_last_table(out: &mut String, cs: &Vec<StreamCheckpoint>)
    ensures
        final(out)@ == old(out)@ + last_table(cs@),
{
    let ghost before = out@;
    let n: usize = cs.len();
    if n > 0 {
        out.append(STREAM_FINAL);
        append_final_rows(out, &cs[n - 1].recall);
    }
    assert(out@ =~= before + last_table(cs@));
}

fn stream_codec_list(cs: &Vec<StreamCheckpoint>) -> (v: Vec<String>)
    ensures
        texts(v@) == stream_names(cs@),
{
    if cs.len() == 0 {
        let v: Vec<String> = Vec::new();
        assert(texts(v@) =~= Seq::empty());
        v
    } else {
        name_list(&cs[0].recall)
    }
}

/// The codecs of a stream through a graph: those of its first checkpoint.
pub open spec fn graph_names(cs: Seq<GraphCheckpoint>) -> Seq<Seq<char>> {
    if cs.len() == 0 {
        Seq::empty()
    } else {
        names(cs[0].rows@)
    }
}

fn graph_codec_list(cs: &Vec<GraphCheckpoint>) -> (v: Vec<String>)
    ensures
        texts(v@) == graph_names(cs@),
{
    if cs.len() == 0 {
        let v: Vec<String> = Vec::new();
        assert(texts(v@) =~= Seq::empty());
        v
    } else {
        name_list(&cs[0].rows)
    }
}

/// The page of a stream.
pub open spec fn stream_page(r: StreamReport) -> Seq<char> {
    filled(STREAM_TITLE@, seq![r.dataset@])
        + filled(
            STREAM_FACTS@,
            seq![
                decimal(r.dim as nat),
                decimal(r.n_db as nat),
                decimal(r.n_queries as nat),
                decimal(r.n_groups as nat),
                decimal(r.bits as nat),
                decimal(r.seed as nat),
            ],
        )
        + STREAM_NOTES@
        + table_text(
            codec_heads(true, stream_names(r.checkpoints@)),
            hero_rows(r.checkpoints@, stream_names(r.checkpoints@)),
        )
        + STREAM_REFIT@
        + table_text(
            codec_heads(false, stream_names(r.checkpoints@)),
            refit_rows(r.checkpoints@, stream_names(r.checkpoints@)),
        )
        + last_table(r.checkpoints@)
}

/// The page of a stream.
pub fn render_stream_markdown(r: &StreamReport) -> (s: String)
    ensures
        s@ == stream_page(*r),
{
    let mut s: String = String::new();
    let a1: Vec<String> = vec![r.dataset.clone()];
    assert(texts(a1@) =~= seq![r.dataset@]);
    fill(&mut s, STREAM_TITLE, &a1);
    assert(s@ =~= filled(STREAM_TITLE@, seq![r.dataset@]));
    let a2: Vec<String> = vec![
        decimal_of(r.dim as u64),
        decimal_of(r.n_db as u64),
        decimal_of(r.n_queries as u64),
        decimal_of(r.n_groups as u64),
        decimal_of(r.bits as u64),
        decimal_of(r.seed as u64),
    ];
    assert(texts(a2@) =~= seq![
        decimal(r.dim as nat),
        decimal(r.n_db as nat),
        decimal(r.n_queries as nat),
        decimal(r.n_groups as nat),
        decimal(r.bits as nat),
        decimal(r.seed as nat),
    ]);
    fill(&mut s, STREAM_FACTS, &a2);
    s.append(STREAM_NOTES);
    let codecs: Vec<String> = stream_codec_list(&r.checkpoints);
    append_hero_table(&mut s, &r.checkpoints, &codecs);
    s.append(STREAM_REFIT);
    append_refit_table(&mut s, &r.checkpoints, &codecs);
    append_last_table(&mut s, &r.checkpoints);
    s
}

/// The page of a stream through a graph.
pub open spec fn graph_stream_page(r: GraphStreamReport) -> Seq<char> {
    filled(GRAPH_TITLE@, seq![r.dataset@])
        + filled(
            GRAPH_FACTS@,
            seq![
                decimal(r.dim as nat),
                decimal(r.n_queries as nat),
                decimal(r.n_groups as nat),
                decimal(r.bits as nat),
                decimal(r.m as nat),
                decimal(r.ef as nat),
                decimal(r.seed as nat),
            ],
        )
        + GRAPH_NOTES@
        + table_text(
            codec_heads(true, graph_names(r.checkpoints@)),
            graph_rows(r.checkpoints@, graph_names(r.checkpoints@)),
        )
        + GRAPH_FLAT@
        + table_text(
            codec_heads(true, graph_names(r.checkpoints@)),
            flat_rows(r.checkpoints@, graph_names(r.checkpoints@)),
        )
        + GRAPH_PENALTY@
        + table_text(
            codec_heads(false, graph_names(r.checkpoints@)),
            penalty_rows(r.checkpoints@, graph_names(r.checkpoints@)),
        )
}

/// The page of a stream through a graph.
pub fn render_graph_stream_markdown(r: &GraphStreamReport) -> (s: String)
    ensures
        s@ == graph_stream_page(*r),
{
    let mut s: String = String::new();
    let a1: Vec<String> = vec![r.dataset.clone()];
    assert(texts(a1@) =~= seq![r.dataset@]);
    fill(&mut s, GRAPH_TITLE, &a1);
    assert(s@ =~= filled(GRAPH_TITLE@, seq![r.dataset@]));
    let a2: Vec<String> = vec![
        decimal_of(r.dim as u64),
        decimal_of(r.n_queries as u64),
        decimal_of(r.n_groups as u64),
        decimal_of(r.bits as u64),
        decimal_of(r.m as u64),
        decimal_of(r.ef as u64),
        decimal_of(r.seed as u64),
    ];
    assert(texts(a2@) =~= seq![
        decimal(r.dim as nat),
        decimal(r.n_queries as nat),
        decimal(r.n_groups as nat),
        decimal(r.bits as nat),
        decimal(r.m as nat),
        decimal(r.ef as nat),
        decimal(r.seed as nat),
    ]);
    fill(&mut s, GRAPH_FACTS, &a2);
    s.append(GRAPH_NOTES);
    let codecs: Vec<String> = graph_codec_list(&r.checkpoints);
    append_graph_table(&mut s, &r.checkpoints, &codecs);
    s.append(GRAPH_FLAT);
    append_flat_table(&mut s, &r.checkpoints, &codecs);
    s.append(GRAPH_PENALTY);
    append_penalty_table(&mut s, &r.checkpoints, &codecs);
    s
}

// ---- What the pages promise ----

/// Every codec of a comparison has its line: name, rate, recall at one, ten and a hundred, error,
/// time, and code and resident bytes for a vector.
pub proof fn a_comparison_shows_every_codec(r: BenchReport, i: int)
    requires
        0 <= i < r.rows@.len(),
    ensures
        shows(
            bench_page(r),
            line_of(
                seq![
                    r.rows@[i].quantizer@,
                    decimal(r.rows@[i].bits as nat),
                    r.rows@[i].r1@,
                    r.rows@[i].r10@,
                    r.rows@[i].r100@,
                    text_or_dash(r.rows@[i].mse),
                    r.rows@[i].query_us_p50@,
                    decimal(share(r.rows@[i].code_bytes as nat, r.n_db as nat)),
                    decimal(share(r.rows@[i].resident_bytes as nat, r.n_db as nat)),
                ],
            ),
        ),
{
    let page = bench_page(r);
    let rows = bench_rows(r.rows@, r.n_db as nat);
    let front = filled(BENCH_TITLE@, seq![r.dataset@]) + filled(
        BENCH_FACTS@,
        seq![
            decimal(r.dim as nat),
            decimal(r.n_db as nat),
            decimal(r.n_queries as nat),
            decimal(r.seed as nat),
        ],
    ) + norm_note(r.dataset@) + BENCH_HEAD@;
    let back = BENCH_DELTAS@ + rows_text(delta_rows(r.deltas@)) + BENCH_PAIRED@
        + rows_text(paired_rows(r.paired_r10@))
        + filled(BENCH_GAIN@, seq![r.dataset@, yes_or_no(r.has_three_point_gain)]);
    let cells = seq![
        r.rows@[i].quantizer@,
                    decimal(r.rows@[i].bits as nat),
                    r.rows@[i].r1@,
                    r.rows@[i].r10@,
                    r.rows@[i].r100@,
                    text_or_dash(r.rows@[i].mse),
                    r.rows@[i].query_us_p50@,
                    decimal(share(r.rows@[i].code_bytes as nat, r.n_db as nat)),
                    decimal(share(r.rows@[i].resident_bytes as nat, r.n_db as nat)),
    ];
    assert(page =~= front + rows_text(rows) + back);
    every_row_is_shown(rows, i);
    assert(rows[i] =~= cells);
    a_row_is_its_cells_between_bars(cells);
    a_page_shows_what_its_parts_show(page, front, rows_text(rows), back, row_text(rows[i]));
}

/// Every gain over the reference has its line: codec, rate and gain.
pub proof fn a_comparison_shows_every_gain(r: BenchReport, i: int)
    requires
        0 <= i < r.deltas@.len(),
    ensures
        shows(
            bench_page(r),
            line_of(
                seq![
                    r.deltas@[i].variant@,
                    decimal(r.deltas@[i].bits as nat),
                    r.deltas@[i].delta@,
                ],
            ),
        ),
{
    let page = bench_page(r);
    let rows = delta_rows(r.deltas@);
    let front = filled(BENCH_TITLE@, seq![r.dataset@]) + filled(
        BENCH_FACTS@,
        seq![
            decimal(r.dim as nat),
            decimal(r.n_db as nat),
            decimal(r.n_queries as nat),
            decimal(r.seed as nat),
        ],
    ) + norm_note(r.dataset@) + BENCH_HEAD@ + rows_text(bench_rows(r.rows@, r.n_db as nat))
        + BENCH_DELTAS@;
    let back = BENCH_PAIRED@ + rows_text(paired_rows(r.paired_r10@))
        + filled(BENCH_GAIN@, seq![r.dataset@, yes_or_no(r.has_three_point_gain)]);
    let cells = seq![
        r.deltas@[i].variant@,
                    decimal(r.deltas@[i].bits as nat),
                    r.deltas@[i].delta@,
    ];
    assert(page =~= front + rows_text(rows) + back);
    every_row_is_shown(rows, i);
    assert(rows[i] =~= cells);
    a_row_is_its_cells_between_bars(cells);
    a_page_shows_what_its_parts_show(page, front, rows_text(rows), back, row_text(rows[i]));
}

/// Every paired difference has its line: comparator, rate, difference, interval and outcome.
pub proof fn a_comparison_shows_every_paired_difference(r: BenchReport, i: int)
    requires
        0 <= i < r.paired_r10@.len(),
    ensures
        shows(
            bench_page(r),
            line_of(
                seq![
                    r.paired_r10@[i].comparator@,
                    decimal(r.paired_r10@[i].bits as nat),
                    r.paired_r10@[i].delta@,
                    filled(INTERVAL@, seq![r.paired_r10@[i].ci_low@, r.paired_r10@[i].ci_high@]),
                    outcome_text(r.paired_r10@[i].outcome),
                ],
            ),
        ),
{
    let page = bench_page(r);
    let rows = paired_rows(r.paired_r10@);
    let front = filled(BENCH_TITLE@, seq![r.dataset@]) + filled(
        BENCH_FACTS@,
        seq![
            decimal(r.dim as nat),
            decimal(r.n_db as nat),
            decimal(r.n_queries as nat),
            decimal(r.seed as nat),
        ],
    ) + norm_note(r.dataset@) + BENCH_HEAD@ + rows_text(bench_rows(r.rows@, r.n_db as nat))
        + BENCH_DELTAS@ + rows_text(delta_rows(r.deltas@)) + BENCH_PAIRED@;
    let back = filled(BENCH_GAIN@, seq![r.dataset@, yes_or_no(r.has_three_point_gain)]);
    let cells = seq![
        r.paired_r10@[i].comparator@,
                    decimal(r.paired_r10@[i].bits as nat),
                    r.paired_r10@[i].delta@,
                    filled(INTERVAL@, seq![r.paired_r10@[i].ci_low@, r.paired_r10@[i].ci_high@]),
                    outcome_text(r.paired_r10@[i].outcome),
    ];
    assert(page =~= front + rows_text(rows) + back);
    every_row_is_shown(rows, i);
    assert(rows[i] =~= cells);
    a_row_is_its_cells_between_bars(cells);
    a_page_shows_what_its_parts_show(page, front, rows_text(rows), back, row_text(rows[i]));
}

/// Every backend of a diagnostic has its line.
pub proof fn a_diagnostic_shows_every_backend(r: DiagReport, i: int)
    requires
        0 <= i < r.rows@.len(),
    ensures
        shows(
            diag_page(r),
            line_of(
                seq![
                    r.rows@[i].backend@,
                    decimal(r.rows@[i].bits as nat),
                    decimal(r.rows@[i].mem as nat),
                    measured(r.rows@[i].mean_g, r.rows@[i].has_recon),
                    measured(r.rows@[i].mean_kappa, r.rows@[i].has_recon),
                    measured(r.rows@[i].sigma_pred, r.rows@[i].has_recon),
                    r.rows@[i].sigma_emp@,
                    r.rows@[i].bias_emp@,
                    measured(r.rows@[i].mse, r.rows@[i].has_recon),
                ],
            ),
        ),
{
    let page = diag_page(r);
    let rows = diag_rows(r.rows@);
    let front = filled(DIAG_TITLE@, seq![r.dataset@]) + filled(
        DIAG_FACTS@,
        seq![
            decimal(r.dim as nat),
            decimal(r.n_db as nat),
            decimal(r.n_queries as nat),
            decimal(r.seed as nat),
        ],
    ) + DIAG_NOTES@;
    let back = Seq::<char>::empty();
    let cells = seq![
        r.rows@[i].backend@,
                    decimal(r.rows@[i].bits as nat),
                    decimal(r.rows@[i].mem as nat),
                    measured(r.rows@[i].mean_g, r.rows@[i].has_recon),
                    measured(r.rows@[i].mean_kappa, r.rows@[i].has_recon),
                    measured(r.rows@[i].sigma_pred, r.rows@[i].has_recon),
                    r.rows@[i].sigma_emp@,
                    r.rows@[i].bias_emp@,
                    measured(r.rows@[i].mse, r.rows@[i].has_recon),
    ];
    assert(page =~= front + rows_text(rows) + back);
    every_row_is_shown(rows, i);
    assert(rows[i] =~= cells);
    a_row_is_its_cells_between_bars(cells);
    a_page_shows_what_its_parts_show(page, front, rows_text(rows), back, row_text(rows[i]));
}

/// Every calibration size has its line: size, recall, difference and note.
pub proof fn a_calibration_sweep_shows_every_size(r: ColdStartReport, i: int)
    requires
        0 <= i < r.pq@.len(),
    ensures
        shows(
            cold_page(r),
            line_of(
                seq![
                    calibration_text(r.pq@[i].k as nat),
                    r.pq@[i].recall@,
                    r.pq@[i].delta@,
                    calibration_note(r.pq@[i].k as nat, r.pq@[i].ahead),
                ],
            ),
        ),
{
    let page = cold_page(r);
    let rows = cold_rows(r.pq@);
    let front = filled(COLD_TITLE@, seq![r.dataset@]) + filled(
        COLD_FACTS@,
        seq![
            decimal(r.dim as nat),
            decimal(r.n_db as nat),
            decimal(r.n_queries as nat),
            decimal(r.bits as nat),
            decimal(r.seed as nat),
        ],
    ) + filled(COLD_NOTES@, seq![r.trellis_r10@, r.rabitq_r10@]);
    let back = Seq::<char>::empty();
    let cells = seq![
        calibration_text(r.pq@[i].k as nat),
                    r.pq@[i].recall@,
                    r.pq@[i].delta@,
                    calibration_note(r.pq@[i].k as nat, r.pq@[i].ahead),
    ];
    assert(page =~= front + rows_text(rows) + back);
    every_row_is_shown(rows, i);
    assert(rows[i] =~= cells);
    a_row_is_its_cells_between_bars(cells);
    a_page_shows_what_its_parts_show(page, front, rows_text(rows), back, row_text(rows[i]));
}

/// Every shortlist size has its line: label, recall at one, ten and a hundred, candidates for a
/// query, throughput and bytes.
pub proof fn a_companion_sweep_shows_every_size(r: CompanionReport, i: int)
    requires
        0 <= i < r.points@.len(),
    ensures
        shows(
            companion_page(r),
            line_of(
                seq![
                    r.points@[i].label@,
                    r.points@[i].r1@,
                    r.points@[i].r10@,
                    r.points@[i].r100@,
                    decimal(r.points@[i].cand_per_q as nat),
                    r.points@[i].qps@,
                    decimal(r.points@[i].bytes_per_vec as nat),
                ],
            ),
        ),
{
    let page = companion_page(r);
    let rows = companion_rows(r.points@);
    let front = filled(COMPANION_TITLE@, seq![r.dataset@]) + filled(
        COMPANION_FACTS@,
        seq![
            decimal(r.dim as nat),
            decimal(r.n_db as nat),
            decimal(r.n_queries as nat),
            decimal(r.bits as nat),
            decimal(r.seed as nat),
        ],
    ) + filled(COMPANION_NOTES@, seq![decimal(r.n_db as nat)]);
    let back = Seq::<char>::empty();
    let cells = seq![
        r.points@[i].label@,
                    r.points@[i].r1@,
                    r.points@[i].r10@,
                    r.points@[i].r100@,
                    decimal(r.points@[i].cand_per_q as nat),
                    r.points@[i].qps@,
                    decimal(r.points@[i].bytes_per_vec as nat),
    ];
    assert(page =~= front + rows_text(rows) + back);
    every_row_is_shown(rows, i);
    assert(rows[i] =~= cells);
    a_row_is_its_cells_between_bars(cells);
    a_page_shows_what_its_parts_show(page, front, rows_text(rows), back, row_text(rows[i]));
}

/// The word for an outcome tells the three apart.
pub proof fn outcomes_have_their_words()
    ensures
        outcome_text(Outcome::Lead) == "lead"@,
        outcome_text(Outcome::Behind) == "behind"@,
        outcome_text(Outcome::Tied) == "tied"@,
        yes_or_no(true) == "yes"@,
        yes_or_no(false) == "no"@,
{
}

/// Every query of every codec has its line in the table of queries.
pub proof fn every_query_has_its_line(
    dataset: Seq<char>,
    rows: Seq<BenchRow>,
    n: int,
    i: int,
    q: int,
)
    requires
        0 <= i < n <= rows.len(),
        0 <= q < rows[i].per_query_recall@.len(),
    ensures
        shows(
            csv_lines(dataset, rows, n),
            filled(
                CSV_LINE@,
                seq![
                    dataset,
                    decimal(rows[i].bits as nat),
                    decimal(q as nat),
                    rows[i].quantizer@,
                    rows[i].per_query_recall@[q].r1@,
                    rows[i].per_query_recall@[q].r10@,
                    rows[i].per_query_recall@[q].r100@,
                ],
            ),
        ),
    decreases n,
{
    let all = csv_lines(dataset, rows, n);
    let before = csv_lines(dataset, rows, n - 1);
    let last = query_lines(dataset, rows[n - 1], rows[n - 1].per_query_recall@.len() as int);
    let line = query_line(dataset, rows[i], q);
    if i == n - 1 {
        lemma_query_shown(dataset, rows[i], rows[i].per_query_recall@.len() as int, q);
        assert(all =~= before + last + Seq::<char>::empty());
        a_page_shows_what_its_parts_show(all, before, last, Seq::empty(), line);
    } else {
        every_query_has_its_line(dataset, rows, n - 1, i, q);
        assert(all =~= Seq::<char>::empty() + before + last);
        a_page_shows_what_its_parts_show(all, Seq::empty(), before, last, line);
    }
}

proof fn lemma_query_shown(dataset: Seq<char>, row: BenchRow, n: int, q: int)
    requires
        0 <= q < n,
    ensures
        shows(query_lines(dataset, row, n), query_line(dataset, row, q)),
    decreases n,
{
    let all = query_lines(dataset, row, n);
    let before = query_lines(dataset, row, n - 1);
    let last = query_line(dataset, row, n - 1);
    if q == n - 1 {
        assert(all =~= before + last + Seq::<char>::empty());
    } else {
        lemma_query_shown(dataset, row, n - 1, q);
        assert(all =~= Seq::<char>::empty() + before + last);
        a_page_shows_what_its_parts_show(
            all,
            Seq::empty(),
            before,
            last,
            query_line(dataset, row, q),
        );
    }
}

proof fn lemma_first_named<T: Named>(items: Seq<T>, name: Seq<char>, i: int, j: int)
    requires
        0 <= i <= j < items.len(),
        items[j].called() == name,
        forall|q: int| i <= q < j ==> (#[trigger] items[q]).called() != name,
    ensures
        first_named(items, name, i) == Some(j),
    decreases j - i,
{
    if i < j {
        assert(items[i].called() != name);
        lemma_first_named(items, name, i + 1, j);
    }
}

/// A checkpoint's row shows its fraction, how many vectors are live, and for each codec the recall
/// at ten of its own entry.
pub proof fn a_checkpoint_shows_each_codec_its_own(
    c: StreamCheckpoint,
    codecs: Seq<Seq<char>>,
    k: int,
    j: int,
)
    requires
        0 <= k < codecs.len(),
        0 <= j < c.recall@.len(),
        c.recall@[j].codec@ == codecs[k],
        forall|q: int| 0 <= q < j ==> (#[trigger] c.recall@[q]).codec@ != codecs[k],
    ensures
        hero_cells(c, codecs).len() == codecs.len() + 2,
        hero_cells(c, codecs)[0] == c.frac@,
        hero_cells(c, codecs)[1] == decimal(c.n_live as nat),
        hero_cells(c, codecs)[k + 2] == c.recall@[j].r10@,
{
    lemma_first_named(c.recall@, codecs[k], 0, j);
}

/// A checkpoint of a graph stream shows for each codec its recall through the graph, without it,
/// and the difference.
pub proof fn a_graph_checkpoint_shows_each_codec_its_own(
    c: GraphCheckpoint,
    codecs: Seq<Seq<char>>,
    k: int,
    j: int,
)
    requires
        0 <= k < codecs.len(),
        0 <= j < c.rows@.len(),
        c.rows@[j].codec@ == codecs[k],
        forall|q: int| 0 <= q < j ==> (#[trigger] c.rows@[q]).codec@ != codecs[k],
    ensures
        graph_cells(c, codecs)[k + 2] == c.rows@[j].graph@,
        flat_cells(c, codecs)[k + 2] == c.rows@[j].flat@,
        penalty_cells(c, codecs)[k + 1] == c.rows@[j].penalty@,
{
    lemma_first_named(c.rows@, codecs[k], 0, j);
}

/// The page of a stream shows a line of recalls and a line of refits for every checkpoint, under a
/// head that names the codecs of the first one, and at the end every codec of the last one with
/// its recall at one, ten and a hundred.
pub proof fn a_stream_shows_every_checkpoint(r: StreamReport, i: int, j: int)
    requires
        0 <= i < r.checkpoints@.len(),
        0 <= j < r.checkpoints@.last().recall@.len(),
    ensures
        ({
            let first = r.checkpoints@[0].recall@;
            let codecs = Seq::new(first.len(), |k: int| first[k].codec@);
            let last = r.checkpoints@.last().recall@[j];
            &&& shows(stream_page(r), line_of(seq!["frac"@, "n_live"@] + codecs))
            &&& shows(stream_page(r), line_of(seq!["frac"@] + codecs))
            &&& shows(stream_page(r), line_of(hero_cells(r.checkpoints@[i], codecs)))
            &&& shows(stream_page(r), line_of(refit_cells(r.checkpoints@[i], codecs)))
            &&& shows(stream_page(r), line_of(seq![last.codec@, last.r1@, last.r10@, last.r100@]))
        }),
{
    let cs = r.checkpoints@;
    let first = cs[0].recall@;
    let codecs = stream_names(cs);
    assert(codecs =~= Seq::new(first.len(), |k: int| first[k].codec@));
    let page = stream_page(r);
    let top = filled(STREAM_TITLE@, seq![r.dataset@]) + filled(
        STREAM_FACTS@,
        seq![
            decimal(r.dim as nat),
            decimal(r.n_db as nat),
            decimal(r.n_queries as nat),
            decimal(r.n_groups as nat),
            decimal(r.bits as nat),
            decimal(r.seed as nat),
        ],
    ) + STREAM_NOTES@;
    let heads = codec_heads(true, codecs);
    let others = codec_heads(false, codecs);
    let hero = table_text(heads, hero_rows(cs, codecs));
    let refit = table_text(others, refit_rows(cs, codecs));
    let end = rows_text(final_rows(cs.last().recall@));
    let p = cs.last().recall@[j];
    let cells = seq![p.codec@, p.r1@, p.r10@, p.r100@];
    assert(final_rows(cs.last().recall@)[j] =~= cells);
    a_table_begins_with_its_head(heads, hero_rows(cs, codecs), i);
    a_table_begins_with_its_head(others, refit_rows(cs, codecs), i);
    every_row_is_shown(final_rows(cs.last().recall@), j);
    a_row_is_its_cells_between_bars(heads);
    a_row_is_its_cells_between_bars(others);
    a_row_is_its_cells_between_bars(hero_cells(cs[i], codecs));
    a_row_is_its_cells_between_bars(refit_cells(cs[i], codecs));
    a_row_is_its_cells_between_bars(cells);
    let rest = STREAM_REFIT@ + refit + last_table(cs);
    assert(page =~= top + hero + rest);
    a_page_shows_what_its_parts_show(page, top, hero, rest, row_text(heads));
    a_page_shows_what_its_parts_show(page, top, hero, rest, row_text(hero_cells(cs[i], codecs)));
    let front = top + hero + STREAM_REFIT@;
    assert(page =~= front + refit + last_table(cs));
    a_page_shows_what_its_parts_show(page, front, refit, last_table(cs), row_text(others));
    a_page_shows_what_its_parts_show(
        page,
        front,
        refit,
        last_table(cs),
        row_text(refit_cells(cs[i], codecs)),
    );
    let before = front + refit + STREAM_FINAL@;
    assert(page =~= before + end + Seq::<char>::empty());
    a_page_shows_what_its_parts_show(page, before, end, Seq::empty(), row_text(cells));
}

/// The page of a graph stream shows for every checkpoint a line of recalls through the graph, one
/// without it and one of differences, each under a head that names the codecs of the first one.
pub proof fn a_graph_stream_shows_every_checkpoint(r: GraphStreamReport, i: int)
    requires
        0 <= i < r.checkpoints@.len(),
    ensures
        ({
            let first = r.checkpoints@[0].rows@;
            let codecs = Seq::new(first.len(), |k: int| first[k].codec@);
            let page = graph_stream_page(r);
            &&& shows(page, line_of(seq!["frac"@, "n_live"@] + codecs))
            &&& shows(page, line_of(seq!["frac"@] + codecs))
            &&& shows(page, line_of(graph_cells(r.checkpoints@[i], codecs)))
            &&& shows(page, line_of(flat_cells(r.checkpoints@[i], codecs)))
            &&& shows(page, line_of(penalty_cells(r.checkpoints@[i], codecs)))
        }),
{
    let cs = r.checkpoints@;
    let first = cs[0].rows@;
    let codecs = graph_names(cs);
    assert(codecs =~= Seq::new(first.len(), |k: int| first[k].codec@));
    let page = graph_stream_page(r);
    let top = filled(GRAPH_TITLE@, seq![r.dataset@]) + filled(
        GRAPH_FACTS@,
        seq![
            decimal(r.dim as nat),
            decimal(r.n_queries as nat),
            decimal(r.n_groups as nat),
            decimal(r.bits as nat),
            decimal(r.m as nat),
            decimal(r.ef as nat),
            decimal(r.seed as nat),
        ],
    ) + GRAPH_NOTES@;
    let heads = codec_heads(true, codecs);
    let others = codec_heads(false, codecs);
    let graph = table_text(heads, graph_rows(cs, codecs));
    let flat = table_text(heads, flat_rows(cs, codecs));
    let penalty = table_text(others, penalty_rows(cs, codecs));
    a_table_begins_with_its_head(heads, graph_rows(cs, codecs), i);
    a_table_begins_with_its_head(heads, flat_rows(cs, codecs), i);
    a_table_begins_with_its_head(others, penalty_rows(cs, codecs), i);
    a_row_is_its_cells_between_bars(heads);
    a_row_is_its_cells_between_bars(others);
    a_row_is_its_cells_between_bars(graph_cells(cs[i], codecs));
    a_row_is_its_cells_between_bars(flat_cells(cs[i], codecs));
    a_row_is_its_cells_between_bars(penalty_cells(cs[i], codecs));
    let rest = GRAPH_FLAT@ + flat + GRAPH_PENALTY@ + penalty;
    assert(page =~= top + graph + rest);
    a_page_shows_what_its_parts_show(page, top, graph, rest, row_text(heads));
    a_page_shows_what_its_parts_show(page, top, graph, rest, row_text(graph_cells(cs[i], codecs)));
    let front = top + graph + GRAPH_FLAT@;
    let back = GRAPH_PENALTY@ + penalty;
    assert(page =~= front + flat + back);
    a_page_shows_what_its_parts_show(page, front, flat, back, row_text(flat_cells(cs[i], codecs)));
    let before = front + flat + GRAPH_PENALTY@;
    assert(page =~= before + penalty + Seq::<char>::empty());
    a_page_shows_what_its_parts_show(page, before, penalty, Seq::empty(), row_text(others));
    a_page_shows_what_its_parts_show(
        page,
        before,
        penalty,
        Seq::empty(),
        row_text(penalty_cells(cs[i], codecs)),
    );
}

/// A line of refits shows for each codec how many vectors its own entry touched, and none for a
/// codec without an entry.
pub proof fn a_refit_line_shows_what_was_touched(
    c: StreamCheckpoint,
    codecs: Seq<Seq<char>>,
    k: int,
    j: int,
)
    requires
        0 <= k < codecs.len(),
        0 <= j <= c.refit_touched@.len(),
        j < c.refit_touched@.len() ==> c.refit_touched@[j].codec@ == codecs[k],
        forall|q: int| 0 <= q < j ==> (#[trigger] c.refit_touched@[q]).codec@ != codecs[k],
    ensures
        refit_cells(c, codecs).len() == codecs.len() + 1,
        refit_cells(c, codecs)[0] == c.frac@,
        j < c.refit_touched@.len() ==> refit_cells(c, codecs)[k + 1] == decimal(
            c.refit_touched@[j].touched as nat,
        ),
        j == c.refit_touched@.len() ==> refit_cells(c, codecs)[k + 1] == "0"@,
{
    if j < c.refit_touched@.len() {
        lemma_first_named(c.refit_touched@, codecs[k], 0, j);
    } else {
        lemma_none_named(c.refit_touched@, codecs[k], 0);
    }
}

proof fn lemma_none_named<T: Named>(items: Seq<T>, name: Seq<char>, i: int)
    requires
        0 <= i <= items.len(),
        forall|q: int| i <= q < items.len() ==> (#[trigger] items[q]).called() != name,
    ensures
        first_named(items, name, i) is None,
    decreases items.len() - i,
{
    if i < items.len() {
        lemma_none_named(items, name, i + 1);
    }
}

/// A comparison opens with its data set, dimension, sizes and seed.
pub proof fn a_comparison_opens_with_its_facts(r: BenchReport)
    ensures
        (filled(BENCH_TITLE@, seq![r.dataset@]) + filled(
            BENCH_FACTS@,
            seq![
                decimal(r.dim as nat),
                decimal(r.n_db as nat),
                decimal(r.n_queries as nat),
                decimal(r.seed as nat),
            ],
        )).is_prefix_of(bench_page(r)),
{
    let opening = filled(BENCH_TITLE@, seq![r.dataset@]) + filled(
        BENCH_FACTS@,
        seq![
            decimal(r.dim as nat),
            decimal(r.n_db as nat),
            decimal(r.n_queries as nat),
            decimal(r.seed as nat),
        ],
    );
    assert(bench_page(r) =~= opening + (norm_note(r.dataset@) + BENCH_HEAD@ + rows_text(
        bench_rows(r.rows@, r.n_db as nat),
    ) + BENCH_DELTAS@ + rows_text(delta_rows(r.deltas@)) + BENCH_PAIRED@ + rows_text(
        paired_rows(r.paired_r10@),
    ) + filled(BENCH_GAIN@, seq![r.dataset@, yes_or_no(r.has_three_point_gain)])));
    assert(bench_page(r).subrange(0, opening.len() as int) =~= opening);
}

/// A diagnostic opens with its data set, dimension, sizes and seed.
pub proof fn a_diagnostic_opens_with_its_facts(r: DiagReport)
    ensures
        (filled(DIAG_TITLE@, seq![r.dataset@]) + filled(
            DIAG_FACTS@,
            seq![
                decimal(r.dim as nat),
                decimal(r.n_db as nat),
                decimal(r.n_queries as nat),
                decimal(r.seed as nat),
            ],
        )).is_prefix_of(diag_page(r)),
{
    let opening = filled(DIAG_TITLE@, seq![r.dataset@]) + filled(
        DIAG_FACTS@,
        seq![
            decimal(r.dim as nat),
            decimal(r.n_db as nat),
            decimal(r.n_queries as nat),
            decimal(r.seed as nat),
        ],
    );
    assert(diag_page(r) =~= opening + (DIAG_NOTES@ + rows_text(diag_rows(r.rows@))));
    assert(diag_page(r).subrange(0, opening.len() as int) =~= opening);
}

/// A calibration sweep opens with its data set, dimension, sizes, rate and seed.
pub proof fn a_calibration_sweep_opens_with_its_facts(r: ColdStartReport)
    ensures
        (filled(COLD_TITLE@, seq![r.dataset@]) + filled(
            COLD_FACTS@,
            seq![
                decimal(r.dim as nat),
                decimal(r.n_db as nat),
                decimal(r.n_queries as nat),
                decimal(r.bits as nat),
                decimal(r.seed as nat),
            ],
        )).is_prefix_of(cold_page(r)),
{
    let opening = filled(COLD_TITLE@, seq![r.dataset@]) + filled(
        COLD_FACTS@,
        seq![
            decimal(r.dim as nat),
            decimal(r.n_db as nat),
            decimal(r.n_queries as nat),
            decimal(r.bits as nat),
            decimal(r.seed as nat),
        ],
    );
    assert(cold_page(r) =~= opening + (filled(COLD_NOTES@, seq![r.trellis_r10@, r.rabitq_r10@])
        + rows_text(cold_rows(r.pq@))));
    assert(cold_page(r).subrange(0, opening.len() as int) =~= opening);
}

/// A companion sweep opens with its data set, dimension, sizes, rate and seed.
pub proof fn a_companion_sweep_opens_with_its_facts(r: CompanionReport)
    ensures
        (filled(COMPANION_TITLE@, seq![r.dataset@]) + filled(
            COMPANION_FACTS@,
            seq![
                decimal(r.dim as nat),
                decimal(r.n_db as nat),
                decimal(r.n_queries as nat),
                decimal(r.bits as nat),
                decimal(r.seed as nat),
            ],
        )).is_prefix_of(companion_page(r)),
{
    let opening = filled(COMPANION_TITLE@, seq![r.dataset@]) + filled(
        COMPANION_FACTS@,
        seq![
            decimal(r.dim as nat),
            decimal(r.n_db as nat),
            decimal(r.n_queries as nat),
            decimal(r.bits as nat),
            decimal(r.seed as nat),
        ],
    );
    assert(companion_page(r) =~= opening + (filled(COMPANION_NOTES@, seq![decimal(r.n_db as nat)])
        + rows_text(companion_rows(r.points@))));
    assert(companion_page(r).subrange(0, opening.len() as int) =~= opening);
}

/// A stream opens with its data set, dimension, sizes, groups, rate and seed.
pub proof fn a_stream_opens_with_its_facts(r: StreamReport)
    ensures
        (filled(STREAM_TITLE@, seq![r.dataset@]) + filled(
            STREAM_FACTS@,
            seq![
                decimal(r.dim as nat),
                decimal(r.n_db as nat),
                decimal(r.n_queries as nat),
                decimal(r.n_groups as nat),
                decimal(r.bits as nat),
                decimal(r.seed as nat),
            ],
        )).is_prefix_of(stream_page(r)),
{
    let opening = filled(STREAM_TITLE@, seq![r.dataset@]) + filled(
        STREAM_FACTS@,
        seq![
            decimal(r.dim as nat),
            decimal(r.n_db as nat),
            decimal(r.n_queries as nat),
            decimal(r.n_groups as nat),
            decimal(r.bits as nat),
            decimal(r.seed as nat),
        ],
    );
    assert(stream_page(r) =~= opening + (STREAM_NOTES@ + table_text(
        codec_heads(true, stream_names(r.checkpoints@)),
        hero_rows(r.checkpoints@, stream_names(r.checkpoints@)),
    ) + STREAM_REFIT@ + table_text(
        codec_heads(false, stream_names(r.checkpoints@)),
        refit_rows(r.checkpoints@, stream_names(r.checkpoints@)),
    ) + last_table(r.checkpoints@)));
    assert(stream_page(r).subrange(0, opening.len() as int) =~= opening);
}

/// A graph stream opens with its data set, dimension, sizes, degree, width, rate and seed.
pub proof fn a_graph_stream_opens_with_its_facts(r: GraphStreamReport)
    ensures
        (filled(GRAPH_TITLE@, seq![r.dataset@]) + filled(
            GRAPH_FACTS@,
            seq![
                decimal(r.dim as nat),
                decimal(r.n_queries as nat),
                decimal(r.n_groups as nat),
                decimal(r.bits as nat),
                decimal(r.m as nat),
                decimal(r.ef as nat),
                decimal(r.seed as nat),
            ],
        )).is_prefix_of(graph_stream_page(r)),
{
    let opening = filled(GRAPH_TITLE@, seq![r.dataset@]) + filled(
        GRAPH_FACTS@,
        seq![
            decimal(r.dim as nat),
            decimal(r.n_queries as nat),
            decimal(r.n_groups as nat),
            decimal(r.bits as nat),
            decimal(r.m as nat),
            decimal(r.ef as nat),
            decimal(r.seed as nat),
        ],
    );
    assert(graph_stream_page(r) =~= opening + (GRAPH_NOTES@ + table_text(
        codec_heads(true, graph_names(r.checkpoints@)),
        graph_rows(r.checkpoints@, graph_names(r.checkpoints@)),
    ) + GRAPH_FLAT@ + table_text(
        codec_heads(true, graph_names(r.checkpoints@)),
        flat_rows(r.checkpoints@, graph_names(r.checkpoints@)),
    ) + GRAPH_PENALTY@ + table_text(
        codec_heads(false, graph_names(r.checkpoints@)),
        penalty_rows(r.checkpoints@, graph_names(r.checkpoints@)),
    )));
    assert(graph_stream_page(r).subrange(0, opening.len() as int) =~= opening);
}

/// A comparison on inner products, which a data set's name tells by its ending, says that norms
/// are counted; every comparison ends with whether a large gain was seen.
pub proof fn a_comparison_says_what_it_counts(r: BenchReport, name: Seq<char>)
    ensures
        r.dataset@ == name + "-ip"@ ==> shows(bench_page(r), BENCH_NORMS@),
        norm_note(r.dataset@).len() > 0 ==> exists|x: Seq<char>| r.dataset@ == #[trigger] (x
            + "-ip"@),
        r.has_three_point_gain ==> filled(BENCH_GAIN@, seq![r.dataset@, "yes"@]).is_suffix_of(
            bench_page(r),
        ),
        !r.has_three_point_gain ==> filled(BENCH_GAIN@, seq![r.dataset@, "no"@]).is_suffix_of(
            bench_page(r),
        ),
{
    reveal_strlit("-ip");
    let page = bench_page(r);
    let top = filled(BENCH_TITLE@, seq![r.dataset@]) + filled(
        BENCH_FACTS@,
        seq![
            decimal(r.dim as nat),
            decimal(r.n_db as nat),
            decimal(r.n_queries as nat),
            decimal(r.seed as nat),
        ],
    );
    let tables = BENCH_HEAD@ + rows_text(bench_rows(r.rows@, r.n_db as nat)) + BENCH_DELTAS@
        + rows_text(delta_rows(r.deltas@)) + BENCH_PAIRED@ + rows_text(paired_rows(r.paired_r10@));
    let end = filled(BENCH_GAIN@, seq![r.dataset@, yes_or_no(r.has_three_point_gain)]);
    if r.dataset@ == name + "-ip"@ {
        assert(is_ip_name(r.dataset@));
        assert(page =~= top + BENCH_NORMS@ + (tables + end));
    }
    if is_ip_name(r.dataset@) {
        let d = r.dataset@;
        assert(d =~= d.take(d.len() - 3) + "-ip"@);
    }
    assert(page =~= (top + norm_note(r.dataset@) + tables) + end);
    assert(page.subrange(page.len() - end.len(), page.len() as int) =~= end);
}

} // verus!
