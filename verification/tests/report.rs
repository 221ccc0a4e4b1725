//! Operating points and the pages that show them.

use ultravec::bench::Outcome;
use ultravec::bench_report::{
    render_cold_start_markdown, render_companion_markdown, render_diag_markdown,
    render_graph_stream_markdown, render_markdown, render_per_query_csv, render_stream_markdown,
    BenchReport, BenchRow, ColdPoint, ColdStartReport, CompanionPoint, CompanionReport, DeltaRow,
    DiagReport, DiagRow, GraphCheckpoint, GraphRecall, GraphStreamReport, PairedRow, QueryTexts,
    Refit, StreamCheckpoint, StreamRecall, StreamReport,
};
use ultravec::hnsw::HnswCodec;
use ultravec::ivf::IvfCodec;
use ultravec::order::order_key64;
use ultravec::page::fill;
use ultravec::pareto::{
    best_point, derived_targets, recall_targets, seen_codecs, top_recall, window_is_full,
};
use ultravec::sweep_report::{
    hnsw_point, ivf_point, render_hnsw_markdown, render_ivf_markdown, render_ivf_page, render_rerank_markdown,
    rerank_point, Footprint, HnswReport, IvfReport, Measured, ParetoPoint, RecallTarget,
    RerankReport,
};

fn s(t: &str) -> String {
    t.to_string()
}

fn measured(qps: f64) -> Measured {
    Measured {
        speed: order_key64(qps.to_bits()),
        recall10: s("R"),
        qps: format!("{qps:.0}"),
        time: s("T"),
    }
}

fn lists(hits: usize) -> (Vec<Vec<i64>>, Vec<Vec<i64>>) {
    let gold: Vec<i64> = (0..10).collect();
    let got: Vec<i64> = (0..10).map(|i| if i < hits as i64 { i } else { 100 + i }).collect();
    (vec![gold], vec![got])
}

fn point(codec: IvfCodec, nprobe: usize, hits: usize, qps: f64) -> ParetoPoint {
    let (gold, got) = lists(hits);
    let bytes = Footprint { code: 25, resident: 48, n: 2 };
    ivf_point(codec, nprobe, &gold, &got, bytes, measured(qps))
}

fn points() -> Vec<ParetoPoint> {
    vec![
        point(IvfCodec::Rabitq, 1, 8, 900.0),
        point(IvfCodec::Rabitq, 4, 9, 400.0),
        point(IvfCodec::Pvq, 1, 7, 1000.0),
        point(IvfCodec::Pvq, 4, 9, 500.0),
    ]
}

#[test]
fn blanks_are_filled_in_order() {
    let mut out = s("> ");
    fill(&mut out, "{} of {}; {1} {}", &vec![s("a"), s("b")]);
    assert_eq!(out, "> a of b; {1} {}");
}

#[test]
fn a_point_counts_its_recall_and_bytes() {
    let p = point(IvfCodec::Pvq, 4, 9, 500.0);
    assert_eq!((p.hits, p.total), (9, 10));
    assert_eq!(p.codec, IvfCodec::Pvq.label());
    assert_eq!((p.bytes_per_vec, p.total_resident_bytes_per_vec), (12, 24));
    let (gold, got) = lists(10);
    let bytes = Footprint { code: 25, resident: 48, n: 2 };
    let r = rerank_point(IvfCodec::Pvq, 4, 50, 8, &gold, &got, bytes, measured(1.0));
    assert_eq!(r.total_resident_bytes_per_vec, 24 + 32);
    let h = hnsw_point(HnswCodec::Fp32, 16, &gold, &got, 32, 100, 2, measured(1.0));
    assert_eq!((h.bytes_per_vec, h.total_resident_bytes_per_vec), (32, 50));
}

#[test]
fn the_fastest_point_at_a_target_is_chosen() {
    let ps = points();
    assert_eq!(seen_codecs(&ps), vec![s("rabitq"), s("pvq")]);
    assert_eq!(best_point(&ps, None, 900), Some(3));
    assert_eq!(best_point(&ps, Some(&s("rabitq")), 900), Some(1));
    assert_eq!(best_point(&ps, Some(&s("rabitq")), 800), Some(0));
    assert_eq!(best_point(&ps, None, 950), None);
    assert_eq!(best_point(&ps, None, 0), Some(2));
    let tied = vec![
        point(IvfCodec::Rabitq, 1, 9, 5.0),
        point(IvfCodec::Pvq, 1, 9, 5.0),
    ];
    assert_eq!(best_point(&tied, None, 900), Some(1));
}

#[test]
fn targets_are_reached_or_derived() {
    let ps = points();
    assert_eq!(recall_targets(&ps, &vec![810, 855, 891]), vec![800, 810, 855, 891, 900]);
    assert_eq!(recall_targets(&ps, &vec![900, 0, 850]), vec![800, 850, 900]);
    assert_eq!(recall_targets(&Vec::<ParetoPoint>::new(), &vec![0, 0, 0]), Vec::<u32>::new());
}

#[test]
fn a_measurement_lasts_long_enough() {
    assert!(!window_is_full(3, 2, 900_000_000));
    assert!(!window_is_full(3, 3, 499_999_999));
    assert!(window_is_full(3, 3, 500_000_000));
    assert!(!window_is_full(0, 0, 900_000_000));
}

#[test]
fn a_probe_sweep_shows_its_winners() {
    let r = IvfReport {
        dataset: s("sift"),
        dim: 128,
        n_db: 1000,
        n_queries: 10,
        nlist: 32,
        bits: 2,
        seed: 42,
        threads: 4,
        points: points(),
    };
    let targets = vec![
        RecallTarget { thousandths: 800, label: s("0.80") },
        RecallTarget { thousandths: 950, label: s("0.95") },
    ];
    let md = render_ivf_page(&r, &targets, &s("0.900"));
    assert!(md.starts_with("# IVF recall@10 vs QPS Pareto — sift\n\n- dim **128**, db **1000**"));
    assert!(md.contains("| rabitq | codes-only (RAM-compressed) | 1 | R | 900 | T | 12 | 24 |\n"));
    assert!(md.contains("recall@10 = 0.900)"));
    assert!(md.contains(
        "| codec | R@10≥0.80 | R@10≥0.95 |\n|---|---|---|\n| rabitq | 900 | — |\n| pvq | 500 | — |\n"
    ));
    assert!(md.ends_with("| ≥0.95 | (none reached) | — | — |\n"));
    assert!(md.contains("| ≥0.80 | rabitq ("));
}

#[test]
fn a_rerank_sweep_names_what_reaches_a_target() {
    let (gold, got) = lists(9);
    let bytes = Footprint { code: 25, resident: 48, n: 2 };
    let r = RerankReport {
        dataset: s("sift"),
        dim: 8,
        n_db: 2,
        n_queries: 1,
        nlist: 2,
        bits: 2,
        threads: 1,
        points: vec![rerank_point(IvfCodec::Pvq, 4, 50, 8, &gold, &got, bytes, measured(7.0))],
    };
    let md = render_rerank_markdown(&r);
    assert!(md.contains("- **recall@10 >= 0.90:** pvq 7 QPS @ rdepth 50\n"));
    assert!(md.ends_with("- **recall@10 >= 0.99:** pvq (target unreached)\n"));
}

#[test]
fn a_beam_sweep_names_what_reaches_a_target() {
    let (gold, got) = lists(10);
    let r = HnswReport {
        dataset: s("sift"),
        dim: 8,
        n_db: 2,
        n_queries: 1,
        m: 16,
        ef_construction: 200,
        bits: 2,
        threads: 1,
        points: vec![
            hnsw_point(HnswCodec::Fp32, 16, &gold, &got, 32, 100, 2, measured(7.0)),
            hnsw_point(HnswCodec::Rabitq, 16, &gold, &lists(3).1, 4, 100, 2, measured(9.0)),
        ],
    };
    let md = render_hnsw_markdown(&r);
    assert!(md.contains("| fp32 | 16 | R | 7 | 32 | 50 | T |\n"));
    assert!(md.ends_with(
        "- **recall@10 >= 0.99:** fp32 7 QPS @ ef 16 (32 B/vec) · rabitq (target unreached)\n"
    ));
}

fn bench_report(dataset: &str) -> BenchReport {
    BenchReport {
        dataset: s(dataset),
        dim: 4,
        n_db: 10,
        n_queries: 1,
        seed: 42,
        rows: vec![BenchRow {
            quantizer: s("rabitq"),
            bits: 2,
            r1: s("1.000"),
            r10: s("0.900"),
            r100: s("0.800"),
            mse: None,
            query_us_p50: s("3.5"),
            code_bytes: 105,
            resident_bytes: 209,
            per_query_recall: vec![QueryTexts {
                r1: s("1.000000"),
                r10: s("0.900000"),
                r100: s("0.800000"),
            }],
        }],
        deltas: vec![DeltaRow { variant: s("rabitq"), bits: 2, delta: s("+1.00") }],
        paired_r10: vec![PairedRow {
            comparator: s("rabitq"),
            bits: 2,
            delta: s("+1.000"),
            ci_low: s("+0.500"),
            ci_high: s("+1.500"),
            outcome: Outcome::Lead,
        }],
        has_three_point_gain: false,
    }
}

#[test]
fn a_comparison_is_rendered() {
    let md = render_markdown(&bench_report("sift"));
    assert!(md.contains("| rabitq | 2 | 1.000 | 0.900 | 0.800 | — | 3.5 | 10 | 20 |\n"));
    assert!(md.contains("| rabitq | 2 | +1.000 | [+0.500, +1.500] | lead |\n"));
    assert!(md.ends_with("reference (sift):** no.\n"));
    assert!(!md.contains("MIPS"));
    assert!(render_markdown(&bench_report("sift-ip")).contains("MIPS"));
}

#[test]
fn every_query_has_its_line() {
    assert_eq!(
        render_per_query_csv(&bench_report("sift")),
        "dataset,bits,query,quantizer,recall_at_1,recall_at_10,recall_at_100\n\
         sift,2,0,rabitq,1.000000,0.900000,0.800000\n"
    );
}

#[test]
fn a_diagnostic_hides_what_it_cannot_measure() {
    let row = |has_recon: bool| DiagRow {
        backend: s("b"),
        bits: 2,
        mem: 6,
        mean_g: s("0.9"),
        mean_kappa: s("0.4"),
        sigma_pred: s("0.1"),
        sigma_emp: s("0.2"),
        bias_emp: s("+0.0"),
        mse: s("0.3"),
        has_recon,
    };
    let md = render_diag_markdown(&DiagReport {
        dataset: s("d"),
        dim: 4,
        n_db: 1,
        n_queries: 1,
        seed: 42,
        rows: vec![row(true), row(false)],
    });
    assert!(md.ends_with(
        "| b | 2 | 6 | 0.9 | 0.4 | 0.1 | 0.2 | +0.0 | 0.3 |\n\
         | b | 2 | 6 | — | — | — | 0.2 | +0.0 | — |\n"
    ));
}

#[test]
fn a_calibration_sweep_notes_who_is_ahead() {
    let md = render_cold_start_markdown(&ColdStartReport {
        dataset: s("d"),
        dim: 4,
        n_db: 1,
        n_queries: 1,
        bits: 2,
        seed: 42,
        trellis_r10: s("0.500"),
        rabitq_r10: s("0.400"),
        pq: vec![
            ColdPoint { k: 512, recall: s("0.450"), delta: s("-0.050"), ahead: false },
            ColdPoint { k: 0, recall: s("0.600"), delta: s("+0.100"), ahead: true },
        ],
    });
    assert!(md.contains("trellis 0.500 · rabitq 0.400**"));
    assert!(md.ends_with(
        "| 512 | 0.450 | -0.050 | oblivious ahead (cold) |\n\
         | full | 0.600 | +0.100 | PQ ahead (warm) |\n"
    ));
}

#[test]
fn a_companion_sweep_is_rendered() {
    let md = render_companion_markdown(&CompanionReport {
        dataset: s("d"),
        dim: 4,
        n_db: 9,
        n_queries: 1,
        bits: 2,
        seed: 42,
        points: vec![CompanionPoint {
            label: s("C=5"),
            r1: s("a"),
            r10: s("b"),
            r100: s("c"),
            cand_per_q: 5,
            qps: s("8"),
            bytes_per_vec: 3,
        }],
    });
    assert!(md.contains("C vs N=9)"));
    assert!(md.ends_with("| C=5 | a | b | c | 5 | 8 | 3 |\n"));
}

#[test]
fn a_stream_shows_missing_codecs_as_zero() {
    let cp = |frac: &str, codec: &str| StreamCheckpoint {
        frac: s(frac),
        n_live: 7,
        recall: vec![StreamRecall { codec: s(codec), r1: s("1"), r10: s("2"), r100: s("3") }],
        refit_touched: vec![Refit { codec: s(codec), touched: 5 }],
    };
    let md = render_stream_markdown(&StreamReport {
        dataset: s("d"),
        dim: 4,
        n_db: 9,
        n_queries: 1,
        n_groups: 2,
        bits: 2,
        seed: 42,
        checkpoints: vec![cp("0.50", "pq"), cp("1.00", "other")],
    });
    assert!(md.contains("| frac | n_live | pq |\n|---|---|---|\n| 0.50 | 7 | 2 |\n| 1.00 | 7 | 0.000 |\n"));
    assert!(md.contains("| frac | pq |\n|---|---|\n| 0.50 | 5 |\n| 1.00 | 0 |\n"));
    assert!(md.ends_with("recall@{1,10,100}\n\n| codec | R@1 | R@10 | R@100 |\n|---|---|---|---|\n| other | 1 | 2 | 3 |\n"));
}

#[test]
fn a_graph_stream_shows_its_penalty() {
    let md = render_graph_stream_markdown(&GraphStreamReport {
        dataset: s("d"),
        dim: 4,
        n_queries: 1,
        n_groups: 2,
        bits: 2,
        m: 16,
        ef: 64,
        seed: 42,
        checkpoints: vec![GraphCheckpoint {
            frac: s("1.00"),
            n_live: 7,
            rows: vec![GraphRecall {
                codec: s("exact"),
                graph: s("0.900"),
                flat: s("1.000"),
                penalty: s("-0.100"),
            }],
        }],
    });
    assert!(md.contains("NSW M=16 ef=64, seed 42\n"));
    assert!(md.contains("| 1.00 | 7 | 0.900 |\n"));
    assert!(md.ends_with("| frac | exact |\n|---|---|\n| 1.00 | -0.100 |\n"));
}

#[test]
fn the_best_recall_gives_targets() {
    assert_eq!(top_recall(&points()), (9, 10));
    assert_eq!(top_recall(&Vec::<ParetoPoint>::new()), (0, 1));
    assert_eq!(derived_targets(9, 10), vec![810, 855, 891]);
    assert_eq!(derived_targets(1, 3), vec![300, 317, 330]);
    assert_eq!(derived_targets(0, 1), vec![0, 0, 0]);
}

#[test]
fn a_probe_sweep_finds_its_own_targets() {
    let r = IvfReport {
        dataset: s("sift"),
        dim: 128,
        n_db: 1000,
        n_queries: 10,
        nlist: 32,
        bits: 2,
        seed: 42,
        threads: 4,
        points: points(),
    };
    let label = |t: u32| format!("{:.2}", f64::from(t) / 1000.0);
    let top = |hits: u64, total: u64| format!("{:.3}", hits as f64 / total as f64);
    let md = render_ivf_markdown(&r, &label, &top);
    assert!(md.contains("recall@10 = 0.900)"));
    assert!(md.contains(
        "| codec | R@10≥0.80 | R@10≥0.81 | R@10≥0.85 | R@10≥0.89 | R@10≥0.90 |\n"
    ));
    assert!(md.contains("| rabitq | 900 | 400 | 400 | 400 | 400 |\n"));
    assert!(md.contains("| ≥0.90 | pvq ("));
}
