//! The codec comparison: its variants, its recall and its bootstrap.

use ultravec::bench::{
    append_paired_r10, bootstrap_seed, calibration_label, centering, cold_start_note, first_live,
    gains_three_points, live_set, paired_bootstrap_r10, recall_deltas, recall_per_query, shortlist_label,
    shortlist_sweep, stable_label_seed, stream_codecs, total_units, units_of, variants, Centering,
    CodecRecall, Outcome, RecallDelta, StreamCodec, Variant, VariantSet,
};

#[test]
fn recall_metric_basic() {
    let gold = vec![vec![1i64, 2, 3], vec![4, 5, 6]];
    let got = vec![vec![1i64, 2, 9], vec![4, 5, 6]];
    let per_query = recall_per_query(&gold, &got);
    let at_one: f64 = per_query
        .iter()
        .map(|r| r.hits.0 as f64 / r.gold.0 as f64)
        .sum::<f64>()
        / per_query.len() as f64;
    assert!((at_one - 1.0).abs() < 1e-9);
    assert!((per_query[0].hits.1 as f64 / per_query[0].gold.1 as f64 - 2.0 / 3.0).abs() < 1e-9);
    assert!((per_query[1].hits.1 as f64 / per_query[1].gold.1 as f64 - 1.0).abs() < 1e-9);
}

#[test]
fn paired_bootstrap_is_deterministic_and_preserves_fixed_difference() {
    let eight_tenths = 2520 * 8 / 10;
    let seven_tenths = 2520 * 7 / 10;
    let diffs: Vec<i32> = vec![eight_tenths - seven_tenths; 20];
    let first = paired_bootstrap_r10(&diffs, 42);
    let second = paired_bootstrap_r10(&diffs, 42);
    assert_eq!(first, second);
    let points = |total: i64| total as f64 / 20.0 / 2520.0 * 100.0;
    assert!((points(first.0) - 10.0).abs() < 1e-9);
    assert!((points(first.1) - 10.0).abs() < 1e-9);
    assert!((points(first.2) - 10.0).abs() < 1e-9);
}

#[test]
fn recall_is_exact_in_its_units() {
    let rows = recall_per_query(&vec![vec![1, 2, 3]], &vec![vec![1, 2, 9]]);
    assert_eq!(units_of(&rows[0]), 1680);
    assert_eq!(total_units(&rows), 1680);
    let full = recall_per_query(&vec![vec![1, 2, 3]], &vec![vec![3, 2, 1]]);
    assert_eq!(units_of(&full[0]), 2520);
}

#[test]
fn an_interval_brackets_its_mean() {
    let diffs: Vec<i32> = (0..40).map(|i| if i % 3 == 0 { 252 } else { -126 }).collect();
    let (mean, low, high) = paired_bootstrap_r10(&diffs, 7);
    assert_eq!(mean, diffs.iter().map(|&d| d as i64).sum::<i64>());
    assert!(low <= mean && mean <= high);
    assert!(low < high);
}

#[test]
fn labels_seed_the_bootstrap() {
    assert_eq!(stable_label_seed(""), 0xcbf2_9ce4_8422_2325);
    assert_eq!(stable_label_seed("a"), 0xaf63_dc4c_8601_ec8c);
    assert_eq!(
        bootstrap_seed(42, 2, "a"),
        42 ^ (2u64 << 56) ^ 0xaf63_dc4c_8601_ec8c
    );
}

#[test]
fn comparisons_are_paired_with_the_trellis() {
    let good = recall_per_query(&vec![vec![1, 2]; 5], &vec![vec![1, 2]; 5]);
    let bad = recall_per_query(&vec![vec![1, 2]; 5], &vec![vec![1, 9]; 5]);
    let rows = vec![
        CodecRecall { quantizer: "turboquant_baseline".to_string(), per_query: bad },
        CodecRecall { quantizer: "trellis".to_string(), per_query: good },
    ];
    let out = append_paired_r10(&rows, 2, 42);
    assert_eq!(out.len(), 1);
    assert_eq!(out[0].comparator, 0);
    assert_eq!(out[0].outcome(), Outcome::Lead);
    assert_eq!((out[0].delta, out[0].ci_low, out[0].ci_high), (5 * 1260, 5 * 1260, 5 * 1260));
    assert!(append_paired_r10(&vec![], 2, 42).is_empty());
    let (deltas, gain) = recall_deltas(&rows);
    assert_eq!(deltas, vec![RecallDelta { row: 1, gain: 5 * 1260 }]);
    assert!(gain);
}

#[test]
fn three_points_are_counted_exactly() {
    assert!(gains_three_points(2520 * 53, 2520 * 50, 100));
    assert!(!gains_three_points(2520 * 53 - 1, 2520 * 50, 100));
}

#[test]
fn the_reference_comes_first() {
    for set in [
        VariantSet::Full,
        VariantSet::Lean,
        VariantSet::Pq,
        VariantSet::Aniso,
        VariantSet::Sota,
        VariantSet::Sota3,
    ] {
        let v = variants(64, 2, set, false, false);
        assert_eq!(v[0], Variant::Baseline);
    }
    let with = variants(64, 2, VariantSet::Sota3, false, true);
    assert!(with.contains(&Variant::CosetTrellis));
    assert!(with.contains(&Variant::E8));
    assert!(!variants(60, 2, VariantSet::Sota3, false, true).contains(&Variant::CosetTrellis));
}

#[test]
fn centering_comes_from_its_settings() {
    assert_eq!(centering(0, false), Centering::Off);
    assert_eq!(centering(0, true), Centering::Mean);
    assert_eq!(centering(8, true), Centering::Lists { nlist: 8 });
}

#[test]
fn a_window_evicts_the_oldest_clusters() {
    assert_eq!(first_live(5, None), 0);
    assert_eq!(first_live(5, Some(2)), 4);
    assert_eq!(first_live(1, Some(9)), 0);
    let groups = vec![vec![1i64, 4], vec![0], vec![2, 3]];
    assert_eq!(live_set(&groups, 2, None), vec![1, 4, 0, 2, 3]);
    assert_eq!(live_set(&groups, 2, Some(2)), vec![0, 2, 3]);
}

#[test]
fn only_retrained_codebooks_are_refitted() {
    assert_eq!(StreamCodec::RebuildPq.refit_touched(100), 100);
    assert_eq!(StreamCodec::FrozenPq.refit_touched(100), 0);
    assert_eq!(StreamCodec::Trellis.refit_touched(100), 0);
    assert!(StreamCodec::FrozenPq.trains_on_first());
    assert_eq!(StreamCodec::FrozenPq.label(), "frozen_pq");
    assert!(stream_codecs(64, true).contains(&StreamCodec::Exact));
}

#[test]
fn sweeps_are_labelled() {
    assert_eq!(calibration_label(0), "full");
    assert_eq!(calibration_label(64), "64");
    assert!(cold_start_note(64, true).starts_with("K<256"));
    assert_eq!(cold_start_note(256, true), "PQ ahead (warm)");
    assert_eq!(cold_start_note(0, false), "oblivious ahead (cold)");
    assert_eq!(shortlist_sweep(&vec![2000, 50, 50], 1000), vec![50, 1000, 2000]);
    assert!(!shortlist_label(50, 1000).is_empty());
}

#[test]
fn only_the_reference_stores_norms() {
    assert!(Variant::Baseline.stores_norm());
    assert!(!Variant::Residual.stores_norm());
    assert!(!Variant::Rabitq.stores_norm());
    assert!(!Variant::E8.stores_norm());
}
