//! Rates, shapes and codewords of the codecs.

use ultravec::bignat::BigNat;
use ultravec::codecs::{
    baseline_record_bytes, block_estimator, block_length, block_shape, centered_book, code_bits,
    has_published_table, is_switched_on, level_count, nearest_centroid, packed_bytes, pq_label,
    pq_shape, reseed, residual_base_bits, residual_record_bytes, scalar_record_bytes,
    seeds_by_distance, sketch_coordinates, starved, stride_seeds, training_stride, weighted_pick,
    Est, PqFault,
};
use ultravec::dehub::{
    candidates, check_budget, dehub_bytes, dehub_bytes_with_config, fixed_rank, head_levels,
    select_config, selection_split, DehubConfig, DehubSettings,
};
use ultravec::dist::{Gaussian, StudentT};
use ultravec::pvq::{choose_block, choose_k, encode_block, pvq_count, record_size, sparse};
use ultravec::rotation::nearest_index;

fn settings() -> DehubSettings<'static> {
    DehubSettings {
        rank: None,
        max_rank: None,
        iterations: None,
        head_bits: None,
        complement: None,
    }
}

#[test]
fn codebook_sized_correctly() {
    let p = block_length(128, 2, None);
    let s = block_shape(128, 2, p);
    assert_eq!(s.p, 4);
    assert_eq!(s.m, 32);
    assert_eq!(s.n_code, 256);
}

#[test]
fn budget_below_minimum_is_rejected() {
    let d = 64;
    let minimum = dehub_bytes(d, 0, 1, &settings());
    let config = DehubConfig::default();
    assert_eq!(check_budget(d, minimum - 1, &config), Err(minimum));
    assert_eq!(check_budget(d, minimum, &config), Ok(()));
}

#[test]
fn accepted_budget_is_never_exceeded() {
    let d = 64;
    let budget = dehub_bytes(d, 0, 2, &settings());
    let config = DehubConfig::default();
    let (r, b) = select_config(d, budget, 32, 32, &config, &|r: usize, b: u8| {
        (r as u64) * 7 + b as u64
    });
    assert!(dehub_bytes_with_config(d, r, b, &config) <= budget);
    for c in candidates(d, budget, 32, &config) {
        assert!(c.bytes <= budget);
        assert_eq!(c.bytes, dehub_bytes_with_config(d, c.rank, c.bits, &config));
    }
}

#[test]
fn explicit_config_controls_byte_accounting_without_environment_state() {
    let full = DehubConfig {
        head_bits: 8,
        complement: false,
        ..DehubConfig::default()
    };
    let compact = DehubConfig {
        head_bits: 4,
        complement: true,
        ..DehubConfig::default()
    };
    assert_eq!(dehub_bytes_with_config(128, 32, 2, &full), 66);
    assert_eq!(dehub_bytes_with_config(128, 32, 2, &compact), 50);
}

#[test]
fn invalid_explicit_config_is_rejected() {
    let config = DehubConfig {
        head_bits: 0,
        ..DehubConfig::default()
    };
    assert!(config.validate().is_err());
}

#[test]
fn an_invalid_config_says_what_is_wrong() {
    let no_iterations = DehubConfig {
        pca_iterations: 0,
        ..DehubConfig::default()
    };
    assert!(no_iterations.validate().is_err());
    let wide = DehubConfig {
        head_bits: 17,
        ..DehubConfig::default()
    };
    assert!(wide.validate().is_err());
    assert!(DehubConfig::default().validate().is_ok());
}

#[test]
fn settings_override_the_defaults() {
    let c = DehubConfig::from_env(&DehubSettings {
        rank: Some("4"),
        max_rank: Some("x"),
        iterations: None,
        head_bits: Some("300"),
        complement: Some("1"),
    });
    assert_eq!((c.rank, c.max_rank, c.pca_iterations), (4, 128, 24));
    assert_eq!((c.head_bits, c.complement, c.seed), (255, true, 0xA5E5));
}

#[test]
fn a_head_has_all_its_levels() {
    assert_eq!(head_levels(1), 1);
    assert_eq!(head_levels(8), 255);
    assert_eq!(head_levels(16), 65535);
    assert_eq!(fixed_rank(64, 8), 8);
    assert_eq!(selection_split(50), (10, 1));
    assert_eq!(selection_split(10_500), (500, 4));
}

#[test]
fn subquantizer_width_defaults_to_the_conventional_256_centroids() {
    assert_eq!(code_bits(None), 8, "8 bits per subquantizer = 256 centroids");
    assert_eq!(1usize << code_bits(None), 256);
}

#[test]
fn label_matches_the_encoded_rate() {
    for bits in [1u8, 2, 4, 8] {
        let dim = 64;
        let shape = pq_shape(dim, bits, code_bits(None)).unwrap();
        assert_eq!(
            pq_label(bits),
            format!("pq_mse_{bits}bit"),
            "label must state the rate actually encoded"
        );
        assert_eq!(8 / (8 / bits as usize), bits as usize, "rate must be exact");
        assert_eq!(shape.n_sub * 8, dim * bits as usize);
    }
}

#[test]
fn rejects_a_rate_it_would_have_to_mislabel() {
    assert_eq!(pq_shape(64, 3, 8).err(), Some(PqFault::RateDoesNotDivide));
}

#[test]
fn a_shape_that_does_not_divide_is_refused() {
    assert_eq!(pq_shape(64, 4, 6).err(), Some(PqFault::WidthNotMultiple));
    assert_eq!(pq_shape(63, 2, 8).err(), Some(PqFault::DimNotMultiple));
}

#[test]
fn code_width_comes_from_its_setting() {
    assert_eq!(code_bits(Some("4")), 4);
    assert_eq!(code_bits(Some("many")), 8);
}

#[test]
fn pvq_count_recurrence() {
    assert_eq!(pvq_count(2, 1).to_u32(), Some(4));
    assert_eq!(pvq_count(2, 2).to_u32(), Some(8));
}

#[test]
fn pulse_counts_have_their_known_sizes() {
    assert_eq!(pvq_count(3, 0).to_u32(), Some(1));
    assert_eq!(pvq_count(3, 2).to_u32(), Some(18));
    assert_eq!(pvq_count(0, 2).to_u32(), Some(0));
    assert_eq!(pvq_count(64, 64).to_u32(), None);
}

#[test]
fn encode_block_sums_to_k() {
    let x: Vec<i64> = [0.5f32, -0.3, 0.1, 0.8, -0.2, 0.0, 0.4, -0.6]
        .iter()
        .map(|&v| (v as f64 * (1u64 << 26) as f64).round() as i64)
        .collect();
    for k in [4usize, 9, 16] {
        let p = encode_block(&x, k);
        let s: i32 = p.iter().map(|v| v.abs()).sum();
        assert_eq!(s, k as i32, "block pulses must sum to k");
    }
}

#[test]
fn pulses_point_along_the_block() {
    assert_eq!(encode_block(&vec![3, 0, -1], 4), vec![3, 0, -1]);
    assert_eq!(encode_block(&vec![0, 0], 2), vec![0, 0]);
    assert_eq!(sparse(&vec![0, -2, 0, 1]), (vec![1, 3], vec![-2, 1]));
}

#[test]
fn pulses_reach_the_rate() {
    let b = choose_block(128, 2);
    let k = choose_k(b, 2);
    assert!(pvq_count(b, k).bits() > 2 * b as u128);
    assert!(pvq_count(b, k - 1).bits() <= 2 * b as u128);
    assert_eq!(choose_k(8, 1), 3);
    assert_eq!(record_size(1, 2, 1), 1);
}

#[test]
fn big_naturals_add_and_multiply() {
    let a = BigNat::small(u32::MAX).plus(&BigNat::small(1));
    assert_eq!(a.bits(), 33);
    assert_eq!(a.times(&a).bits(), 65);
    assert_eq!(a.times(&a).ceil_log2(), 64);
    assert_eq!(a.copy().ceil_log2(), 32);
}

#[test]
fn level_count_is_exact_across_the_accepted_bit_range() {
    for bits in 1u8..=16 {
        let levels = level_count(bits);
        assert_eq!(
            levels,
            1u32 << bits,
            "level count must be exact at {bits} bits"
        );
        assert!(levels >= 2, "a usable codebook needs at least two levels");
    }
}

#[test]
fn levels_are_centred() {
    assert_eq!(centered_book(4), vec![-3, -1, 1, 3]);
    assert_eq!(centered_book(1), vec![0]);
    assert!(has_published_table(4));
}

#[test]
fn bit_matched_to_baseline() {
    let dim = 1024;
    assert_eq!(
        residual_record_bytes(dim, 5),
        Some(1024 * 5 / 8 + 8),
        "residual must be bit-matched to 5-bit baseline"
    );
}

#[test]
fn bit_matched_at_every_supported_budget() {
    for eff_bits in 2u8..=8 {
        let dim = 1024;
        assert_eq!(
            residual_record_bytes(dim, eff_bits),
            Some(dim * eff_bits as usize / 8 + 8),
            "residual must be bit-matched at eff_bits={eff_bits}"
        );
        assert_eq!(residual_record_bytes(dim, eff_bits), Some(baseline_record_bytes(dim, eff_bits)));
    }
}

#[test]
fn rejects_a_budget_too_small_to_honour() {
    assert_eq!(residual_record_bytes(128, 1), None);
    assert_eq!(residual_base_bits(1), None);
    assert_eq!(residual_base_bits(2), Some(1));
}

#[test]
fn records_have_their_sizes() {
    assert_eq!(packed_bytes(10, 3), 4);
    assert_eq!(scalar_record_bytes(64, 2, 0), 16 + 4);
    assert_eq!(scalar_record_bytes(64, 2, 256), 16 + 4 + 5);
}

#[test]
fn the_nearest_entry_of_a_codebook_is_found() {
    let book = vec![-3i64, -1, 1, 3];
    assert_eq!(nearest_index(-10, &book), 0);
    assert_eq!(nearest_index(10, &book), 3);
    assert_eq!(nearest_index(0, &book), 1);
    assert_eq!(nearest_index(2, &book), 2);
    assert_eq!(nearest_centroid(&vec![5, 2, 2, 9]), 1);
}

#[test]
fn clusters_start_apart() {
    let s = stride_seeds(10, 4);
    assert_eq!(s.len(), 4);
    let mut d = s.clone();
    d.sort();
    d.dedup();
    assert_eq!(d.len(), 4);
    assert!(seeds_by_distance(10, 4));
    assert!(!seeds_by_distance(2_000_000_000, 2_000_000_000));
    assert_eq!(weighted_pick(&vec![1, 0, 3], 0), 0);
    assert_eq!(weighted_pick(&vec![1, 0, 3], 2), 2);
}

#[test]
fn starved_clusters_move_to_the_farthest_points() {
    assert_eq!(starved(&vec![3, 0, 2, 0]), vec![1, 3]);
    assert_eq!(reseed(&vec![3, 0, 2, 0], &vec![5, 9, 1, 7, 2]), vec![(1, 1), (3, 3)]);
    assert!(training_stride(10) >= 1);
}

#[test]
fn switches_come_from_settings() {
    assert_eq!(block_estimator(None, None), Est::Ub);
    assert_eq!(block_estimator(None, Some("1")), Est::Bsm);
    assert_eq!(block_estimator(Some("mse"), Some("1")), Est::Mse);
    assert!(!is_switched_on(None, None));
    assert!(is_switched_on(Some("1"), None));
    let c = sketch_coordinates(32, 8, 9);
    assert_eq!(c.len(), 8);
    assert!(c.iter().all(|&i| i < 32));
}

#[test]
fn marginals_have_names() {
    assert_eq!(Gaussian.name(), "gaussian");
    assert_eq!(StudentT { nu: 4 }.name(), "student_t_nu4");
    assert_eq!(StudentT { nu: 4 }.support_base(), 50);
    assert_eq!(StudentT { nu: 9 }.support_base(), 30);
}

#[test]
fn a_block_takes_many_pulses() {
    let p = encode_block(&vec![1 << 29, -(1 << 28), 0], 100_000);
    assert_eq!(p.iter().map(|v| v.abs()).sum::<i32>(), 100_000);
    assert!(p[0] > 0 && p[1] < 0 && p[2] == 0);
    assert!((p[0] - 66_666).abs() <= 1);
}
