//! Graph and inverted-file search, ranking and recall.

use std::collections::HashSet;

use ultravec::beam::Visited;
use ultravec::graph::NswGraph;
use ultravec::hnsw::{index_bytes_of, sample_size, Hnsw, HnswCodec};
use ultravec::ivf::{
    exact_topk, list_health, list_sizes, nearest_list, per_vector, recall_at, recall_counts,
    resident_with_rerank, IvfCodec, IvfIndex,
};
use ultravec::memory::MemoryBreakdown;
use ultravec::order::{order_key32, order_key64};
use ultravec::prng::level_draws;
use ultravec::scored::{rank, select_top_k, top_hits, Hit};
use ultravec::splitmix64;

fn next_f64(state: &mut u64) -> f64 {
    (splitmix64(state) >> 11) as f64 / (1u64 << 53) as f64
}

fn norm(v: &[f32]) -> f32 {
    v.iter().map(|x| x * x).sum::<f32>().sqrt()
}

fn cosine(a: &[f32], b: &[f32]) -> f32 {
    let dot: f32 = a.iter().zip(b).map(|(x, y)| x * y).sum();
    dot / (norm(a) * norm(b))
}

fn key(x: f32) -> i64 {
    order_key32(x.to_bits())
}

fn rand_unit(n: usize, dim: usize, seed: u64) -> Vec<Vec<f32>> {
    let mut st = seed;
    (0..n)
        .map(|_| {
            let mut v: Vec<f32> = (0..dim)
                .map(|_| {
                    let u1 = next_f64(&mut st).max(1e-12);
                    let u2 = next_f64(&mut st);
                    ((-2.0 * u1.ln()).sqrt() * (2.0 * std::f64::consts::PI * u2).cos()) as f32
                })
                .collect();
            let nn = norm(&v).max(f32::EPSILON);
            v.iter_mut().for_each(|x| *x /= nn);
            v
        })
        .collect()
}

fn levels(n: usize, m: usize, seed: u64) -> Vec<u8> {
    let ml = 1.0f64 / (m as f64).ln();
    level_draws(n, seed)
        .into_iter()
        .map(|d| {
            let u = (d as f64 / (1u64 << 53) as f64).clamp(1e-12, 1.0);
            ((-(u.ln()) * ml).floor() as usize).min(31) as u8
        })
        .collect()
}

#[test]
fn hnsw_fp32_high_recall_vs_bruteforce() {
    let dim = 64;
    let db = rand_unit(2000, dim, 7);
    let sim = |a: u32, b: u32| key(cosine(&db[a as usize], &db[b as usize]));
    let h = Hnsw::build(levels(db.len(), 16, 42), &sim, dim * 4, true, 16, 100);
    let queries = rand_unit(100, dim, 99);
    let mut hit = 0usize;
    for q in &queries {
        let mut gold: Vec<(usize, f32)> = db
            .iter()
            .enumerate()
            .map(|(i, v)| (i, cosine(q, v)))
            .collect();
        gold.sort_unstable_by(|a, b| b.1.total_cmp(&a.1));
        let gset: HashSet<i64> = gold.iter().take(10).map(|&(i, _)| i as i64).collect();
        let got = h.search(&|u: u32| key(cosine(q, &db[u as usize])), 10, 64);
        hit += got.iter().filter(|(id, _)| gset.contains(id)).count();
    }
    let recall = hit as f64 / (queries.len() * 10) as f64;
    assert!(recall > 0.90, "HNSW fp32 recall@10 too low: {recall}");
}

#[test]
fn empty_hnsw_search_is_empty() {
    let h = Hnsw::build(Vec::new(), &|_: u32, _: u32| 0i64, 32, true, 8, 32);
    let mut scratch = Visited::new(0);
    assert!(h.search_with(&|_: u32| 0i64, 10, 32, &mut scratch).is_empty());
    assert_eq!(h.memory_breakdown(0, 0).total_resident_bytes(), 0);
}

#[test]
fn an_hnsw_walk_finds_the_nearest_on_a_line() {
    let at = |a: u32, b: u32| -((a as i64 - b as i64).abs());
    let h = Hnsw::build(vec![0, 0, 1, 0, 0, 2, 0, 0], &at, 4, false, 3, 16);
    assert_eq!(h.len(), 8);
    assert_eq!(h.bytes_per_vec(), 4);
    let hits = h.search(&|u: u32| -((u as i64 - 6).abs()), 3, 8);
    assert_eq!(hits[0], (6, 0));
    assert_eq!(hits.len(), 3);
    let ids: HashSet<i64> = hits.iter().map(|h| h.0).collect();
    assert_eq!(ids, HashSet::from([6, 5, 7]));
    assert!(h.search(&|_: u32| 0i64, 0, 8).is_empty());
    let memory = h.memory_breakdown(5, 7);
    assert_eq!((memory.code_bytes, memory.model_bytes, memory.cache_bytes), (32, 5, 7));
    assert!(memory.index_bytes > 0);
}

#[test]
fn codes_that_are_reconstructions_are_not_counted_twice() {
    let h = Hnsw::build(vec![0, 0], &|_: u32, _: u32| 0i64, 4, true, 2, 8);
    assert_eq!(h.memory_breakdown(0, 8).code_bytes, 0);
}

#[test]
fn graph_codecs_have_labels() {
    assert_eq!(HnswCodec::Fp32.label(), "fp32");
    assert!(HnswCodec::Fp32.codes_are_recon());
    assert!(!HnswCodec::Rabitq.codes_are_recon());
    assert_eq!(HnswCodec::TrellisCodesOnly.label(), "trellis_codes_only");
}

#[test]
fn graph_recall_beats_threshold_on_exact_vectors() {
    let dim = 32;
    let db = rand_unit(2000, dim, 1);
    let q = rand_unit(50, dim, 999);
    let mut g = NswGraph::new(16, 64);
    let sim = |a: u32, b: u32| key(cosine(&db[a as usize], &db[b as usize]));
    for _ in 0..db.len() {
        g.insert(&sim);
    }
    let mut hit = 0usize;
    let mut total = 0usize;
    for query in &q {
        let mut ex: Vec<(f32, u32)> = db
            .iter()
            .enumerate()
            .map(|(i, v)| (cosine(query, v), i as u32))
            .collect();
        ex.sort_unstable_by(|a, b| b.0.partial_cmp(&a.0).unwrap());
        let gold: HashSet<u32> = ex.iter().take(10).map(|(_, i)| *i).collect();
        let got = g.search(&|u: u32| key(cosine(query, &db[u as usize])), 10, 64);
        hit += got.iter().filter(|i| gold.contains(i)).count();
        total += 10;
    }
    let recall = hit as f64 / total as f64;
    assert!(
        recall > 0.85,
        "NSW graph recall@10 {recall} below 0.85 on exact vectors"
    );
}

#[test]
fn empty_graph_search_is_empty() {
    let g = NswGraph::new(8, 32);
    assert!(g.is_empty());
    assert!(g.search(&|_: u32| 0i64, 5, 32).is_empty());
}

#[test]
fn a_small_graph_finds_every_node() {
    let mut g = NswGraph::new(4, 8);
    let at = |a: u32, b: u32| -((a as i64 - b as i64).abs());
    for _ in 0..6 {
        g.insert(&at);
    }
    assert_eq!(g.len(), 6);
    let found = g.search(&|u: u32| -(u as i64), 3, 6);
    assert_eq!(found, vec![0, 1, 2]);
}

#[test]
fn visited_forgets_on_clear() {
    let mut v = Visited::new(3);
    assert_eq!(v.len(), 3);
    v.clear();
    assert!(!v.test_set(1));
    assert!(v.test_set(1));
    assert!(!v.test_set(2));
    v.clear();
    assert!(!v.test_set(1));
}

#[test]
fn order_keys_sort_like_the_values() {
    let values = [-2.5f32, -1.0, -0.0, 0.0, 1e-30, 3.5, f32::INFINITY];
    for w in values.windows(2) {
        assert!(key(w[0]) < key(w[1]));
        assert!(order_key64((w[0] as f64).to_bits()) < order_key64((w[1] as f64).to_bits()));
    }
    assert_eq!(key(-0.0), -1);
    assert_eq!(key(0.0), 0);
}

fn hits(v: &[(i64, i64)]) -> Vec<Hit> {
    v.iter().map(|&(id, sim)| Hit { id, sim }).collect()
}

#[test]
fn ranking_puts_the_best_first_and_breaks_ties_by_id() {
    let v = hits(&[(4, 1), (2, 9), (1, 9), (3, 5)]);
    let ids: Vec<i64> = rank(&v).iter().map(|h| h.id).collect();
    assert_eq!(ids, vec![1, 2, 3, 4]);
    assert_eq!(select_top_k(&v, 2), vec![1, 2]);
    assert_eq!(top_hits(&v, 9).len(), 4);
    let turned = hits(&[(3, 5), (1, 9), (4, 1), (2, 9)]);
    assert_eq!(select_top_k(&turned, 4), vec![1, 2, 3, 4]);
}

#[test]
fn a_full_probe_gives_the_flat_scan() {
    let sims: Vec<i64> = (0..40).map(|i| (i * 7919) % 101).collect();
    let assign: Vec<u32> = (0..40).map(|i| (i % 5) as u32).collect();
    let index = IvfIndex::build(5, &assign);
    assert_eq!(index.nlist(), 5);
    assert_eq!(index.list(2), &vec![2, 7, 12, 17, 22, 27, 32, 37]);
    let centroids = vec![3i64, 1, 4, 1, 5];
    let scan = |j: usize, k: usize| -> Vec<Hit> {
        let list: Vec<Hit> = index
            .list(j)
            .iter()
            .map(|&id| Hit { id, sim: sims[id as usize] })
            .collect();
        top_hits(&list, k)
    };
    let full: Vec<i64> = index.search(&centroids, 10, 5, &scan).iter().map(|h| h.id).collect();
    assert_eq!(full, exact_topk(&sims, 10));
    assert_eq!(index.probe(&centroids, 2), vec![4, 2]);
    let one = index.search(&centroids, 10, 1, &scan);
    assert!(one.iter().all(|h| h.id % 5 == 4));
}

#[test]
fn reranking_restores_the_exact_order() {
    let exact: Vec<i64> = (0..20).map(|i| (i * 37) % 23).collect();
    let assign: Vec<u32> = (0..20).map(|i| (i % 2) as u32).collect();
    let index = IvfIndex::build(2, &assign);
    let coarse = |j: usize, k: usize| -> Vec<Hit> {
        let list: Vec<Hit> = index
            .list(j)
            .iter()
            .map(|&id| Hit { id, sim: -id })
            .collect();
        top_hits(&list, k)
    };
    let got = index.search_with_rerank(&vec![0, 0], 3, 2, 20, &coarse, &|id: i64| {
        exact[id as usize]
    });
    let ids: Vec<i64> = got.iter().map(|h| h.id).collect();
    assert_eq!(ids, exact_topk(&exact, 3));
    let plain = index.search_with_rerank(&vec![0, 0], 3, 2, 0, &coarse, &|_: i64| 0i64);
    assert_eq!(plain.iter().map(|h| h.id).collect::<Vec<_>>(), vec![0, 1, 2]);
}

#[test]
fn recall_counts_what_was_found() {
    let gold = vec![vec![1i64, 2, 3], vec![4, 5, 6]];
    let got = vec![vec![1i64, 2, 9], vec![4, 5, 6]];
    assert_eq!(recall_counts(&gold[0], &got[0], 3), (2, 3));
    assert_eq!(recall_at(&gold, &got, 3), (5, 6));
    assert_eq!(recall_at(&gold, &got, 1), (2, 2));
}

#[test]
fn lists_are_sized_and_measured() {
    let assign = vec![0u32, 2, 2, 2, 1];
    let sizes = list_sizes(4, &assign);
    assert_eq!(sizes, vec![1, 1, 3, 0]);
    assert_eq!(list_health(&sizes), (3, 3));
    assert_eq!(nearest_list(&vec![1, 7, 7, 2]), 1);
    assert_eq!(per_vector(100, 8), 12);
    assert_eq!(per_vector(100, 0), 0);
    assert_eq!(resident_with_rerank(10, 4, 0), 10);
    assert_eq!(resident_with_rerank(10, 4, 5), 26);
}

#[test]
fn ivf_codecs_have_labels() {
    assert_eq!(IvfCodec::Baseline.label(), "turboquant_baseline");
    assert_eq!(IvfCodec::TrellisRecon.label(), "trellis_recon");
    let s = IvfCodec::TrellisShortlist { c: 256, asym: true, rnorm: true };
    assert_eq!(s.trellis_setup().unwrap().shortlist, 256);
    assert!(IvfCodec::Pvq.trellis_setup().is_none());
}

#[test]
fn an_index_adds_up_its_lists() {
    let index = IvfIndex::build(2, &vec![0, 1, 1]);
    let coarse = MemoryBreakdown { code_bytes: 0, model_bytes: 8, index_bytes: 0, cache_bytes: 0 };
    let a = MemoryBreakdown { code_bytes: 5, model_bytes: 1, index_bytes: 2, cache_bytes: 3 };
    let m = index.memory_breakdown(coarse, &vec![a, a]);
    assert_eq!((m.code_bytes, m.cache_bytes), (10, 6));
    assert_eq!(m.model_bytes, 10);
    assert_eq!(index.mem_bytes(&vec![5, 6]), 11);
}

#[test]
fn equal_inputs_give_equal_graphs_and_answers() {
    let db = rand_unit(200, 8, 3);
    let sim = |a: u32, b: u32| key(cosine(&db[a as usize], &db[b as usize]));
    let one = Hnsw::build(levels(200, 4, 42), &sim, 4, false, 4, 20);
    let two = Hnsw::build(levels(200, 4, 42), &sim, 4, false, 4, 20);
    let (mut g, mut h) = (NswGraph::new(4, 20), NswGraph::new(4, 20));
    for _ in 0..200 {
        g.insert(&sim);
        h.insert(&sim);
    }
    for q in &rand_unit(20, 8, 5) {
        let score = |u: u32| key(cosine(q, &db[u as usize]));
        assert_eq!(one.search(&score, 10, 16), two.search(&score, 10, 16));
        assert_eq!(g.search(&score, 10, 16), h.search(&score, 10, 16));
    }
}

#[test]
fn a_wide_beam_over_a_connected_graph_is_exhaustive() {
    let at = |a: u32, b: u32| -((a as i64 - b as i64).abs());
    let mut g = NswGraph::new(8, 64);
    for _ in 0..40 {
        g.insert(&at);
    }
    let found = g.search(&|u: u32| -((u as i64 - 17).abs()), 5, 64);
    assert_eq!(found[0], 17);
    let near: HashSet<u32> = found.into_iter().collect();
    assert_eq!(near, HashSet::from([15, 16, 17, 18, 19]));
}

#[test]
fn a_fresh_buffer_has_visited_nothing() {
    let mut v = Visited::new(3);
    assert!(!v.test_set(1));
    assert!(v.test_set(1));
    assert!(!v.test_set(0));
}

#[test]
fn used_scratch_space_changes_no_answer() {
    let at = |a: u32, b: u32| -((a as i64 - b as i64).abs());
    let h = Hnsw::build(vec![0, 1, 0, 0, 2, 0, 0, 1], &at, 4, false, 3, 16);
    let mut scratch = Visited::new(h.len());
    for q in [6i64, 0, 3, 6] {
        let score = |u: u32| -((u as i64 - q).abs());
        let fresh = h.search(&score, 3, 8);
        assert_eq!(h.search_with(&score, 3, 8, &mut scratch), fresh);
        scratch.test_set(2);
    }
}

#[test]
fn an_index_is_charged_for_the_room_it_has() {
    let list = std::mem::size_of::<Vec<u32>>();
    let node = std::mem::size_of::<Vec<Vec<u32>>>();
    let rooms = vec![(1usize, vec![5usize, 0]), (2, vec![])];
    assert_eq!(index_bytes_of(2, 3, &rooms), 2 * node + (list + 20) + 2 * list + 3);
    assert_eq!(index_bytes_of(0, 0, &vec![]), 0);
    assert_eq!(index_bytes_of(usize::MAX, 0, &rooms), usize::MAX);
}

#[test]
fn a_codec_is_measured_on_a_sample() {
    assert_eq!((sample_size(10), sample_size(4096), sample_size(9000)), (10, 4096, 4096));
    assert_eq!(HnswCodec::Fp32.bytes_per_vec(64, 7, 3), 256);
    assert_eq!(HnswCodec::Rabitq.bytes_per_vec(64, 61, 3), 20);
    assert_eq!(HnswCodec::Baseline.bytes_per_vec(64, 0, 0), 0);
}

#[test]
fn depth_zero_does_not_rerank() {
    let index = IvfIndex::build(2, &vec![0, 1, 0, 1]);
    let near = |j: usize, k: usize| -> Vec<Hit> {
        let all = if j == 0 { vec![(0, 9), (2, 7)] } else { vec![(1, 8), (3, 1)] };
        all.into_iter().take(k).map(|(id, sim)| Hit { id, sim }).collect()
    };
    let exact = |id: i64| id;
    let ids = |v: Vec<Hit>| -> Vec<i64> { v.iter().map(|h| h.id).collect() };
    let sims = vec![5, 4];
    assert_eq!(ids(index.search_at_depth(&sims, 2, 2, 0, &near, &exact)), vec![0, 1]);
    assert_eq!(ids(index.search_at_depth(&sims, 2, 2, 4, &near, &exact)), vec![3, 2]);
    assert_eq!(
        ids(index.search_with_rerank(&sims, 2, 2, 4, &near, &exact)),
        vec![3, 2]
    );
}
