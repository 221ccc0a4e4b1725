//! The lattice codec and the trellis over its cosets.

use ultravec::coset_trellis::{coset_of, CosetTrellis, N_COSETS};
use ultravec::e8::{
    distance, e8_nearest, enumerate_e8_ball, enumerate_e8_raw, index_in_book, lowest_points,
    narrowed, nearest_exhaustive, E8Quantizer, UNIT,
};
use ultravec::rotation::{rotation_seed, Rotation};
use ultravec::splitmix64;
use ultravec::viterbi::{cheapest_path, coset_for};

fn next_f64(state: &mut u64) -> f64 {
    (splitmix64(state) >> 11) as f64 / (1u64 << 53) as f64
}

fn fixed(y: &[f32]) -> [i64; 8] {
    let mut out = [0i64; 8];
    for j in 0..8 {
        out[j] = (y[j] as f64 * UNIT as f64).round() as i64;
    }
    out
}

fn was_kept(q: &E8Quantizer, y: &[i64; 8]) -> bool {
    narrowed(&e8_nearest(y)).is_some_and(|p| q.index_of_raw(&p).is_some())
}

fn halves(p: &[i64; 8]) -> [f32; 8] {
    let mut out = [0.0f32; 8];
    for j in 0..8 {
        out[j] = p[j] as f32 / 2.0;
    }
    out
}

fn spread(points: &[[i16; 8]]) -> (f64, f64) {
    let (mut sum, mut sumsq, mut cnt) = (0.0f64, 0.0f64, 0.0f64);
    for p in points {
        for &r in p {
            let x = r as f64 / 2.0;
            sum += x;
            sumsq += x * x;
            cnt += 1.0;
        }
    }
    let mean = sum / cnt;
    (mean, ((sumsq / cnt) - mean * mean).max(1e-12).sqrt())
}

fn book_of(q: &E8Quantizer) -> Vec<[i16; 8]> {
    (0..q.n_code()).map(|i| q.point(i)).collect()
}

fn is_e8(p: &[f32; 8]) -> bool {
    let all_int = p.iter().all(|&x| (x - x.round()).abs() < 1e-4);
    let all_half = p
        .iter()
        .all(|&x| ((x - 0.5) - (x - 0.5).round()).abs() < 1e-4);
    if !(all_int || all_half) {
        return false;
    }
    let sum: f32 = p.iter().sum();
    (sum - sum.round()).abs() < 1e-3 && (sum.round() as i64).rem_euclid(2) == 0
}

fn fwht(buf: &mut [f32]) {
    let n = buf.len();
    let mut h = 1;
    while h < n {
        let mut i = 0;
        while i < n {
            for j in i..i + h {
                let (u, v) = (buf[j], buf[j + h]);
                buf[j] = u + v;
                buf[j + h] = u - v;
            }
            i += 2 * h;
        }
        h *= 2;
    }
    let inv = 1.0 / (n as f32).sqrt();
    for x in buf.iter_mut() {
        *x *= inv;
    }
}

fn sign(plus: bool) -> f32 {
    if plus {
        1.0
    } else {
        -1.0
    }
}

fn rotate(rot: &Rotation, x: &[f32]) -> Vec<f32> {
    let mut out = x.to_vec();
    for signs in rot.sign_rounds() {
        for &(start, size) in rot.block_list() {
            for i in start..start + size {
                out[i] *= sign(signs[i]);
            }
            fwht(&mut out[start..start + size]);
        }
    }
    out
}

fn rotate_back(rot: &Rotation, y: &[f32]) -> Vec<f32> {
    let mut out = y.to_vec();
    for signs in rot.sign_rounds().iter().rev() {
        for &(start, size) in rot.block_list() {
            fwht(&mut out[start..start + size]);
            for i in start..start + size {
                out[i] *= sign(signs[i]);
            }
        }
    }
    out
}

fn norm(v: &[f32]) -> f32 {
    v.iter().map(|x| x * x).sum::<f32>().sqrt()
}

fn std_about_mean(x: &[f32]) -> f32 {
    let n = x.len() as f32;
    let mean = x.iter().sum::<f32>() / n;
    (x.iter().map(|v| (v - mean) * (v - mean)).sum::<f32>() / n).sqrt()
}

fn blocks_of(u_r: &[f32], mean: f64, std: f64) -> Vec<[i64; 8]> {
    let scale = std_about_mean(u_r).max(f32::EPSILON);
    u_r.chunks(8)
        .map(|c| {
            let y: Vec<f32> = c
                .iter()
                .map(|x| (x / scale) * std as f32 + mean as f32)
                .collect();
            fixed(&y)
        })
        .collect()
}

fn unit_of(points: &[[i16; 8]], mean: f64, std: f64, rot: &Rotation) -> Vec<f32> {
    let mut xbar = Vec::new();
    for p in points {
        for &r in p {
            xbar.push((r as f32 / 2.0 - mean as f32) / std as f32);
        }
    }
    let inv = rotate_back(rot, &xbar);
    let n = norm(&inv).max(f32::EPSILON);
    inv.iter().map(|v| v / n).collect()
}

fn lcg(state: &mut u64) -> u64 {
    *state = state
        .wrapping_mul(6364136223846793005)
        .wrapping_add(1442695040888963407);
    *state
}

#[test]
fn the_partition_is_eight_balanced_cosets() {
    let raw = enumerate_e8_raw(80);
    let z: Vec<&[i16; 8]> = raw.iter().filter(|p| coset_of(p) == 0).collect();
    let mut state = 0x9E37_79B9u64;
    for _ in 0..2000 {
        let a = &raw[(lcg(&mut state) >> 33) as usize % raw.len()];
        let b = z[(lcg(&mut state) >> 33) as usize % z.len()];
        let mut s = [0i16; 8];
        for j in 0..8 {
            s[j] = a[j] + b[j];
        }
        assert_eq!(
            coset_of(&s),
            coset_of(a),
            "coset not closed under the sublattice"
        );
    }
    let mut counts = [0usize; N_COSETS];
    for p in &raw {
        counts[coset_of(p)] += 1;
    }
    let (lo, hi) = (*counts.iter().min().unwrap(), *counts.iter().max().unwrap());
    assert!(
        lo as f64 / hi as f64 > 0.85,
        "cosets unbalanced on the shell: {counts:?}"
    );
}

#[test]
fn nearest_in_coset_matches_the_exhaustive_scan() {
    for bits in [1u8, 2] {
        let q = CosetTrellis::new(8, bits, None);
        let mut all = Vec::new();
        for c in 0..N_COSETS {
            all.extend_from_slice(q.book(c));
        }
        let (mean, std) = spread(&all);
        let mut state = 0x1234_5678_9ABC_DEF0u64;
        let mut checked = 0usize;
        for _ in 0..500 {
            let mut y = [0.0f32; 8];
            for j in 0..8 {
                let u = ((lcg(&mut state) >> 11) as f32 / (1u64 << 53) as f32).max(1e-9);
                let v = (lcg(&mut state) >> 11) as f32 / (1u64 << 53) as f32;
                let g = (-2.0f32 * u.ln()).sqrt() * (std::f32::consts::TAU * v).cos();
                y[j] = g * std as f32 + mean as f32;
            }
            let y = fixed(&y);
            for c in 0..N_COSETS {
                let (fi, fd) = q.nearest_in_coset(c, &y);
                let (si, sd) = q.nearest_in_coset_exhaustive(c, &y);
                if fi != si {
                    assert_eq!(fd, sd, "{bits}-bit coset {c}");
                }
                checked += 1;
            }
        }
        assert!(checked >= 4000);
    }
}

#[test]
fn a_record_decodes_to_the_path_the_encoder_chose() {
    let dim = 64;
    let q = CosetTrellis::new(dim, 2, None);
    let mut all = Vec::new();
    for c in 0..N_COSETS {
        all.extend_from_slice(q.book(c));
    }
    let (mean, std) = spread(&all);
    let rot = Rotation::with_rounds(dim, rotation_seed(None), 3);
    let v: Vec<f32> = (0..dim)
        .map(|j| ((j * 37) % 101) as f32 / 101.0 - 0.5)
        .collect();
    let vn = norm(&v);
    let unit: Vec<f32> = v.iter().map(|x| x / vn).collect();
    let rec = q.encode(&blocks_of(&rotate(&rot, &unit), mean, std));
    let out = unit_of(&q.decode(&rec), mean, std, &rot);
    let n = norm(&out);
    assert!((n - 1.0).abs() < 1e-4, "reconstruction not unit: {n}");
    let cos: f32 = v.iter().zip(&out).map(|(a, b)| a * b).sum::<f32>() / vn;
    assert!(
        cos > 0.5,
        "reconstruction does not correlate with the input: {cos}"
    );
}

#[test]
fn the_local_enumeration_fallback_is_exact() {
    let q = E8Quantizer::new(8, 2);
    let (sum, sumsq) = q.coordinate_sums();
    let cnt = (q.n_code() * 8) as f64;
    let mean = sum as f64 / 2.0 / cnt;
    let std = (sumsq as f64 / 4.0 / cnt - mean * mean).max(1e-12).sqrt();
    let (scale_mean, scale_std) = (mean as f32, std as f32);
    let book = book_of(&q);
    let mut state = 0x0BAD_C0FF_EE0D_DF00u64;
    let (mut forced, mut checked) = (0usize, 0usize);
    for _ in 0..300 {
        let scale = 1.0 + 2.5 * ((state >> 33) as f32 / (1u64 << 31) as f32);
        let blk: Vec<f32> = (0..8)
            .map(|_| {
                let u = (splitmix64(&mut state) >> 11) as f32 / (1u64 << 53) as f32;
                let v = (splitmix64(&mut state) >> 11) as f32 / (1u64 << 53) as f32;
                let u = u.max(1e-9f32);
                scale * (-2.0f32 * u.ln()).sqrt() * (std::f32::consts::TAU * v).cos()
            })
            .collect();
        let y: Vec<f32> = blk.iter().map(|b| b * scale_std + scale_mean).collect();
        let y = fixed(&y);
        if was_kept(&q, &y) {
            continue;
        }
        forced += 1;
        let fast = q.nearest_block(&y);
        let (_, slow) = nearest_exhaustive(&book, &y);
        checked += 1;
        assert_eq!(distance(&y, &q.point(fast)), slow);
    }
    assert!(
        forced >= 30,
        "only {forced} of 300 blocks exercised the fallback; the draw is too tame \
         to test what it claims to test"
    );
    assert_eq!(forced, checked);
}

#[test]
fn the_fast_encoder_agrees_with_the_exhaustive_one() {
    let mut state = 0x1234_5678_9ABC_DEF0u64;
    for bits in [1u8, 2] {
        let q = E8Quantizer::new(8, bits);
        let book = book_of(&q);
        let (mean, std) = spread(&book);
        let mut fallbacks = 0usize;
        for _ in 0..4000 {
            let blk: Vec<f32> = (0..8)
                .map(|_| {
                    let u = (splitmix64(&mut state) >> 11) as f32 / (1u64 << 53) as f32;
                    let v = (splitmix64(&mut state) >> 11) as f32 / (1u64 << 53) as f32;
                    let u = u.max(1e-9f32);
                    (-2.0f32 * u.ln()).sqrt() * (std::f32::consts::TAU * v).cos()
                })
                .collect();
            let y: Vec<f32> = blk.iter().map(|b| b * std as f32 + mean as f32).collect();
            let y = fixed(&y);
            let fast = q.nearest_block(&y);
            let (_, slow) = nearest_exhaustive(&book, &y);
            assert_eq!(
                distance(&y, &book[fast]),
                slow,
                "fast encoder picked a strictly worse codeword at {bits} bits"
            );
            if !was_kept(&q, &y) {
                fallbacks += 1;
            }
        }
        assert!(
            fallbacks < 4000 / 2,
            "{bits} bits: {fallbacks}/4000 blocks fell back to the full scan"
        );
    }
}

#[test]
fn e8_decoder_returns_valid_lattice_points() {
    let mut st = 7u64;
    for _ in 0..2000 {
        let y: Vec<f32> = (0..8)
            .map(|_| (next_f64(&mut st) as f32 - 0.5) * 8.0)
            .collect();
        let p = halves(&e8_nearest(&fixed(&y)));
        assert!(is_e8(&p), "decoded point not in E8: {p:?} from {y:?}");
    }
}

#[test]
fn e8_lattice_points_decode_to_themselves() {
    for p in [
        [0.0, 0.0, 0.0, 0.0, 0.0, 0.0, 0.0, 0.0],
        [1.0, 1.0, 0.0, 0.0, 0.0, 0.0, 0.0, 0.0],
        [-1.0, 0.0, 1.0, 0.0, 0.0, 0.0, 0.0, 0.0],
        [0.5, 0.5, 0.5, 0.5, 0.5, 0.5, 0.5, 0.5],
        [0.5, 0.5, 0.5, -0.5, 0.5, 0.5, -0.5, 0.5],
    ] {
        assert!(is_e8(&p), "test point not E8: {p:?}");
        let d = halves(&e8_nearest(&fixed(&p)));
        let dist: f32 = p.iter().zip(&d).map(|(a, b)| (a - b) * (a - b)).sum();
        assert!(
            dist < 1e-6,
            "E8 point did not decode to itself: {p:?} -> {d:?}"
        );
    }
}

#[test]
fn e8_decoder_beats_rounding_in_mse() {
    let mut st = 99u64;
    let (mut e8_mse, mut z8_mse) = (0.0f64, 0.0f64);
    let n = 20000;
    for _ in 0..n {
        let y: Vec<f32> = (0..8)
            .map(|_| (next_f64(&mut st) as f32 - 0.5) * 6.0)
            .collect();
        let e = halves(&e8_nearest(&fixed(&y)));
        for k in 0..8 {
            let de = (y[k] - e[k]) as f64;
            e8_mse += de * de;
            let dz = (y[k] - y[k].round()) as f64;
            z8_mse += dz * dz;
        }
    }
    assert!(e8_mse < z8_mse, "E8 MSE {e8_mse} should beat Z^8 {z8_mse}");
}

#[test]
fn codebook_is_valid_and_sized() {
    let q = E8Quantizer::new(64, 1);
    assert_eq!(q.n_code(), 256);
    let points = book_of(&q);
    let (mean, std) = spread(&points);
    let mut book = Vec::new();
    for p in &points {
        for &r in p {
            book.push(((r as f64 / 2.0 - mean) / std) as f32);
        }
    }
    assert_eq!(book.len(), 256 * 8);
    let m: f64 = book.iter().map(|&x| x as f64).sum::<f64>() / book.len() as f64;
    let v: f64 = book
        .iter()
        .map(|&x| (x as f64 - m) * (x as f64 - m))
        .sum::<f64>()
        / book.len() as f64;
    assert!(m.abs() < 1e-3, "codebook mean {m} not ~0");
    assert!((v - 1.0).abs() < 1e-3, "codebook var {v} not ~1");
}

#[test]
fn e8_reconstruction_correlates_with_truth() {
    let mut st = 13u64;
    let dim = 64;
    let q = E8Quantizer::new(dim, 2);
    let (mean, std) = spread(&book_of(&q));
    let rot = Rotation::with_rounds(dim, rotation_seed(None), 3);
    let mut sg = 0.0f64;
    let n = 200;
    for _ in 0..n {
        let mut o: Vec<f32> = (0..dim).map(|_| next_f64(&mut st) as f32 - 0.5).collect();
        let nn = norm(&o).max(f32::EPSILON);
        o.iter_mut().for_each(|x| *x /= nn);
        let codes = q.encode(&blocks_of(&rotate(&rot, &o), mean, std));
        let obar = unit_of(&q.decode(&codes), mean, std, &rot);
        let g: f32 = o.iter().zip(&obar).map(|(a, b)| a * b).sum();
        sg += g as f64;
    }
    let mean_g = sg / n as f64;
    assert!(
        mean_g > 0.8,
        "mean g {mean_g} too low for 2-bit E8 on dim-64"
    );
}

#[test]
fn rotation_blocks_are_powers_of_two() {
    let rot = Rotation::with_rounds(768, 7, 0);
    assert_eq!(rot.block_list(), &vec![(0, 512), (512, 256)]);
    assert_eq!(rot.sign_rounds().len(), 1);
    assert_eq!(Rotation::with_rounds(64, 7, 3).block_list(), &vec![(0, 64)]);
    let mut state = 7u64;
    for j in 0..768 {
        assert_eq!(rot.sign_rounds()[0][j], splitmix64(&mut state) & 1 == 1);
    }
}

#[test]
fn the_lowest_shells_have_their_known_sizes() {
    assert_eq!(enumerate_e8_raw(0).len(), 1);
    assert_eq!(enumerate_e8_raw(8).len(), 241);
    assert_eq!(enumerate_e8_raw(16).len(), 2401);
    assert_eq!(enumerate_e8_raw(-1).len(), 0);
}

#[test]
fn the_codebook_is_sorted_by_norm() {
    let book = lowest_points(256);
    assert_eq!(book[0], [0i16; 8]);
    assert_eq!(book[1], [-2, -2, 0, 0, 0, 0, 0, 0]);
    assert_eq!(book[240].iter().map(|x| x * x).sum::<i16>(), 8);
    assert_eq!(book[241].iter().map(|x| x * x).sum::<i16>(), 16);
    for (i, p) in book.iter().enumerate() {
        assert_eq!(index_in_book(&book, p), Some(i));
    }
    assert_eq!(index_in_book(&book, &[8, 8, 0, 0, 0, 0, 0, 0]), None);
}

#[test]
fn a_ball_around_a_point_holds_its_neighbours() {
    let centre = [0i64; 8];
    let two = 2 * (UNIT as i128) * (UNIT as i128);
    let ball = enumerate_e8_ball(&centre, two);
    assert_eq!(ball.len(), 241);
    assert!(ball.iter().all(|p| distance(&centre, p) <= two));
}

#[test]
fn a_lattice_record_decodes_to_nearest_codewords() {
    let q = E8Quantizer::new(16, 1);
    let a = fixed(&[0.9, 1.1, 0.0, 0.1, 0.0, 0.0, -0.1, 0.0]);
    let b = fixed(&[0.4, 0.6, 0.5, 0.5, 0.5, 0.5, 0.5, 0.5]);
    let codes = q.encode(&vec![a, b]);
    assert_eq!(codes.len(), 2);
    assert_eq!(
        q.decode(&codes),
        vec![[2, 2, 0, 0, 0, 0, 0, 0], [1, 1, 1, 1, 1, 1, 1, 1]]
    );
}

#[test]
fn a_state_names_four_cosets_by_its_parity() {
    assert_eq!((0..4).map(|b| coset_for(0, b)).collect::<Vec<_>>(), vec![0, 1, 2, 3]);
    assert_eq!((0..4).map(|b| coset_for(1, b)).collect::<Vec<_>>(), vec![4, 5, 6, 7]);
    assert_eq!(coset_for(2, 3), 7);
    assert_eq!(coset_for(3, 3), 3);
}

#[test]
fn the_cheapest_path_takes_the_cheapest_reachable_cosets() {
    let mut row = [10i128; 8];
    row[5] = 1;
    let (start, branches) = cheapest_path(&vec![row], 4);
    assert_eq!(branches, vec![1]);
    assert_eq!(coset_for(start, 1), 5);
    let (_, none) = cheapest_path(&vec![], 4);
    assert!(none.is_empty());
}

#[test]
fn any_state_bit_moves_to_the_other_half() {
    for state in [0usize, 1, 6, 0b1011_0010] {
        for j in 0..12 {
            for b in 0..4 {
                assert_eq!(coset_for(state ^ (1 << j), b), coset_for(state, b) ^ 4);
            }
        }
    }
}

#[test]
fn far_vectors_decode_exactly() {
    let mut y = [0i64; 8];
    y[0] = 40_000 * UNIT + 3;
    let p = e8_nearest(&y);
    assert_eq!(p, [80_000, 0, 0, 0, 0, 0, 0, 0]);
    assert_eq!(narrowed(&p), None);
    assert_eq!(narrowed(&[2, 2, 0, 0, 0, 0, 0, -4]), Some([2, 2, 0, 0, 0, 0, 0, -4]));
    y[0] = i64::MAX;
    y[1] = i64::MIN;
    let p = e8_nearest(&y);
    assert_eq!((p[0], p[1]), (1 << 38, -(1 << 38)));
}

#[test]
fn far_vectors_have_a_nearest_codeword() {
    let q = E8Quantizer::new(8, 1);
    let t = CosetTrellis::new(8, 1, None);
    let mut y = [0i64; 8];
    for (j, slot) in y.iter_mut().enumerate() {
        *slot = (5000 + 20_000 * j as i64) * UNIT;
    }
    let (_, slow) = nearest_exhaustive(&book_of(&q), &y);
    assert_eq!(distance(&y, &q.point(q.nearest_block(&y))), slow);
    for c in 0..N_COSETS {
        assert_eq!(t.nearest_in_coset(c, &y).1, t.nearest_in_coset_exhaustive(c, &y).1);
    }
}

/// The squared distances of sixteen blocks, held coordinate by coordinate, from one point.
fn sixteen_distances(cols: &[[f32; 16]; 8], c: &[f32; 8]) -> [f32; 16] {
    let mut acc = [0.0f32; 16];
    for j in 0..8 {
        for b in 0..16 {
            let e = cols[j][b] - c[j];
            acc[b] += e * e;
        }
    }
    acc
}

#[test]
fn the_local_enumeration_fallback_is_exact_at_three_bits() {
    let q = E8Quantizer::new(8, 3);
    let (sum, sumsq) = q.coordinate_sums();
    let cnt = (q.n_code() * 8) as f64;
    let mean = sum as f64 / 2.0 / cnt;
    let std = (sumsq as f64 / 4.0 / cnt - mean * mean).max(1e-12).sqrt();
    let (scale_mean, scale_std) = (mean as f32, std as f32);
    let values: Vec<f32> = (-64..=64)
        .map(|r| ((f64::from(r) / 2.0 - mean) / std) as f32)
        .collect();
    let standard = |i: usize| -> [f32; 8] { q.point(i).map(|r| values[(r + 64) as usize]) };
    let mut state = 0x0BAD_C0FF_EE0D_DF00u64;
    let mut forced: Vec<(Vec<f32>, usize)> = Vec::new();
    for _ in 0..300 {
        let scale = 1.0 + 2.5 * ((state >> 33) as f32 / (1u64 << 31) as f32);
        let blk: Vec<f32> = (0..8)
            .map(|_| {
                let u = (splitmix64(&mut state) >> 11) as f32 / (1u64 << 53) as f32;
                let v = (splitmix64(&mut state) >> 11) as f32 / (1u64 << 53) as f32;
                let u = u.max(1e-9f32);
                scale * (-2.0f32 * u.ln()).sqrt() * (std::f32::consts::TAU * v).cos()
            })
            .collect();
        let y: Vec<f32> = blk.iter().map(|b| b * scale_std + scale_mean).collect();
        let y = fixed(&y);
        if was_kept(&q, &y) {
            continue;
        }
        let fast = q.nearest_block(&y);
        forced.push((blk, fast));
    }
    assert!(
        forced.len() >= 30,
        "only {} of 300 blocks exercised the fallback; the draw is too tame \
         to test what it claims to test",
        forced.len()
    );
    let mut groups = vec![[[0.0f32; 16]; 8]; forced.len().div_ceil(16)];
    for (b, (blk, _)) in forced.iter().enumerate() {
        for j in 0..8 {
            groups[b / 16][j][b % 16] = blk[j];
        }
    }
    let mut least = vec![[f32::INFINITY; 16]; groups.len()];
    for i in 0..q.n_code() {
        let c = standard(i);
        for (cols, low) in groups.iter().zip(least.iter_mut()) {
            let d = sixteen_distances(cols, &c);
            for b in 0..16 {
                low[b] = if d[b] < low[b] { d[b] } else { low[b] };
            }
        }
    }
    let mut checked = 0usize;
    for (b, (blk, fast)) in forced.iter().enumerate() {
        let c = standard(*fast);
        let d: f32 = blk.iter().zip(&c).map(|(a, b)| (a - b) * (a - b)).sum();
        let slow = least[b / 16][b % 16];
        assert!(
            (d - slow).abs() < 1e-5,
            "local enumeration returned a strictly worse codeword: fast d2={d} slow d2={slow}"
        );
        checked += 1;
    }
    assert_eq!(forced.len(), checked);
}

#[test]
fn a_record_keeps_the_decoded_points() {
    let q = E8Quantizer::new(16, 2);
    let blocks = vec![
        fixed(&[0.5, 0.0, 0.0, 0.0, 0.0, 0.0, 0.0, 0.5]),
        fixed(&[1.2, -0.9, 0.1, 0.4, 0.0, 0.6, -1.4, 0.3]),
    ];
    let points = q.decode(&q.encode(&blocks));
    for (y, p) in blocks.iter().zip(&points) {
        assert!(was_kept(&q, y));
        assert_eq!(narrowed(&e8_nearest(y)), Some(*p));
    }
}
