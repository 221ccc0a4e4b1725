//! Vector files and held-out queries.

use ultravec::datasets::{
    load_fvecs, load_ivecs, pad_pow2, padded_dim, parse_fvecs, write_fvecs, DataError, Dataset,
};
use ultravec::prng::shuffle;

fn bits_of(v: &[f32]) -> Vec<u32> {
    v.iter().map(|x| x.to_bits()).collect()
}

fn fvecs(rows: &[Vec<f32>]) -> Vec<u8> {
    let mut f = Vec::new();
    for rec in rows {
        f.extend_from_slice(&(rec.len() as i32).to_le_bytes());
        for v in rec {
            f.extend_from_slice(&v.to_le_bytes());
        }
    }
    f
}

#[test]
fn split_is_deterministic_and_disjoint() {
    let ds = Dataset {
        name: "t".into(),
        dim: 2,
        vectors: (0..100)
            .map(|i| bits_of(&[i as f32, -(i as f32)]))
            .collect(),
    };
    let (db1, q1) = ds.split_queries(20, 42);
    let (db2, q2) = ds.split_queries(20, 42);
    assert_eq!(q1.len(), 20);
    assert_eq!(db1.len(), 80);
    assert_eq!(q1, q2);
    assert_eq!(db1, db2);
}

#[test]
fn held_out_queries_are_the_head_of_a_shuffle() {
    let ds = Dataset {
        name: "t".into(),
        dim: 1,
        vectors: (0..10).map(|i| vec![i]).collect(),
    };
    assert_eq!(ds.len(), 10);
    assert!(!ds.is_empty());
    let (db, q) = ds.split_queries(3, 5);
    let mut all: Vec<u32> = q.iter().chain(&db).map(|v| v[0]).collect();
    let order = shuffle(10, 5);
    let mut head: Vec<u32> = order[..3].iter().map(|&i| i as u32).collect();
    let mut got: Vec<u32> = q.iter().map(|v| v[0]).collect();
    head.sort();
    got.sort();
    assert_eq!(got, head);
    all.sort();
    assert_eq!(all, (0..10).collect::<Vec<u32>>());
}

#[test]
fn fvecs_round_trip() {
    let bytes = fvecs(&[vec![1.0f32, 2.0, 3.0], vec![4.0, 5.0, 6.0]]);
    let ds = load_fvecs(&bytes, 0, "t".to_string()).unwrap();
    assert_eq!(ds.dim, 4);
    assert_eq!(ds.len(), 2);
    assert_eq!(ds.vectors[1], bits_of(&[4.0, 5.0, 6.0, 0.0]));
}

#[test]
fn a_written_file_reads_back() {
    let rows = vec![bits_of(&[1.5, -2.0]), bits_of(&[0.0, 3.25])];
    let bytes = write_fvecs(&rows);
    assert_eq!(bytes, fvecs(&[vec![1.5, -2.0], vec![0.0, 3.25]]));
    assert_eq!(parse_fvecs(&bytes, 0), Ok(rows));
}

#[test]
fn a_limit_stops_the_reading() {
    let bytes = fvecs(&[vec![1.0], vec![2.0], vec![3.0]]);
    assert_eq!(parse_fvecs(&bytes, 2).unwrap().len(), 2);
    assert_eq!(parse_fvecs(&bytes, 0).unwrap().len(), 3);
    assert_eq!(parse_fvecs(&bytes, 9).unwrap().len(), 3);
}

#[test]
fn broken_files_are_refused() {
    assert_eq!(parse_fvecs(&[], 0), Err(DataError::NoVectors));
    assert_eq!(parse_fvecs(&0i32.to_le_bytes(), 0), Err(DataError::ImplausibleDim));
    assert_eq!(parse_fvecs(&100_000i32.to_le_bytes(), 0), Err(DataError::ImplausibleDim));
    assert_eq!(parse_fvecs(&(-1i32).to_le_bytes(), 0), Err(DataError::ImplausibleDim));
    let ragged = fvecs(&[vec![1.0, 2.0], vec![3.0]]);
    assert_eq!(parse_fvecs(&ragged, 0), Err(DataError::Ragged));
    let mut cut = fvecs(&[vec![1.0, 2.0]]);
    cut.pop();
    assert_eq!(parse_fvecs(&cut, 0), Err(DataError::Truncated));
}

#[test]
fn gold_rows_are_read() {
    let mut bytes = Vec::new();
    bytes.extend_from_slice(&2i32.to_le_bytes());
    bytes.extend_from_slice(&7i32.to_le_bytes());
    bytes.extend_from_slice(&(-1i32).to_le_bytes());
    bytes.extend_from_slice(&0i32.to_le_bytes());
    assert_eq!(load_ivecs(&bytes), Ok(vec![vec![7, -1], vec![]]));
    assert_eq!(load_ivecs(&[]), Ok(vec![]));
    assert_eq!(load_ivecs(&10_000_000i32.to_le_bytes()), Err(DataError::ImplausibleRow));
}

#[test]
fn dimensions_are_padded_to_powers_of_two() {
    assert_eq!(padded_dim(1), 1);
    assert_eq!(padded_dim(3), 4);
    assert_eq!(padded_dim(128), 128);
    assert_eq!(padded_dim(129), 256);
}

#[test]
fn a_gold_row_cut_short_is_refused() {
    let whole = [1u8, 0, 0, 0, 7, 0, 0, 0];
    assert_eq!(load_ivecs(&whole), Ok(vec![vec![7]]));
    for tail in [&[1u8][..], &[1, 0], &[1, 0, 0], &[1, 0, 0, 0], &[1, 0, 0, 0, 7, 0]] {
        let mut bytes = whole.to_vec();
        bytes.extend_from_slice(tail);
        assert_eq!(load_ivecs(&bytes), Err(DataError::Truncated));
    }
}

#[test]
fn a_dataset_is_read_and_padded_in_one_go() {
    let bytes = fvecs(&[vec![1.0, 2.0, 3.0], vec![4.0, 5.0, 6.0], vec![7.0, 8.0, 9.0]]);
    let ds = load_fvecs(&bytes, 2, "tiny".to_string()).unwrap();
    assert_eq!((ds.name.as_str(), ds.dim, ds.len()), ("tiny", 4, 2));
    let mut rows = parse_fvecs(&bytes, 2).unwrap();
    assert_eq!(pad_pow2(&mut rows, 3), 4);
    assert_eq!(ds.vectors, rows);
    let refused = load_fvecs(&[], 0, "none".to_string());
    assert!(matches!(refused, Err(DataError::NoVectors)));
}
