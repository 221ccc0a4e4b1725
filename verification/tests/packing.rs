//! Packed indices, the seeded generator, and the memory ledger.

use ultravec::memory::with_mips_norm_sidecar;
use ultravec::prng::{coarse_seeds, draw_sample, level_draws, next_u53, sample, shuffle};
use ultravec::{
    centering_bytes, pack_indices, pack_indices_wide, splitmix64, unpack_indices,
    unpack_indices_wide, MemoryBreakdown,
};

#[test]
fn wide_packing_matches_the_narrow_path_where_they_overlap() {
    let mut state = 0x9E37_79B9_7F4A_7C15u64;
    for bits in 1u8..=16 {
        let max = if bits >= 16 {
            u16::MAX
        } else {
            (1u16 << bits) - 1
        };
        let narrow: Vec<u16> = (0..97)
            .map(|_| (splitmix64(&mut state) as u16) & max)
            .collect();
        let wide: Vec<u32> = narrow.iter().map(|&v| v as u32).collect();
        assert_eq!(
            pack_indices(&narrow, bits),
            pack_indices_wide(&wide, bits),
            "packed bytes differ at {bits} bits"
        );
        let packed = pack_indices_wide(&wide, bits);
        let mut back = vec![0u32; wide.len()];
        unpack_indices_wide(&packed, bits, &mut back);
        assert_eq!(back, wide, "wide round-trip failed at {bits} bits");
    }
}

#[test]
fn wide_packing_round_trips_at_the_e8_three_bit_width() {
    let mut state = 0x2545_F491_4F6C_DD1Du64;
    for bits in [17u8, 20, 24, 28, 32] {
        let mask = if bits >= 32 {
            u32::MAX
        } else {
            (1u32 << bits) - 1
        };
        let idx: Vec<u32> = (0..131)
            .map(|_| (splitmix64(&mut state) as u32) & mask)
            .collect();
        let packed = pack_indices_wide(&idx, bits);
        assert_eq!(packed.len(), (idx.len() * bits as usize).div_ceil(8));
        let mut back = vec![0u32; idx.len()];
        unpack_indices_wide(&packed, bits, &mut back);
        assert_eq!(back, idx, "round-trip failed at {bits} bits");
    }
}

#[test]
fn wide_unpacking_survives_a_truncated_buffer() {
    let idx: Vec<u32> = vec![0x00AB_CDEF, 0x0012_3456, 0x00FE_DCBA];
    let packed = pack_indices_wide(&idx, 24);
    let mut back = vec![0u32; idx.len()];
    unpack_indices_wide(&packed[..4], 24, &mut back);
    assert_eq!(back[0], idx[0], "the complete leading index must decode");
    assert_eq!(back[2], 0, "slots past the data must stay zeroed");
}

#[test]
fn pack_unpack_round_trips() {
    for bits in [4u8, 5, 6] {
        let n = 200usize;
        let max = (1u16 << bits) - 1;
        let mut state = 123 + bits as u64;
        let indices: Vec<u16> = (0..n)
            .map(|_| (splitmix64(&mut state) as u16) & max)
            .collect();
        let packed = pack_indices(&indices, bits);
        let mut out = vec![0u16; n];
        unpack_indices(&packed, bits, &mut out);
        assert_eq!(indices, out);
    }
}

#[test]
fn unpack_indices_survives_a_truncated_buffer() {
    let bits = 5u8;
    let n = 64usize;
    let indices: Vec<u16> = (0..n).map(|i| (i as u16) & 31).collect();
    let packed = pack_indices(&indices, bits);
    for keep in [0usize, 1, 3, packed.len() / 2, packed.len() - 1] {
        let mut out = vec![0u16; n];
        unpack_indices(&packed[..keep], bits, &mut out);
        let decodable = keep * 8 / bits as usize;
        assert_eq!(
            out[..decodable],
            indices[..decodable],
            "truncating to {keep} bytes must still decode the intact prefix"
        );
    }
}

#[test]
fn packing_is_most_significant_bit_first() {
    assert_eq!(pack_indices(&[1, 2, 3, 0], 2), vec![0b0110_1100]);
    assert_eq!(pack_indices(&[0b101, 0b011], 3), vec![0b1010_1100]);
    assert_eq!(pack_indices_wide(&[0xAB_CDEF], 24), vec![0xAB, 0xCD, 0xEF]);
    assert_eq!(pack_indices(&[], 7), Vec::<u8>::new());
}

#[test]
fn slots_past_the_data_keep_what_they_held() {
    let mut out = vec![9u16; 4];
    unpack_indices(&[0xFF], 4, &mut out);
    assert_eq!(out, vec![15, 15, 9, 9]);
}

#[test]
fn splitmix_gives_its_known_outputs() {
    let mut state = 0u64;
    assert_eq!(splitmix64(&mut state), 0xE220_A839_7B1D_CDAF);
    assert_eq!(splitmix64(&mut state), 0x6E78_9E6A_A1B9_65F4);
    let mut again = 0u64;
    assert_eq!(next_u53(&mut again), 0xE220_A839_7B1D_CDAF >> 11);
}

#[test]
fn a_shuffle_is_a_permutation() {
    let mut v = shuffle(50, 7);
    assert_eq!(v, shuffle(50, 7));
    assert_ne!(v, shuffle(50, 8));
    v.sort();
    assert_eq!(v, (0..50).collect::<Vec<usize>>());
    assert_eq!(sample(50, 5, 7), shuffle(50, 7)[..5].to_vec());
    assert_eq!(sample(3, 5, 7), shuffle(3, 7));
}

#[test]
fn a_draw_is_distinct() {
    let mut v = draw_sample(30, 12, 42);
    assert_eq!(v.len(), 12);
    assert!(v.iter().all(|&i| i < 30));
    v.sort();
    v.dedup();
    assert_eq!(v.len(), 12);
}

#[test]
fn the_first_draw_follows_the_generator() {
    let mut state = 42u64;
    let pick = (splitmix64(&mut state) % 30) as usize;
    assert_eq!(draw_sample(30, 1, 42)[0], pick);
}

#[test]
fn coarse_seeds_follow_the_generator() {
    let mut state = 42u64;
    let want: Vec<usize> = (0..6)
        .map(|_| (splitmix64(&mut state) % 17) as usize)
        .collect();
    assert_eq!(coarse_seeds(17, 6, 42), want);
}

#[test]
fn level_draws_follow_the_shift_register() {
    let draws = level_draws(2, 0);
    let mut s = 1u64;
    for d in draws {
        s ^= s << 13;
        s ^= s >> 7;
        s ^= s << 17;
        assert_eq!(d, s >> 11);
    }
}

#[test]
fn mips_memory_includes_exact_norm_sidecar() {
    let memory = MemoryBreakdown {
        code_bytes: 10,
        model_bytes: 20,
        index_bytes: 30,
        cache_bytes: 40,
    };
    assert_eq!(with_mips_norm_sidecar(&memory, 3, false), (22, 112));
    assert_eq!(with_mips_norm_sidecar(&memory, 3, true), (10, 100));
}

#[test]
fn resident_bytes_saturate() {
    let memory = MemoryBreakdown {
        code_bytes: usize::MAX,
        model_bytes: 1,
        index_bytes: 0,
        cache_bytes: 0,
    };
    assert_eq!(memory.total_resident_bytes(), usize::MAX);
    assert_eq!(MemoryBreakdown::default().total_resident_bytes(), 0);
}

#[test]
fn centering_bytes_counts_the_norm_and_the_index() {
    assert_eq!(centering_bytes(0), 0);
    assert_eq!(centering_bytes(1), 4);
    assert_eq!(centering_bytes(2), 5);
    assert_eq!(centering_bytes(256), 5);
    assert_eq!(centering_bytes(257), 6);
    assert_eq!(centering_bytes(65536), 6);
    assert_eq!(centering_bytes(65537), 7);
}
