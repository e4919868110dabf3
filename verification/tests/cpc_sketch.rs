use datasketches::cpc::Flavor;
use datasketches::cpc::estimate::CpcEstimate;
use datasketches::cpc::sketch::CpcSketch;
use datasketches::error::SketchError;

fn dummy_cpc() -> CpcSketch {
    let mut cpc = CpcSketch::default();
    cpc.update_i8(-1);
    cpc.update_i8(1);
    cpc.update_i8(7);
    cpc
}

fn filled(lg_k: u8, n: u64) -> CpcSketch {
    let mut cpc = CpcSketch::new(lg_k, 9001).unwrap();
    for datum in 0..n {
        cpc.update_u64(datum);
    }
    cpc
}

/// The value of an estimate that is a HIP accumulator.
fn value(estimate: CpcEstimate) -> f64 {
    match estimate {
        CpcEstimate::Hip { accum } => accum as f64 / (1u64 << 24) as f64,
        CpcEstimate::Icon { .. } => unreachable!(),
    }
}

#[test]
fn cpc_estimation() {
    let cpc = dummy_cpc();
    assert_eq!(value(cpc.get_estimate()).floor(), 3.0);
}

#[test]
fn cpc_serde() {
    let cpc = dummy_cpc();

    let compact_cpc = CpcSketch::deserialize(&cpc.serialize()).unwrap();
    assert_eq!(cpc.to_string(), compact_cpc.to_string(),);
}

#[test]
fn the_cpc_dump_is_a_summary() {
    let cpc = dummy_cpc();
    let kxp: u128 = (2048u128 << 38) - cpc_weights(&cpc);
    assert_eq!(
        cpc.to_string(),
        format!(
            "### CPC sketch summary:\n  lg k: 11\n  seed: 9001\n  coupons: 3\n  flavor: \
             SPARSE\n  window offset: 0\n  merged: false\n  kxp: {}\n  hip accumulator: {}\n",
            kxp,
            cpc.get_hip_accum()
        )
    );
    for n in [0u64, 100, 10_000] {
        let cpc = filled(8, n);
        let back = CpcSketch::deserialize(&cpc.serialize()).unwrap();
        assert_eq!(back.to_string(), cpc.to_string());
    }
}

fn cpc_weights(cpc: &CpcSketch) -> u128 {
    let image = cpc.serialize();
    let mut sum: u128 = 0;
    for word in image[40..].chunks(4) {
        let pair = u32::from_le_bytes([word[0], word[1], word[2], word[3]]);
        let col = pair % 64;
        sum += if col >= 38 { 1 } else { 1u128 << (37 - col) };
    }
    sum
}

#[test]
fn sketch_estimation() {
    let cpc = dummy_cpc();
    assert_eq!(value(cpc.get_estimate()).floor(), 3.0);
    assert_eq!(cpc.get_estimate().floor(), Some(3));
}

#[test]
fn sketch_serde() {
    let cpc = dummy_cpc();

    let compact_cpc = CpcSketch::deserialize(&cpc.serialize()).unwrap();
    assert_eq!(cpc.to_string(), compact_cpc.to_string(),);
    assert_eq!(cpc.get_estimate(), compact_cpc.get_estimate());
    assert_eq!(cpc.get_kxp(), compact_cpc.get_kxp());
    assert_eq!(cpc.get_flavor(), compact_cpc.get_flavor());
}

#[test]
fn cpc_new_refuses_a_number_of_rows_out_of_range() {
    assert!(matches!(CpcSketch::new(3, 9001), Err(SketchError::InvalidConfig)));
    assert!(matches!(CpcSketch::new(27, 9001), Err(SketchError::InvalidConfig)));
    assert!(CpcSketch::new(4, 9001).is_ok());
    assert!(CpcSketch::new(26, 1).is_ok());
}

#[test]
fn a_new_cpc_sketch_is_empty() {
    let cpc = CpcSketch::new(10, 77).unwrap();
    assert!(cpc.is_empty());
    assert_eq!(cpc.get_flavor(), Flavor::Empty);
    assert_eq!(cpc.get_lg_k(), 10);
    assert_eq!(cpc.get_seed(), 77);
    assert_eq!(cpc.get_num_coupons(), 0);
    assert_eq!(cpc.get_window_offset(), 0);
    assert_eq!(cpc.get_kxp(), 1024u128 << 38);
    assert_eq!(cpc.get_estimate(), CpcEstimate::Hip { accum: 0 });
    assert!(!cpc.is_merged());
    assert_eq!(cpc.serialize().len(), 40);
}

#[test]
fn the_first_coupon_counts_one() {
    let mut cpc = CpcSketch::new(10, 9001).unwrap();
    cpc.update_string("one");
    assert_eq!(cpc.get_num_coupons(), 1);
    assert_eq!(cpc.get_estimate(), CpcEstimate::Hip { accum: 1 << 24 });
    assert_eq!(cpc.get_flavor(), Flavor::Sparse);
    cpc.update_string("one");
    cpc.update_string("");
    assert_eq!(cpc.get_num_coupons(), 1);
}

#[test]
fn a_cpc_integer_counts_once_at_every_width() {
    let mut cpc = CpcSketch::default();
    cpc.update_i8(-5);
    cpc.update_i16(-5);
    cpc.update_i32(-5);
    cpc.update_i64(-5);
    cpc.update_u8(0xFB);
    cpc.update_u16(0xFFFB);
    cpc.update_u32(0xFFFF_FFFB);
    cpc.update_u64(0xFFFF_FFFF_FFFF_FFFB);
    assert_eq!(cpc.get_num_coupons(), 1);
}

#[test]
fn the_flavor_follows_the_number_of_coupons() {
    let mut cpc = CpcSketch::new(8, 9001).unwrap();
    let mut datum: u64 = 0;
    let mut last = 0u64;
    while cpc.get_num_coupons() < 2000 {
        cpc.update_u64(datum);
        datum += 1;
        let c = cpc.get_num_coupons();
        assert!(c == last || c == last + 1);
        last = c;
        let expected = if c == 0 {
            Flavor::Empty
        } else if 32 * c < 3 * 256 {
            Flavor::Sparse
        } else if 2 * c < 256 {
            Flavor::Hybrid
        } else if 8 * c < 27 * 256 {
            Flavor::Pinned
        } else {
            Flavor::Sliding
        };
        assert_eq!(cpc.get_flavor(), expected);
        let offset = if 8 * c < 19 * 256 { 0 } else { (8 * c - 19 * 256) / (8 * 256) };
        assert_eq!(cpc.get_window_offset() as u64, offset.min(31));
    }
    assert_eq!(cpc.get_flavor(), Flavor::Sliding);
    assert!(cpc.get_window_offset() >= 5);
}

#[test]
fn the_threshold_coupon_leaves_the_sparse_flavor_without_loss() {
    let mut cpc = CpcSketch::new(8, 9001).unwrap();
    let mut datum: u64 = 0;
    while cpc.get_num_coupons() < 23 {
        cpc.update_u64(datum);
        datum += 1;
    }
    assert_eq!(cpc.get_flavor(), Flavor::Sparse);
    let before = cpc.get_estimate().floor().unwrap();
    while cpc.get_num_coupons() < 24 {
        cpc.update_u64(datum);
        datum += 1;
    }
    assert_eq!(cpc.get_flavor(), Flavor::Hybrid);
    let after = cpc.get_estimate().floor().unwrap();
    assert!(after == before + 1 || after == before + 2);
    let back = CpcSketch::deserialize(&cpc.serialize()).unwrap();
    assert_eq!(back.get_num_coupons(), 24);
    assert_eq!(back.get_estimate(), cpc.get_estimate());
}

#[test]
fn the_cpc_estimate_is_close_to_the_truth() {
    for (lg_k, n) in [(11u8, 200u128), (11, 5_000), (11, 100_000), (12, 1_000_000)] {
        let cpc = filled(lg_k, n as u64);
        let floor = cpc.get_estimate().floor().unwrap();
        assert!(floor > n - n / 15 && floor < n + n / 15);
    }
}

#[test]
fn the_cpc_estimate_never_goes_down() {
    let mut cpc = CpcSketch::new(6, 9001).unwrap();
    let mut last: u128 = 0;
    for datum in 0..5_000u64 {
        cpc.update_u64(datum);
        let now = match cpc.get_estimate() {
            CpcEstimate::Hip { accum } => accum,
            CpcEstimate::Icon { .. } => unreachable!(),
        };
        assert!(now >= last);
        last = now;
    }
}

#[test]
fn cpc_images_of_every_flavor_are_read_back() {
    for lg_k in [4u8, 8, 11] {
        for n in [0u64, 1, 10, 100, 1_000, 10_000, 100_000] {
            let cpc = filled(lg_k, n);
            let image = cpc.serialize();
            let back = CpcSketch::deserialize(&image).unwrap();
            assert_eq!(back.get_estimate(), cpc.get_estimate());
            assert_eq!(back.get_num_coupons(), cpc.get_num_coupons());
            assert_eq!(back.get_flavor(), cpc.get_flavor());
            assert_eq!(back.get_window_offset(), cpc.get_window_offset());
            assert_eq!(back.get_kxp(), cpc.get_kxp());
            assert_eq!(back.get_seed(), 9001);
            if cpc.get_flavor() != Flavor::Sparse {
                assert_eq!(back.serialize(), image);
            }
        }
    }
}

#[test]
fn a_cpc_sketch_read_back_goes_on_as_the_first() {
    let mut cpc = filled(9, 3_000);
    let mut copy = CpcSketch::deserialize(&cpc.serialize()).unwrap();
    for datum in 3_000..6_000u64 {
        cpc.update_u64(datum);
        copy.update_u64(datum);
    }
    assert_eq!(cpc.get_estimate(), copy.get_estimate());
    assert_eq!(cpc.serialize(), copy.serialize());
}

#[test]
fn the_cpc_header_says_what_follows() {
    let cpc = dummy_cpc();
    let image = cpc.serialize();
    assert_eq!(image.len(), 40 + 4 * 3);
    assert_eq!(&image[..8], &[16, 1, 1, 11, 0, 0, 0, 0]);
    assert_eq!(&image[8..16], &9001u64.to_le_bytes());
    assert_eq!(&image[16..24], &3u64.to_le_bytes());
    let dense = filled(4, 1_000);
    let image = dense.serialize();
    assert_eq!(image[2], 4);
    assert_eq!(image[5], dense.get_window_offset());
    assert!(image.len() >= 40 + 16);
}

#[test]
fn corrupt_cpc_images_are_refused() {
    let cpc = filled(8, 1_000);
    let good = cpc.serialize();
    assert!(CpcSketch::deserialize(&good).is_ok());
    assert!(matches!(CpcSketch::deserialize(&[]), Err(SketchError::CorruptData)));
    assert!(matches!(CpcSketch::deserialize(&good[..39]), Err(SketchError::CorruptData)));
    assert!(matches!(
        CpcSketch::deserialize(&good[..good.len() - 1]),
        Err(SketchError::CorruptData)
    ));
    for (at, value) in
        [(0usize, 7u8), (1, 2), (2, 1), (2, 5), (3, 3), (3, 27), (4, 2), (5, 31), (6, 1), (7, 1)]
    {
        let mut bad = good.clone();
        bad[at] = value;
        assert!(matches!(CpcSketch::deserialize(&bad), Err(SketchError::CorruptData)));
    }
    let mut wrong_count = good.clone();
    wrong_count[16] ^= 1;
    assert!(matches!(CpcSketch::deserialize(&wrong_count), Err(SketchError::CorruptData)));
    let mut wrong_window = good.clone();
    wrong_window[41] ^= 0x10;
    assert!(matches!(CpcSketch::deserialize(&wrong_window), Err(SketchError::CorruptData)));
    let sparse = dummy_cpc().serialize();
    let mut repeated = sparse.clone();
    let first: Vec<u8> = repeated[40..44].to_vec();
    repeated[44..48].copy_from_slice(&first);
    assert!(matches!(CpcSketch::deserialize(&repeated), Err(SketchError::CorruptData)));
}

#[test]
fn cpc_bounds_take_one_to_three() {
    let cpc = dummy_cpc();
    assert!(matches!(cpc.get_lower_bound(0), Err(SketchError::InvalidConfig)));
    assert!(matches!(cpc.get_upper_bound(4), Err(SketchError::InvalidConfig)));
    let low = cpc.get_lower_bound(2).unwrap();
    assert_eq!(low.estimate, cpc.get_estimate());
    assert_eq!(low.kappa, 2);
    assert_eq!(low.lg_k, 11);
    assert!(!low.upper);
    assert!(cpc.get_upper_bound(1).unwrap().upper);
}

#[test]
fn a_cpc_clone_is_independent() {
    let mut cpc = filled(9, 1_000);
    let copy = cpc.clone();
    for datum in 1_000..2_000u64 {
        cpc.update_u64(datum);
    }
    assert_ne!(cpc.get_estimate(), copy.get_estimate());
    assert_eq!(copy.get_estimate(), filled(9, 1_000).get_estimate());
}

#[test]
fn another_seed_gives_other_coupons() {
    let mut a = CpcSketch::new(11, 1).unwrap();
    let mut b = CpcSketch::new(11, 2).unwrap();
    for datum in 0..50u64 {
        a.update_u64(datum);
        b.update_u64(datum);
    }
    assert_ne!(a.serialize()[40..], b.serialize()[40..]);
}

#[test]
fn a_dense_sketch_holds_a_window() {
    let cpc = filled(10, 20_000);
    assert!(cpc.holds_window());
    assert!(!cpc.holds_matrix());
    let image = cpc.serialize();
    assert_eq!(image[2], 4);
    assert!(image.len() < 40 + 1024 + 4 * 512);
    let sparse = filled(10, 50);
    assert!(!sparse.holds_window());
    assert!(!sparse.holds_matrix());
}

#[test]
fn the_window_moves_with_the_coupons() {
    let mut cpc = CpcSketch::new(6, 9001).unwrap();
    let mut datum: u64 = 0;
    let mut offsets: Vec<u8> = Vec::new();
    while cpc.get_num_coupons() < 64 * 20 {
        cpc.update_u64(datum);
        datum += 1;
        let offset = cpc.get_window_offset();
        if offsets.last() != Some(&offset) {
            offsets.push(offset);
            let back = CpcSketch::deserialize(&cpc.serialize()).unwrap();
            assert_eq!(back.serialize(), cpc.serialize());
            assert_eq!(back.get_kxp(), cpc.get_kxp());
        }
    }
    assert!(offsets.len() > 10);
    for pair in offsets.windows(2) {
        assert_eq!(pair[1], pair[0] + 1);
    }
}

#[test]
fn too_many_surprises_are_held_as_the_matrix() {
    let mut cpc = CpcSketch::new(4, 9001).unwrap();
    let mut twin = CpcSketch::new(4, 9001).unwrap();
    let mut expected: u64 = 0;
    for col in [30u32, 31, 32, 33, 34] {
        for row in 0..16u32 {
            cpc.update_pair(row * 64 + col, true);
            twin.update_pair(row * 64 + col, true);
            expected += 1;
            assert_eq!(cpc.get_num_coupons(), expected);
        }
    }
    assert!(cpc.holds_matrix());
    for col in 0..30u32 {
        for row in 0..16u32 {
            cpc.update_pair(row * 64 + col, true);
            cpc.update_pair(row * 64 + col, true);
            expected += 1;
            assert_eq!(cpc.get_num_coupons(), expected);
        }
    }
    assert!(cpc.holds_window());
    assert_eq!(cpc.get_num_coupons(), 16 * 35);
    let image = cpc.serialize();
    let back = CpcSketch::deserialize(&image).unwrap();
    assert_eq!(back.serialize(), image);
    assert_eq!(back.get_num_coupons(), 16 * 35);
    assert_eq!(back.get_kxp(), cpc.get_kxp());
    let back = CpcSketch::deserialize(&twin.serialize()).unwrap();
    assert_eq!(back.get_num_coupons(), 80);
    assert_eq!(back.serialize(), twin.serialize());
}

#[test]
fn every_bit_of_the_matrix_can_be_collected() {
    let mut cpc = CpcSketch::new(4, 9001).unwrap();
    for col in (0..39u32).rev() {
        for row in 0..16u32 {
            cpc.update_pair(row * 64 + col, true);
        }
    }
    assert_eq!(cpc.get_num_coupons(), 16 * 39);
    assert_eq!(cpc.get_kxp(), 0);
    assert_eq!(cpc.get_window_offset(), 31);
    let back = CpcSketch::deserialize(&cpc.serialize()).unwrap();
    assert_eq!(back.get_num_coupons(), 16 * 39);
    assert_eq!(back.get_estimate(), cpc.get_estimate());
    let before = cpc.get_estimate();
    cpc.update_u64(12345);
    assert_eq!(cpc.get_estimate(), before);
}
