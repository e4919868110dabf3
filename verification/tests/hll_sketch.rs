use datasketches::error::SketchError;
use datasketches::hll::HllMode;
use datasketches::hll::HllType;
use datasketches::hll::estimate::HllEstimate;
use datasketches::hll::sketch::HllSketch;

fn dummy_hll() -> HllSketch {
    let mut hll = HllSketch::default();
    hll.update_i8(-1);
    hll.update_i8(1);
    hll.update_i8(7);
    hll
}

fn filled(lg_config_k: u8, tgt_type: HllType, n: u64) -> HllSketch {
    let mut hll = HllSketch::new(lg_config_k, tgt_type, false).unwrap();
    for datum in 0..n {
        hll.update_u64(datum);
    }
    hll
}

/// The value of an estimate that is a count or a HIP accumulator.
fn value(estimate: HllEstimate) -> f64 {
    match estimate {
        HllEstimate::Exact { count } => count as f64,
        HllEstimate::Hip { accum } => accum as f64 / (1u64 << 24) as f64,
        HllEstimate::Composite { .. } => unreachable!(),
    }
}

#[test]
fn hll_estimation() {
    let hll = dummy_hll();
    assert_eq!(value(hll.get_estimate()).floor(), 3.0);
}

#[test]
fn hll_serde() {
    let hll = dummy_hll();

    let compact_hll = HllSketch::deserialize(&hll.serialize_compact(0)).unwrap();
    assert_eq!(
        hll.to_string(true, true, true, true),
        compact_hll.to_string(true, true, true, true),
    );

    let updatable_hll = HllSketch::deserialize(&hll.serialize_updatable()).unwrap();
    assert_eq!(
        hll.to_string(true, true, true, true),
        updatable_hll.to_string(true, true, true, true),
    )
}

#[test]
fn hll_sketch_estimation() {
    let hll = dummy_hll();
    assert_eq!(value(hll.get_estimate()).floor(), 3.0);
    assert_eq!(hll.get_estimate().floor(), Some(3));
}

#[test]
fn hll_sketch_serde() {
    let hll = dummy_hll();

    let compact_hll = HllSketch::deserialize(&hll.serialize_compact(0)).unwrap();
    assert_eq!(hll.get_estimate(), compact_hll.get_estimate());
    assert_eq!(hll.serialize_compact(0), compact_hll.serialize_compact(0));

    let updatable_hll = HllSketch::deserialize(&hll.serialize_updatable()).unwrap();
    assert_eq!(hll.get_estimate(), updatable_hll.get_estimate());
    assert_eq!(hll.serialize_updatable(), updatable_hll.serialize_updatable());
}

#[test]
fn the_dump_of_a_list_names_its_coupons() {
    let hll = dummy_hll();
    let summary = hll.to_string(true, false, false, false);
    assert_eq!(
        summary,
        "### HLL sketch summary:\n  lg config k: 12\n  target type: HLL_4\n  mode: LIST\n  \
         out of order: false\n  empty: false\n  coupons: 3\n"
    );
    let detail = hll.to_string(false, true, false, false);
    let lines: Vec<&str> = detail.lines().collect();
    assert_eq!(lines.len(), 4);
    assert_eq!(lines[0], "### HLL sketch data detail:");
    let mut last: u64 = 0;
    for line in &lines[1..] {
        let mut parts = line.trim().split(", ");
        let address: u64 = parts.next().unwrap().parse().unwrap();
        let value: u64 = parts.next().unwrap().parse().unwrap();
        assert!(address < (1 << 26));
        assert!(value >= 1 && value <= 39);
        let coupon = (value << 26) + address;
        assert!(coupon > last);
        last = coupon;
    }
    assert_eq!(hll.to_string(false, false, true, false), "");
    assert_eq!(hll.to_string(true, true, true, true), format!("{}{}", summary, detail));
}

#[test]
fn the_dump_is_the_same_after_every_round_trip() {
    for tgt_type in [HllType::HLL4, HllType::HLL6, HllType::HLL8] {
        for n in [0u64, 5, 100, 400, 100_000] {
            let hll = filled(9, tgt_type, n);
            let compact = HllSketch::deserialize(&hll.serialize_compact(0)).unwrap();
            let updatable = HllSketch::deserialize(&hll.serialize_updatable()).unwrap();
            for all in [false, true] {
                let dump = hll.to_string(true, true, true, all);
                assert_eq!(compact.to_string(true, true, true, all), dump);
                assert_eq!(updatable.to_string(true, true, true, all), dump);
            }
        }
    }
}

#[test]
fn the_dump_of_an_array_lists_its_buckets() {
    let hll = filled(7, HllType::HLL4, 3_000_000);
    let all = hll.to_string(false, true, false, true);
    assert_eq!(all.lines().count(), 1 + 128);
    let aux = hll.to_string(false, false, true, false);
    assert!(aux.starts_with("### HLL sketch aux detail:\n"));
    let least = hll.get_cur_min().unwrap() as u64;
    for line in aux.lines().skip(1) {
        let value: u64 = line.trim().split(", ").nth(1).unwrap().parse().unwrap();
        assert!(value >= least + 15);
    }
    assert_eq!(
        hll.serialize_compact(0).len(),
        28 + 64 + 4 * (aux.lines().count() - 1)
    );
    let summary = hll.to_string(true, false, false, false);
    assert!(summary.contains("  mode: HLL\n"));
    assert!(summary.contains("  hip accumulator: "));
    assert!(summary.contains("  zero buckets: 0\n"));
    let empty = HllSketch::new(7, HllType::HLL8, true).unwrap();
    assert_eq!(empty.to_string(false, true, false, false), "### HLL sketch data detail:\n");
    assert!(empty.to_string(true, false, false, false).contains("  zero buckets: 128\n"));
    assert!(empty.to_string(true, false, false, false).contains("  kxq: 70368744177664\n"));
}

#[test]
fn new_refuses_a_number_of_buckets_out_of_range() {
    assert!(matches!(HllSketch::new(6, HllType::HLL4, false), Err(SketchError::InvalidConfig)));
    assert!(matches!(HllSketch::new(22, HllType::HLL8, true), Err(SketchError::InvalidConfig)));
    assert!(HllSketch::new(7, HllType::HLL6, false).is_ok());
    assert!(HllSketch::new(21, HllType::HLL6, false).is_ok());
}

#[test]
fn a_new_sketch_is_an_empty_list() {
    let hll = HllSketch::new(10, HllType::HLL6, false).unwrap();
    assert!(hll.is_empty());
    assert!(!hll.is_compact());
    assert_eq!(hll.get_mode(), HllMode::List);
    assert_eq!(hll.get_estimate(), HllEstimate::Exact { count: 0 });
    assert_eq!(hll.get_compact_serialization_bytes(), 8);
}

#[test]
fn a_sketch_started_at_full_size_has_its_array() {
    let hll = HllSketch::new(10, HllType::HLL8, true).unwrap();
    assert!(hll.is_empty());
    assert_eq!(hll.get_mode(), HllMode::Hll);
    assert_eq!(hll.get_estimate(), HllEstimate::Hip { accum: 0 });
    assert_eq!(hll.get_updatable_serialization_bytes(), 28 + 1024 + 16);
}

#[test]
fn the_same_item_counts_once() {
    let mut hll = HllSketch::default();
    for _ in 0..100 {
        hll.update_string("again");
    }
    assert_eq!(hll.get_estimate(), HllEstimate::Exact { count: 1 });
}

#[test]
fn the_empty_string_is_no_item() {
    let mut hll = HllSketch::default();
    hll.update_string("");
    assert!(hll.is_empty());
}

#[test]
fn an_integer_counts_once_at_every_width() {
    let mut hll = HllSketch::default();
    hll.update_i8(-5);
    hll.update_i16(-5);
    hll.update_i32(-5);
    hll.update_i64(-5);
    hll.update_u8(0xFB);
    hll.update_u16(0xFFFB);
    hll.update_u32(0xFFFF_FFFB);
    hll.update_u64(0xFFFF_FFFF_FFFF_FFFB);
    assert_eq!(hll.get_estimate(), HllEstimate::Exact { count: 1 });
}

#[test]
fn the_list_gives_way_to_the_set_at_eight_coupons() {
    let seven = filled(12, HllType::HLL4, 7);
    assert_eq!(seven.get_mode(), HllMode::List);
    let eight = filled(12, HllType::HLL4, 8);
    assert_eq!(eight.get_mode(), HllMode::CouponSet);
    assert_eq!(eight.get_estimate(), HllEstimate::Exact { count: 8 });
}

#[test]
fn the_smallest_sketch_goes_from_the_list_to_the_array() {
    let seven = filled(7, HllType::HLL8, 7);
    assert_eq!(seven.get_mode(), HllMode::List);
    let eight = filled(7, HllType::HLL8, 8);
    assert_eq!(eight.get_mode(), HllMode::Hll);
    assert_eq!(eight.get_estimate(), HllEstimate::Hip { accum: 8 << 24 });
}

#[test]
fn the_set_gives_way_to_the_array_above_three_thirty_seconds_of_the_buckets() {
    let at_limit = filled(12, HllType::HLL6, 384);
    assert_eq!(at_limit.get_mode(), HllMode::CouponSet);
    assert_eq!(at_limit.get_estimate(), HllEstimate::Exact { count: 384 });
    let beyond = filled(12, HllType::HLL6, 385);
    assert_eq!(beyond.get_mode(), HllMode::Hll);
    assert_eq!(beyond.get_estimate(), HllEstimate::Hip { accum: 385 << 24 });
    assert_eq!(beyond.get_estimate().floor(), Some(385));
}

#[test]
fn the_three_widths_give_the_same_estimate() {
    let a = filled(11, HllType::HLL4, 50_000);
    let b = filled(11, HllType::HLL6, 50_000);
    let c = filled(11, HllType::HLL8, 50_000);
    assert_eq!(a.get_estimate(), b.get_estimate());
    assert_eq!(b.get_estimate(), c.get_estimate());
    assert_eq!(a.get_composite_estimate(), c.get_composite_estimate());
}

#[test]
fn the_hip_estimate_is_close_to_the_truth() {
    let n: u128 = 100_000;
    let hll = filled(12, HllType::HLL8, n as u64);
    let floor = hll.get_estimate().floor().unwrap();
    assert!(floor > n - n / 20 && floor < n + n / 20);
}

#[test]
fn the_estimate_never_goes_down() {
    let mut hll = HllSketch::new(9, HllType::HLL4, false).unwrap();
    let mut last: u128 = 0;
    for datum in 0..5_000u64 {
        hll.update_u64(datum);
        let now = match hll.get_estimate() {
            HllEstimate::Exact { count } => (count as u128) << 24,
            HllEstimate::Hip { accum } => accum,
            HllEstimate::Composite { .. } => unreachable!(),
        };
        assert!(now >= last);
        last = now;
    }
}

#[test]
fn images_of_every_mode_and_width_are_read_back() {
    for tgt_type in [HllType::HLL4, HllType::HLL6, HllType::HLL8] {
        for n in [0u64, 3, 8, 100, 385, 3_000, 300_000] {
            let hll = filled(10, tgt_type, n);
            let compact = HllSketch::deserialize(&hll.serialize_compact(0)).unwrap();
            let updatable = HllSketch::deserialize(&hll.serialize_updatable()).unwrap();
            assert_eq!(compact.get_estimate(), hll.get_estimate());
            assert_eq!(updatable.get_estimate(), hll.get_estimate());
            assert_eq!(compact.get_composite_estimate(), hll.get_composite_estimate());
            assert_eq!(compact.get_mode(), hll.get_mode());
            assert_eq!(compact.get_target_type(), tgt_type);
            assert_eq!(
                compact.clone_with_type(HllType::HLL8).get_composite_estimate(),
                hll.get_composite_estimate()
            );
            assert_eq!(updatable.is_out_of_order(), hll.is_out_of_order());
            assert_eq!(updatable.get_lg_config_k(), 10);
            assert_eq!(
                hll.serialize_compact(0).len(),
                hll.get_compact_serialization_bytes() as usize
            );
            assert_eq!(
                hll.serialize_updatable().len(),
                hll.get_updatable_serialization_bytes() as usize
            );
        }
    }
}

#[test]
fn a_sketch_read_back_goes_on_as_the_first() {
    let mut hll = filled(10, HllType::HLL4, 2_000);
    let mut copy = HllSketch::deserialize(&hll.serialize_updatable()).unwrap();
    for datum in 2_000..4_000u64 {
        hll.update_u64(datum);
        copy.update_u64(datum);
    }
    assert_eq!(hll.get_estimate(), copy.get_estimate());
    assert_eq!(
        hll.clone_with_type(HllType::HLL8).serialize_compact(0),
        copy.clone_with_type(HllType::HLL8).serialize_compact(0)
    );
}

#[test]
fn the_header_of_a_compact_image_is_left_to_the_caller() {
    let hll = dummy_hll();
    let plain = hll.serialize_compact(0);
    let padded = hll.serialize_compact(5);
    assert_eq!(&padded[..5], &[0u8; 5]);
    assert_eq!(&padded[5..], &plain[..]);
    assert_eq!(plain.len(), 8 + 4 * 3);
    assert_eq!(&plain[..8], &[7, 1, 0, 12, 1, 0, 3, 0]);
}

#[test]
fn corrupt_images_are_refused() {
    let hll = filled(10, HllType::HLL4, 3_000);
    let good = hll.serialize_compact(0);
    assert!(HllSketch::deserialize(&good).is_ok());

    assert!(matches!(HllSketch::deserialize(&[]), Err(SketchError::CorruptData)));
    assert!(matches!(HllSketch::deserialize(&good[..7]), Err(SketchError::CorruptData)));
    assert!(matches!(
        HllSketch::deserialize(&good[..good.len() - 1]),
        Err(SketchError::CorruptData)
    ));
    let mut longer = good.clone();
    longer.push(0);
    assert!(matches!(HllSketch::deserialize(&longer), Err(SketchError::CorruptData)));
    for (at, value) in [(0usize, 8u8), (1, 2), (2, 3), (3, 6), (3, 22), (4, 4), (5, 3), (7, 40)] {
        let mut bad = good.clone();
        bad[at] = value;
        assert!(matches!(HllSketch::deserialize(&bad), Err(SketchError::CorruptData)));
    }
    let mut wrong_mode = good.clone();
    wrong_mode[2] = 0;
    assert!(matches!(HllSketch::deserialize(&wrong_mode), Err(SketchError::CorruptData)));
}

#[test]
fn a_list_image_with_a_repeated_coupon_is_refused() {
    let hll = dummy_hll();
    let mut image = hll.serialize_compact(0);
    let first: Vec<u8> = image[8..12].to_vec();
    image[12..16].copy_from_slice(&first);
    assert!(matches!(HllSketch::deserialize(&image), Err(SketchError::CorruptData)));
}

#[test]
fn reset_gives_an_empty_list_of_the_same_kind() {
    let mut hll = filled(9, HllType::HLL6, 10_000);
    hll.reset();
    assert!(hll.is_empty());
    assert_eq!(hll.get_mode(), HllMode::List);
    assert_eq!(hll.get_lg_config_k(), 9);
    assert_eq!(hll.get_target_type(), HllType::HLL6);
}

#[test]
fn a_clone_is_independent() {
    let mut hll = filled(9, HllType::HLL4, 1_000);
    let copy = hll.clone();
    for datum in 1_000..2_000u64 {
        hll.update_u64(datum);
    }
    assert_ne!(hll.get_estimate(), copy.get_estimate());
    assert_eq!(copy.get_estimate(), filled(9, HllType::HLL4, 1_000).get_estimate());
}

#[test]
fn a_clone_of_another_width_has_the_same_buckets() {
    let hll = filled(9, HllType::HLL4, 100_000);
    let wide = hll.clone_with_type(HllType::HLL8);
    assert_eq!(wide.get_target_type(), HllType::HLL8);
    assert_eq!(wide.get_estimate(), hll.get_estimate());
    assert_eq!(wide.get_composite_estimate(), hll.get_composite_estimate());
    assert_eq!(
        wide.serialize_compact(0),
        filled(9, HllType::HLL8, 100_000).serialize_compact(0)
    );
}

#[test]
fn bounds_take_one_to_three_standard_deviations() {
    let hll = dummy_hll();
    assert!(matches!(hll.get_lower_bound(0), Err(SketchError::InvalidConfig)));
    assert!(matches!(hll.get_upper_bound(4), Err(SketchError::InvalidConfig)));
    let low = hll.get_lower_bound(2).unwrap();
    assert_eq!(low.estimate, HllEstimate::Exact { count: 3 });
    assert_eq!(low.num_std_dev, 2);
    assert_eq!(low.lg_config_k, 12);
    assert!(!low.upper);
    assert!(!low.unioned);
    assert!(hll.get_upper_bound(3).unwrap().upper);
}

#[test]
fn four_bit_buckets_hold_the_values_of_eight_bit_buckets() {
    let hll = filled(7, HllType::HLL4, 3_000_000);
    let narrow = hll.serialize_compact(0);
    assert_eq!(narrow[7], hll.get_cur_min().unwrap());
    let back = HllSketch::deserialize(&narrow).unwrap();
    assert_eq!(back.get_estimate(), hll.get_estimate());
    assert_eq!(
        back.clone_with_type(HllType::HLL8).serialize_compact(0),
        filled(7, HllType::HLL8, 3_000_000).serialize_compact(0)
    );
}

#[test]
fn a_value_far_above_the_smallest_is_an_exception() {
    let mut hll = HllSketch::new(7, HllType::HLL4, true).unwrap();
    hll.update_coupon((20 << 26) + 5);
    hll.update_coupon((3 << 26) + 6);
    let image = hll.serialize_compact(0);
    assert_eq!(image.len(), 28 + 64 + 4);
    assert_eq!(image[7], 0);
    assert_eq!(image[24 + 2] & 0x0F, 0);
    assert_eq!(image[24 + 2] >> 4, 15);
    assert_eq!(image[24 + 3] & 0x0F, 3);
    assert_eq!(&image[24 + 64..24 + 64 + 4], &1u32.to_le_bytes());
    assert_eq!(&image[28 + 64..], &((20u32 << 26) + 5).to_le_bytes());
    assert_eq!(hll.to_string(false, false, true, false), "### HLL sketch aux detail:\n  5, 20\n");
    let back = HllSketch::deserialize(&image).unwrap();
    assert_eq!(back.to_string(true, true, true, true), hll.to_string(true, true, true, true));

    for slot in 0..128u32 {
        hll.update_coupon((10 << 26) + slot);
    }
    assert_eq!(hll.get_cur_min(), Some(10));
    assert_eq!(hll.get_num_at_cur_min(), Some(127));
    let image = hll.serialize_compact(0);
    assert_eq!(image.len(), 28 + 64);
    assert_eq!(image[7], 10);
    assert_eq!(image[24 + 2] >> 4, 10);
    assert_eq!(image[24 + 3] & 0x0F, 0);
    assert_eq!(&image[24 + 64..], &0u32.to_le_bytes());
    assert_eq!(hll.to_string(false, false, true, false), "### HLL sketch aux detail:\n");
    let back = HllSketch::deserialize(&image).unwrap();
    assert_eq!(back.to_string(true, true, true, true), hll.to_string(true, true, true, true));
    assert_eq!(back.get_cur_min(), Some(10));

    let mut shifted = image.clone();
    shifted[7] = 30;
    assert!(matches!(HllSketch::deserialize(&shifted), Err(SketchError::CorruptData)));
    let mut wide = hll.clone_with_type(HllType::HLL6).serialize_compact(0);
    assert_eq!(wide[7], 0);
    wide[7] = 1;
    assert!(matches!(HllSketch::deserialize(&wide), Err(SketchError::CorruptData)));
}

#[test]
fn the_statistics_of_the_array_follow_its_buckets() {
    let list = dummy_hll();
    assert_eq!(list.get_kxq(), None);
    assert_eq!(list.get_cur_min(), None);
    assert_eq!(list.get_num_at_cur_min(), None);
    let empty = HllSketch::new(7, HllType::HLL6, true).unwrap();
    assert_eq!(empty.get_kxq(), Some(128u64 << 39));
    assert_eq!(empty.get_cur_min(), Some(0));
    assert_eq!(empty.get_num_at_cur_min(), Some(128));
    let mut one = HllSketch::new(7, HllType::HLL6, true).unwrap();
    one.update_u64(1);
    assert_eq!(one.get_cur_min(), Some(0));
    assert_eq!(one.get_num_at_cur_min(), Some(127));
    assert!(one.get_kxq().unwrap() < (128u64 << 39));
    assert!(one.get_kxq().unwrap() >= (127u64 << 39));
    assert_eq!(one.get_estimate(), HllEstimate::Hip { accum: 1 << 24 });
    let full = filled(7, HllType::HLL4, 3_000_000);
    let least = full.get_cur_min().unwrap();
    assert!(least >= 8);
    let dump = full.to_string(false, true, false, true);
    let at_least = dump
        .lines()
        .skip(1)
        .filter(|line| line.trim().split(", ").nth(1).unwrap().parse::<u8>().unwrap() == least)
        .count();
    assert_eq!(full.get_num_at_cur_min(), Some(at_least as u32));
}
