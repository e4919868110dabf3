use datasketches::error::SketchError;
use datasketches::hll::HllMode;
use datasketches::hll::HllType;
use datasketches::hll::estimate::HllEstimate;
use datasketches::hll::sketch::HllSketch;
use datasketches::hll::union::HllUnion;
use rand::Rng;

fn dummy_hll(cardinality: u64, offset: u64) -> HllSketch {
    let mut hll = HllSketch::default();

    let mut rng = rand::thread_rng();
    for datum in 0..cardinality {
        for _ in 0..rng.gen_range(1..10) {
            hll.update_u64(datum + offset)
        }
    }

    hll
}

fn range(lg_config_k: u8, tgt_type: HllType, from: u64, to: u64) -> HllSketch {
    let mut hll = HllSketch::new(lg_config_k, tgt_type, false).unwrap();
    for datum in from..to {
        hll.update_u64(datum);
    }
    hll
}

#[test]
fn hll_union_estimation() {
    let a = dummy_hll(200, 0);
    let b = dummy_hll(50, 175);
    let mut union = HllUnion::default();
    union.update_sketch(&a);
    union.update_sketch(&b);
    let estimate = match union.get_estimate() {
        HllEstimate::Exact { count } => count as f64,
        HllEstimate::Hip { accum } => accum as f64 / (1u64 << 24) as f64,
        HllEstimate::Composite { .. } => unreachable!(),
    };
    assert_eq!(estimate.floor(), 225.0);
}

#[test]
fn a_union_takes_one_to_twenty_one_for_its_buckets() {
    assert!(matches!(HllUnion::new(6), Err(SketchError::InvalidConfig)));
    assert!(matches!(HllUnion::new(22), Err(SketchError::InvalidConfig)));
    assert!(HllUnion::new(7).is_ok());
    assert!(HllUnion::new(21).is_ok());
}

#[test]
fn a_union_is_the_same_in_either_order() {
    for (n, m) in [(5u64, 3u64), (200, 300), (300, 5_000), (20_000, 30_000)] {
        let a = range(11, HllType::HLL4, 0, n);
        let b = range(12, HllType::HLL6, n / 2, n / 2 + m);
        let mut ab = HllUnion::new(12).unwrap();
        ab.update_sketch(&a);
        ab.update_sketch(&b);
        let mut ba = HllUnion::new(12).unwrap();
        ba.update_sketch(&b);
        ba.update_sketch(&a);
        assert_eq!(ab.get_estimate(), ba.get_estimate());
        assert_eq!(ab.get_composite_estimate(), ba.get_composite_estimate());
        assert_eq!(ab.get_lg_config_k(), 11);
        assert_eq!(ba.get_lg_config_k(), 11);
        let x = ab.get_result(HllType::HLL8);
        let y = ba.get_result(HllType::HLL8);
        assert_eq!(x.get_mode(), y.get_mode());
        assert_eq!(x.is_out_of_order(), y.is_out_of_order());
        if x.get_mode() == HllMode::Hll {
            assert_eq!(x.serialize_compact(0), y.serialize_compact(0));
        }
    }
}

#[test]
fn a_union_of_arrays_is_the_array_of_the_whole_stream() {
    let a = range(10, HllType::HLL8, 0, 40_000);
    let b = range(10, HllType::HLL8, 30_000, 90_000);
    let whole = range(10, HllType::HLL8, 0, 90_000);
    let mut union = HllUnion::new(10).unwrap();
    union.update_sketch(&a);
    union.update_sketch(&b);
    assert_eq!(union.get_estimate(), whole.get_composite_estimate());
    assert!(matches!(union.get_estimate(), HllEstimate::Composite { .. }));
}

#[test]
fn the_first_array_is_taken_with_its_accumulator() {
    let a = range(10, HllType::HLL4, 0, 40_000);
    let mut union = HllUnion::new(12).unwrap();
    union.update_sketch(&a);
    assert_eq!(union.get_estimate(), a.get_estimate());
    assert_eq!(union.get_lg_config_k(), 10);
    assert_eq!(union.get_target_type(), HllType::HLL8);
}

#[test]
fn a_sketch_with_more_buckets_is_folded() {
    let fine = range(12, HllType::HLL8, 0, 40_000);
    let coarse = range(9, HllType::HLL8, 0, 40_000);
    let mut union = HllUnion::new(9).unwrap();
    union.update_sketch(&fine);
    assert_eq!(union.get_lg_config_k(), 9);
    assert_eq!(union.get_estimate(), coarse.get_composite_estimate());
}

#[test]
fn an_empty_sketch_changes_nothing() {
    let a = range(11, HllType::HLL4, 0, 100);
    let mut union = HllUnion::new(12).unwrap();
    union.update_sketch(&HllSketch::new(8, HllType::HLL4, false).unwrap());
    assert!(union.is_empty());
    assert_eq!(union.get_lg_config_k(), 12);
    union.update_sketch(&a);
    union.update_sketch(&HllSketch::new(8, HllType::HLL4, true).unwrap());
    assert_eq!(union.get_lg_config_k(), 11);
    assert_eq!(union.get_estimate(), HllEstimate::Exact { count: 100 });
}

#[test]
fn coupons_that_are_too_many_together_fill_the_array() {
    let a = range(12, HllType::HLL4, 0, 300);
    let b = range(12, HllType::HLL4, 300, 600);
    let mut union = HllUnion::new(12).unwrap();
    union.update_sketch(&a);
    union.update_sketch(&b);
    let result = union.get_result(HllType::HLL4);
    assert_eq!(result.get_mode(), HllMode::Hll);
    assert!(result.is_out_of_order());
    assert_eq!(
        result.get_estimate(),
        range(12, HllType::HLL4, 0, 600).get_composite_estimate()
    );
}

#[test]
fn the_result_is_independent_of_the_union() {
    let mut union = HllUnion::new(12).unwrap();
    union.update_sketch(&range(12, HllType::HLL4, 0, 100));
    let result = union.get_result(HllType::HLL6);
    union.update_u64(1_000_000);
    assert_eq!(result.get_estimate(), HllEstimate::Exact { count: 100 });
    assert_eq!(union.get_estimate(), HllEstimate::Exact { count: 101 });
    assert_eq!(result.get_target_type(), HllType::HLL6);
}

#[test]
fn a_union_takes_items_like_a_sketch() {
    let mut union = HllUnion::default();
    union.update_string("one");
    union.update_string("");
    union.update_i8(-1);
    union.update_u8(0xFF);
    union.update_i16(-1);
    union.update_u16(0xFFFF);
    union.update_i32(-1);
    union.update_u32(0xFFFF_FFFF);
    union.update_i64(-1);
    union.update_u64(u64::MAX);
    assert_eq!(union.get_estimate(), HllEstimate::Exact { count: 2 });
    assert!(union.get_lower_bound(1).is_ok());
    assert!(matches!(union.get_upper_bound(0), Err(SketchError::InvalidConfig)));
    union.reset();
    assert!(union.is_empty());
}
