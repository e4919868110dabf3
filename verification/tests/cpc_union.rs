use datasketches::cpc::estimate::CpcEstimate;
use datasketches::cpc::sketch::CpcSketch;
use datasketches::cpc::union::CpcUnion;
use datasketches::error::SketchError;
use rand::Rng;

fn dummy_cpc(cardinality: u64, offset: u64) -> CpcSketch {
    let mut cpc = CpcSketch::default();

    let mut rng = rand::thread_rng();
    for datum in 0..cardinality {
        for _ in 0..rng.gen_range(1..10) {
            cpc.update_u64(datum + offset)
        }
    }

    cpc
}

fn range(lg_k: u8, from: u64, to: u64) -> CpcSketch {
    let mut cpc = CpcSketch::new(lg_k, 9001).unwrap();
    for datum in from..to {
        cpc.update_u64(datum);
    }
    cpc
}

/// The number of coupons that `n` distinct items are expected to leave in a
/// matrix of `2^lg_k` rows.
fn expected_coupons(lg_k: u8, n: f64) -> f64 {
    let k = (1u64 << lg_k) as f64;
    let mut sum = 0.0;
    for col in 0..39 {
        let weight = if col < 38 { 0.5f64.powi(col + 1) } else { 0.5f64.powi(38) };
        sum += 1.0 - (n * (-weight / k).ln_1p()).exp();
    }
    k * sum
}

/// The number of distinct items that is expected to leave this number of
/// coupons.
fn evaluate(estimate: CpcEstimate) -> f64 {
    match estimate {
        CpcEstimate::Hip { accum } => accum as f64 / (1u64 << 24) as f64,
        CpcEstimate::Icon { lg_k, num_coupons } => {
            let target = num_coupons as f64;
            let mut low = 0.0f64;
            let mut high = 1.0f64;
            while expected_coupons(lg_k, high) < target && high < 1e30 {
                high *= 2.0;
            }
            for _ in 0..200 {
                let mid = (low + high) / 2.0;
                if expected_coupons(lg_k, mid) < target {
                    low = mid;
                } else {
                    high = mid;
                }
            }
            (low + high) / 2.0
        }
    }
}

#[test]
fn union_estimation() {
    let a = dummy_cpc(200, 0);
    let b = dummy_cpc(50, 175);
    let mut union = CpcUnion::default();
    union.update_sketch(&a);
    union.update_sketch(&b);
    let estimate = evaluate(union.get_result().get_estimate()).floor();
    println!("estimate {} from {:?}", estimate, union.get_result().get_estimate());
    assert!(estimate >= 224.0 && estimate <= 226.0);
}

#[test]
fn the_union_of_two_streams_holds_the_coupons_of_the_whole() {
    let a = dummy_cpc(200, 0);
    let b = dummy_cpc(50, 175);
    let mut union = CpcUnion::default();
    union.update_sketch(&a);
    union.update_sketch(&b);
    let result = union.get_result();
    let whole = dummy_cpc(225, 0);
    assert_eq!(result.get_num_coupons(), whole.get_num_coupons());
    assert_eq!(
        result.get_estimate(),
        CpcEstimate::Icon { lg_k: 11, num_coupons: whole.get_num_coupons() }
    );
}

#[test]
fn a_cpc_union_takes_four_to_twenty_six_for_its_rows() {
    assert!(matches!(CpcUnion::new(3, 9001), Err(SketchError::InvalidConfig)));
    assert!(matches!(CpcUnion::new(27, 9001), Err(SketchError::InvalidConfig)));
    assert!(CpcUnion::new(4, 9001).is_ok());
    assert!(CpcUnion::new(26, 9001).is_ok());
}

#[test]
fn a_cpc_union_is_the_same_in_either_order() {
    for (n, m) in [(5u64, 3u64), (100, 300), (300, 5_000), (20_000, 30_000)] {
        let a = range(10, 0, n);
        let b = range(11, n / 2, n / 2 + m);
        let mut ab = CpcUnion::new(12, 9001).unwrap();
        ab.update_sketch(&a);
        ab.update_sketch(&b);
        let mut ba = CpcUnion::new(12, 9001).unwrap();
        ba.update_sketch(&b);
        ba.update_sketch(&a);
        let x = ab.get_result();
        let y = ba.get_result();
        assert_eq!(x.get_estimate(), y.get_estimate());
        assert_eq!(x.get_lg_k(), 10);
        assert_eq!(y.get_lg_k(), 10);
        assert_eq!(x.get_kxp(), y.get_kxp());
        assert!(x.is_merged());
        if x.get_num_coupons() * 32 >= 3 * 1024 {
            assert_eq!(x.serialize(), y.serialize());
        }
    }
}

#[test]
fn a_cpc_union_holds_the_coupons_of_the_whole_stream() {
    let a = range(10, 0, 4_000);
    let b = range(10, 3_000, 9_000);
    let whole = range(10, 0, 9_000);
    let mut union = CpcUnion::new(10, 9001).unwrap();
    union.update_sketch(&a);
    union.update_sketch(&b);
    let result = union.get_result();
    assert_eq!(result.get_num_coupons(), whole.get_num_coupons());
    assert_eq!(result.get_kxp(), whole.get_kxp());
    assert_eq!(result.serialize()[40..], whole.serialize()[40..]);
}

#[test]
fn a_cpc_sketch_with_more_rows_is_folded() {
    let fine = range(12, 0, 40_000);
    let coarse = range(9, 0, 40_000);
    let mut union = CpcUnion::new(9, 9001).unwrap();
    union.update_sketch(&fine);
    let result = union.get_result();
    assert_eq!(result.get_lg_k(), 9);
    assert_eq!(result.get_num_coupons(), coarse.get_num_coupons());
    assert_eq!(result.serialize()[40..], coarse.serialize()[40..]);
}

#[test]
fn an_empty_cpc_sketch_changes_nothing() {
    let mut union = CpcUnion::new(12, 9001).unwrap();
    union.update_sketch(&CpcSketch::new(5, 9001).unwrap());
    assert_eq!(union.get_lg_k(), 12);
    assert_eq!(union.get_seed(), 9001);
    assert!(union.get_result().is_empty());
    union.update_sketch(&range(11, 0, 100));
    assert_eq!(union.get_lg_k(), 11);
}

#[test]
fn the_cpc_result_is_independent_of_the_union() {
    let mut union = CpcUnion::default();
    union.update_sketch(&range(11, 0, 100));
    let result = union.get_result();
    union.update_sketch(&range(11, 100, 200));
    assert!(result.get_num_coupons() <= 100);
    assert!(union.get_result().get_num_coupons() > result.get_num_coupons());
}
