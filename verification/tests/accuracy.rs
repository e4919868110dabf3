use datasketches::cpc::estimate::CpcEstimate;
use datasketches::cpc::sketch::CpcSketch;
use datasketches::hll::HllType;
use datasketches::hll::estimate::HllEstimate;
use datasketches::hll::sketch::HllSketch;

/// The share of the trials whose estimate lies within the given relative
/// error of the truth.
fn share_within(trials: u64, n: u64, bound: f64, estimate: impl Fn(u64, u64) -> f64) -> f64 {
    let mut good = 0u64;
    for trial in 0..trials {
        let value = estimate(trial * 1_000_003_000, n);
        if ((value - n as f64) / n as f64).abs() <= bound {
            good += 1;
        }
    }
    good as f64 / trials as f64
}

#[test]
fn hll_estimates_stay_within_two_standard_deviations() {
    let bound = 2.0 * 0.832_554_611 / 4096f64.sqrt();
    for n in [2_000u64, 20_000] {
        let share = share_within(60, n, bound, |base, n| {
            let mut hll = HllSketch::new(12, HllType::HLL4, false).unwrap();
            for datum in 0..n {
                hll.update_u64(base + datum);
            }
            match hll.get_estimate() {
                HllEstimate::Hip { accum } => accum as f64 / (1u64 << 24) as f64,
                HllEstimate::Exact { count } => count as f64,
                HllEstimate::Composite { .. } => unreachable!(),
            }
        });
        assert!(share >= 0.95);
    }
}

#[test]
fn small_hll_counts_are_exact() {
    let share = share_within(60, 300, 0.0, |base, n| {
        let mut hll = HllSketch::new(12, HllType::HLL8, false).unwrap();
        for datum in 0..n {
            hll.update_u64(base + datum);
        }
        match hll.get_estimate() {
            HllEstimate::Exact { count } => count as f64,
            _ => unreachable!(),
        }
    });
    assert!(share >= 0.95);
}

#[test]
fn cpc_estimates_stay_within_two_standard_deviations() {
    let bound = 2.0 * 0.588_705_011 / 4096f64.sqrt();
    for n in [2_000u64, 20_000] {
        let share = share_within(60, n, bound, |base, n| {
            let mut cpc = CpcSketch::new(12, 9001).unwrap();
            for datum in 0..n {
                cpc.update_u64(base + datum);
            }
            match cpc.get_estimate() {
                CpcEstimate::Hip { accum } => accum as f64 / (1u64 << 24) as f64,
                CpcEstimate::Icon { .. } => unreachable!(),
            }
        });
        assert!(share >= 0.95);
    }
}
