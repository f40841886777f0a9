use forest_fire::arrival::{ArrivalProcess, FP_ONE};
use rand::Rng;
use rand::SeedableRng;

#[test]
fn rate_zero_always_returns_zero() {
    let mut p = ArrivalProcess::new();
    for _ in 0..1000 {
        assert_eq!(p.draw(0), 0);
    }
}

#[test]
fn fixed_point_carry_is_exact() {
    let mut p = ArrivalProcess::new();
    // 1.5 events arrive: one whole event out, 0.5 carried.
    assert_eq!(p.draw(FP_ONE + FP_ONE / 2), 1);
    // 0.5 + 0.75 = 1.25: one event out, 0.25 carried.
    assert_eq!(p.draw(FP_ONE / 2 + FP_ONE / 4), 1);
    assert_eq!(p.draw(0), 0);
    // 0.25 + 0.75 = 1.0 exactly: one event out, nothing carried.
    assert_eq!(p.draw(FP_ONE - FP_ONE / 4), 1);
    assert_eq!(p.draw(FP_ONE / 4), 0);
}

#[test]
fn sub_unit_gaps_accumulate() {
    let mut p = ArrivalProcess::new();
    let mut total = 0u64;
    // 8 gaps of exactly 0.25 events each: exactly 2 whole events in total,
    // one after every fourth draw.
    for i in 0..8 {
        let count = p.draw(FP_ONE / 4);
        assert_eq!(count, if i % 4 == 3 { 1 } else { 0 });
        total += count;
    }
    assert_eq!(total, 2);
}

#[test]
fn long_run_rate_converges() {
    // Constant rate over many steps: the mean count per step converges to
    // the rate, here required within 5 percent.
    let mut rng = rand::rngs::StdRng::seed_from_u64(12345);
    let rate = 0.01f64;
    let n = 100_000u64;
    let mut p = ArrivalProcess::new();
    let mut total = 0u64;
    for _ in 0..n {
        let u: f64 = 1.0 - rng.gen::<f64>();
        let gap_events = -rate * u.ln();
        let gap = (gap_events * FP_ONE as f64) as u64;
        total += p.draw(gap);
    }
    let mean = total as f64 / n as f64;
    assert!(
        (mean - rate).abs() <= 0.05 * rate,
        "long-run mean {} strayed from rate {}",
        mean,
        rate
    );
}
