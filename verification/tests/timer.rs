//! The prediction timer: smoothing, clamping, and the bounded reaction
//! to outlier samples.

use client_core::timer::{PredictionTimer, PRED_MAX_NS, SAMPLE_CAP_NS};

const TICK_NS: u64 = 20_000_000;

#[test]
fn outlier_sample_moves_window_less_than_twofold() {
    // settle the timer on a steady 100 ms round trip
    let mut t = PredictionTimer::new(100_000_000, 0);
    for i in 0..64 {
        t.add_ping(100_000_000, i);
    }
    let before = t.pred_max_smooth(TICK_NS);
    assert!(before > 0);
    // one sample ten times the running average
    t.add_ping(t.smooth_ping * 10, 65);
    let after = t.pred_max_smooth(TICK_NS);
    assert!(
        after < 2 * before,
        "single outlier jumped the window from {before} to {after}"
    );
}

#[test]
fn window_is_clamped_to_three_seconds() {
    let mut t = PredictionTimer::new(SAMPLE_CAP_NS, 0);
    for i in 0..32 {
        t.add_ping(SAMPLE_CAP_NS, i);
        t.add_snap(i64::MAX, i);
    }
    assert_eq!(t.pred_max_smooth(TICK_NS), PRED_MAX_NS);
}

#[test]
fn window_never_negative_and_zero_at_rest() {
    let t = PredictionTimer::new(0, 0);
    assert_eq!(t.pred_max_smooth(TICK_NS), 0);
}

#[test]
fn add_ping_folds_with_exponential_weight() {
    let mut t = PredictionTimer::new(1600, 0);
    t.add_ping(3200, 1);
    // (15 * 1600 + 3200) / 16
    assert_eq!(t.smooth_ping, 1700);
    // deviation 1600, folded from zero jitter: 1600 / 16
    assert_eq!(t.jitter, 100);
    assert_eq!(t.last_sample_at, 1);
}

#[test]
fn add_snap_only_lateness_widens() {
    let mut t = PredictionTimer::new(0, 0);
    t.add_snap(16_000, 1);
    assert_eq!(t.snap_extra, 1000);
    let widened = t.snap_extra;
    t.add_snap(-5_000_000, 2);
    assert!(t.snap_extra < widened, "an early snapshot must let the offset decay");
}

#[test]
fn samples_are_capped() {
    let mut t = PredictionTimer::new(u64::MAX, 0);
    assert_eq!(t.smooth_ping, SAMPLE_CAP_NS);
    t.add_ping(u64::MAX, 1);
    assert!(t.smooth_ping <= SAMPLE_CAP_NS);
}

#[test]
fn diagnostic_accessors() {
    let mut t = PredictionTimer::new(160_000, 0);
    t.add_ping(480_000, 1);
    assert_eq!(t.smooth_max_ping(), t.smooth_ping + t.jitter);
    assert_eq!(t.calc_farsight_of_jitter(), 2 * t.jitter);
    assert_eq!(t.ping_max(), t.smooth_ping + 2 * t.jitter);
}
