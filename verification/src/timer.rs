//! The prediction timer: a jitter-and-latency estimator that smooths
//! observed round-trip samples into a recommended look-ahead window.
//!
//! The client simulates ahead of the last confirmed server tick by roughly
//! one round trip so that local input feels immediate. All durations are
//! u64 nanoseconds. Samples are folded with exponential smoothing so that
//! a single outlier cannot cause a large discontinuity in the recommended
//! offset; [`lemma_outlier_step_bounded`] states that bound.

use vstd::prelude::*;
use vstd::arithmetic::div_mod::lemma_fundamental_div_mod;

verus! {

/// Samples above this bound fold in clamped to it (10 seconds).
pub const SAMPLE_CAP_NS: u64 = 10_000_000_000;

/// The look-ahead window never exceeds this bound (3 seconds), which also
/// bounds the worst-case replay cost after a stall.
pub const PRED_MAX_NS: u64 = 3_000_000_000;

/// Smooths round-trip samples and snapshot timing discrepancies into a
/// recommended prediction offset.
#[derive(Clone, Copy, Debug, PartialEq, Eq, Structural)]
pub struct PredictionTimer {
    /// Exponentially smoothed round-trip estimate, nanoseconds.
    pub smooth_ping: u64,
    /// Exponentially smoothed deviation of samples from the estimate.
    pub jitter: u64,
    /// Exponentially smoothed extra offset from observed snapshot lateness.
    pub snap_extra: u64,
    /// When the last sample was folded in, nanoseconds of session time.
    pub last_sample_at: u64,
}

/// Clamps a sample to [`SAMPLE_CAP_NS`].
pub open spec fn clamp_sample(v: u64) -> u64 {
    if v > SAMPLE_CAP_NS {
        SAMPLE_CAP_NS
    } else {
        v
    }
}

/// One exponential smoothing step with weight 15/16.
pub open spec fn smooth_step(prev: u64, sample: u64) -> u64 {
    (((15 * prev + sample) / 16) as u64)
}

/// What folding a round-trip sample does to a timer.
pub open spec fn add_ping_spec(t: PredictionTimer, rtt_ns: u64, now_ns: u64) -> PredictionTimer {
    let r = clamp_sample(rtt_ns);
    let dev = if r >= t.smooth_ping {
        ((r - t.smooth_ping) as u64)
    } else {
        ((t.smooth_ping - r) as u64)
    };
    PredictionTimer {
        smooth_ping: smooth_step(t.smooth_ping, r),
        jitter: smooth_step(t.jitter, dev),
        snap_extra: t.snap_extra,
        last_sample_at: now_ns,
    }
}

/// What folding a snapshot timing discrepancy does to a timer.
pub open spec fn add_snap_spec(t: PredictionTimer, time_diff_ns: i64, now_ns: u64) -> PredictionTimer {
    let pos = if time_diff_ns > 0 {
        clamp_sample(time_diff_ns as u64)
    } else {
        0
    };
    PredictionTimer {
        smooth_ping: t.smooth_ping,
        jitter: t.jitter,
        snap_extra: smooth_step(t.snap_extra, pos),
        last_sample_at: now_ns,
    }
}

impl PredictionTimer {
    /// All smoothed fields stay within the sample cap.
    pub open spec fn wf(&self) -> bool {
        self.smooth_ping <= SAMPLE_CAP_NS && self.jitter <= SAMPLE_CAP_NS && self.snap_extra
            <= SAMPLE_CAP_NS
    }

    /// The raw (unclamped) recommended look-ahead of a state.
    pub open spec fn spec_pred_raw(&self) -> int {
        self.smooth_ping + self.jitter / 2 + self.snap_extra
    }

    /// The recommended look-ahead of a state, clamped to [`PRED_MAX_NS`].
    pub open spec fn spec_pred_max(&self) -> u64 {
        if self.spec_pred_raw() > PRED_MAX_NS {
            PRED_MAX_NS
        } else {
            (self.spec_pred_raw() as u64)
        }
    }

    /// Creates the timer at connection establishment from the first
    /// observed ping.
    pub fn new(initial_ping_ns: u64, now_ns: u64) -> (r: Self)
        ensures
            r.wf(),
            r.smooth_ping == clamp_sample(initial_ping_ns),
            r.jitter == 0,
            r.snap_extra == 0,
            r.last_sample_at == now_ns,
    {
        let p = if initial_ping_ns > SAMPLE_CAP_NS {
            SAMPLE_CAP_NS
        } else {
            initial_ping_ns
        };
        PredictionTimer { smooth_ping: p, jitter: 0, snap_extra: 0, last_sample_at: now_ns }
    }

    /// Folds a round-trip sample into the smoothed ping and jitter
    /// estimates.
    pub fn add_ping(&mut self, rtt_ns: u64, now_ns: u64)
        requires
            old(self).wf(),
        ensures
            final(self).wf(),
            *final(self) == add_ping_spec(*old(self), rtt_ns, now_ns),
    {
        let r = if rtt_ns > SAMPLE_CAP_NS {
            SAMPLE_CAP_NS
        } else {
            rtt_ns
        };
        let dev = if r >= self.smooth_ping {
            r - self.smooth_ping
        } else {
            self.smooth_ping - r
        };
        self.smooth_ping = (15 * self.smooth_ping + r) / 16;
        self.jitter = (15 * self.jitter + dev) / 16;
        self.last_sample_at = now_ns;
    }

    /// Folds in the observed discrepancy between the locally expected and
    /// the server-reported timing of a snapshot. Only lateness (a positive
    /// discrepancy, in nanoseconds) widens the offset; an early snapshot
    /// lets the extra offset decay.
    pub fn add_snap(&mut self, time_diff_ns: i64, now_ns: u64)
        requires
            old(self).wf(),
        ensures
            final(self).wf(),
            *final(self) == add_snap_spec(*old(self), time_diff_ns, now_ns),
    {
        let pos: u64 = if time_diff_ns > 0 {
            let d = time_diff_ns as u64;
            if d > SAMPLE_CAP_NS {
                SAMPLE_CAP_NS
            } else {
                d
            }
        } else {
            0
        };
        self.snap_extra = (15 * self.snap_extra + pos) / 16;
        self.last_sample_at = now_ns;
    }

    /// The recommended look-ahead window: smoothed ping plus a jitter and
    /// snapshot-lateness margin, clamped so that it never exceeds a few
    /// seconds' worth of ticks regardless of the tick duration.
    pub fn pred_max_smooth(&self, tick_duration_ns: u64) -> (r: u64)
        requires
            self.wf(),
        ensures
            r == self.spec_pred_max(),
            r <= PRED_MAX_NS,
    {
        let raw = self.smooth_ping + self.jitter / 2 + self.snap_extra;
        if raw > PRED_MAX_NS {
            PRED_MAX_NS
        } else {
            raw
        }
    }

    /// Diagnostic: the smoothed worst-case ping estimate.
    pub fn smooth_max_ping(&self) -> (r: u64)
        requires
            self.wf(),
        ensures
            r == self.smooth_ping + self.jitter,
    {
        self.smooth_ping + self.jitter
    }

    /// Diagnostic: how far ahead jitter alone would push the window.
    pub fn calc_farsight_of_jitter(&self) -> (r: u64)
        requires
            self.wf(),
        ensures
            r == 2 * self.jitter,
    {
        2 * self.jitter
    }

    /// The ping bound used when re-estimating a connection time.
    pub fn ping_max(&self) -> (r: u64)
        requires
            self.wf(),
        ensures
            r == self.smooth_ping + 2 * self.jitter,
    {
        self.smooth_ping + 2 * self.jitter
    }
}

/// A single outlier round-trip sample ten times the smoothed estimate
/// changes the recommended look-ahead by less than a factor of two in one
/// step: folding `10 * smooth_ping` through [`PredictionTimer::add_ping`]
/// leaves `pred_max_smooth` strictly below twice its previous value.
///
/// Stated for estimates of at least 4 nanoseconds: at smaller scales the
/// integer floors of the smoothing steps can swallow the whole margin
/// (with `smooth_ping == 2` and `jitter == 1` the window reaches exactly
/// twice its previous value), and no physical round trip is that short.
pub proof fn lemma_outlier_step_bounded(t: PredictionTimer)
    requires
        t.wf(),
        t.smooth_ping >= 4,
    ensures
        ({
            let folded = clamp_sample((10 * t.smooth_ping) as u64);
            let after = PredictionTimer {
                smooth_ping: smooth_step(t.smooth_ping, folded),
                jitter: smooth_step(t.jitter, ((folded - t.smooth_ping) as u64)),
                snap_extra: t.snap_extra,
                last_sample_at: t.last_sample_at,
            };
            after.spec_pred_max() < 2 * t.spec_pred_max()
        }),
{
    let s = t.smooth_ping as int;
    let j = t.jitter as int;
    let e = t.snap_extra as int;
    let folded = clamp_sample((10 * t.smooth_ping) as u64) as int;
    assert(s <= folded <= 10 * s);
    let dev = folded - s;
    assert(0 <= dev <= 9 * s);
    let after = PredictionTimer {
        smooth_ping: smooth_step(t.smooth_ping, (folded as u64)),
        jitter: smooth_step(t.jitter, (dev as u64)),
        snap_extra: t.snap_extra,
        last_sample_at: t.last_sample_at,
    };
    let s2 = after.smooth_ping as int;
    let j2 = after.jitter as int;
    let a = 15 * j + dev;
    assert(16 * s2 <= 15 * s + folded) by {
        lemma_fundamental_div_mod(15 * s + folded, 16);
    }
    assert(16 * j2 <= a) by {
        lemma_fundamental_div_mod(a, 16);
    }
    let half_j2 = j2 / 2;
    assert(2 * half_j2 <= j2) by {
        lemma_fundamental_div_mod(j2, 2);
    }
    let raw2 = after.spec_pred_raw();
    assert(raw2 == s2 + half_j2 + e);
    // 32 raw2 <= 2 (15 s + folded) + a + 32 e <= 59 s + 15 j + 32 e
    assert(32 * half_j2 <= a);
    assert(32 * raw2 <= 59 * s + 15 * j + 32 * e);
    let q = j / 2;
    assert(j <= 2 * q + 1 && q >= 0) by {
        lemma_fundamental_div_mod(j, 2);
    }
    let raw = t.spec_pred_raw();
    assert(raw == s + q + e);
    // 15 j <= 30 q + 15, and 15 < 5 s since s >= 4
    assert(32 * raw2 <= 59 * s + 30 * q + 15 + 32 * e);
    assert(32 * raw2 < 64 * s + 64 * q + 64 * e);
    assert(raw2 < 2 * raw);
    if raw > PRED_MAX_NS {
        assert(t.spec_pred_max() == PRED_MAX_NS);
        assert(after.spec_pred_max() <= PRED_MAX_NS);
        assert(after.spec_pred_max() < 2 * PRED_MAX_NS);
    } else {
        assert(t.spec_pred_max() == raw);
        assert(after.spec_pred_max() <= raw2);
    }
}

} // verus!
