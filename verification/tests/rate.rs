//! Rate control, driven with real numbers as the program does it: the
//! numbers are floats, the decisions the library's.

use atp_experiment::rate::{
    floor_move, FloorMove, Interval, MaxFilter, PaceClock, RateCore, ReportMeter, Signals,
};

const START: f64 = 100e6 / 8.0;
const MIN: f64 = 5e6 / 8.0;

/// The bits of a float that is not negative are ordered as the float is.
fn key(x: f64) -> u64 {
    assert!(x >= 0.0);
    x.to_bits()
}

struct RateController {
    seg: usize,
    meter: ReportMeter,
    core: RateCore,
    loss: Option<f64>,
    floor: Option<(f64, f64)>,
}

impl RateController {
    fn new(seg: usize, max_rate_mbps: f64) -> Self {
        RateController {
            seg,
            meter: ReportMeter::new(seg),
            core: RateCore::new(key(START), key(MIN), key(max_rate_mbps * 1e6 / 8.0)),
            loss: None,
            floor: None,
        }
    }

    fn rate_bps(&self) -> f64 {
        f64::from_bits(self.core.rate())
    }

    fn on_report(&mut self, pkts: u64, span: Option<u64>, bytes: u64, t_ms: u64) -> Option<f64> {
        let i = self.meter.on_report(pkts, span, bytes, t_ms)?;
        let rate = self.rate_bps();
        let dt = i.dt_ms as f64 / 1e3;
        let raw = (1.0 - i.dpkts as f64 / i.dspan as f64).clamp(0.0, 1.0);
        let delivered = i.dpkts as f64 * self.seg as f64 / dt;
        let sent = i.dbytes as f64 / dt;
        let loss = match self.loss {
            Some(prev) => 0.7 * prev + 0.3 * raw,
            None => raw,
        };
        self.loss = Some(loss);
        let (f, fr) = self.floor.unwrap_or((loss, rate));
        let known = self.floor.map(|(f, _)| key(f));
        let up_to = key(fr * 1.05);
        let gap = loss.min(f + 0.05) - f;
        let moved = match floor_move(known, key(loss), self.core.cooldown(), key(rate), up_to) {
            FloorMove::First => (loss, rate),
            FloorMove::Fall => (f + 0.3 * (loss - f), rate),
            FloorMove::Hold => (f, fr),
            FloorMove::Relax => (f + 0.02 * gap, fr),
            FloorMove::RelaxSlow => (f + 0.004 * gap, fr),
        };
        self.floor = Some(moved);
        let floor = moved.0;
        let max = self.core.observe(t_ms, key(delivered), sent < 0.7 * rate)?;
        let excess = loss - floor;
        let best = f64::from_bits(self.core.best());
        let signals = Signals {
            congested: excess >= 0.05,
            alarming: raw - floor >= 0.15,
            clean: excess <= 0.02,
            saturated: sent >= 0.9 * rate,
            delivered: key(delivered),
            max_delivered: max,
            growth_mark: key(best * 1.10),
            lowered: key(rate * 0.9),
            slow: key(rate * 1.01),
            steady: key(rate * 1.05),
            doubled: key(rate * 2.0),
        };
        self.core.decide(signals).map(f64::from_bits)
    }
}

const SEG: usize = 1224;
const TICK_MS: u64 = 100;

/// Drive the controller against a queueless bottleneck model:
/// `min(rate, bottleneck)` gets through, then loses fraction `p` at
/// random (modeled deterministically). Returns the final rate (Mbit/s).
fn simulate(bottleneck_mbps: f64, p: f64, cap_mbps: f64, ticks: u64) -> f64 {
    let mut c = RateController::new(SEG, cap_mbps);
    let bneck = bottleneck_mbps * 1e6 / 8.0; // bytes/s
    let (mut pkts, mut span, mut bytes) = (0u64, 0u64, 0u64);
    for i in 0..ticks {
        let dt = TICK_MS as f64 / 1e3;
        let sent = c.rate_bps() * dt;
        let sprayed = (sent / SEG as f64) as u64;
        span += sprayed;
        bytes += sprayed * SEG as u64;
        let through = sent.min(bneck * dt);
        let delivered = ((through * (1.0 - p) / SEG as f64) as u64).min(sprayed);
        pkts += delivered;
        c.on_report(pkts, Some(span), bytes, TICK_MS * (i + 1));
    }
    c.rate_bps() * 8.0 / 1e6
}

#[test]
fn converges_to_clean_bottleneck() {
    let r = simulate(500.0, 0.0, 10_000.0, 200);
    assert!(
        (375.0..650.0).contains(&r),
        "converged to {r} Mbit/s, want ≈500"
    );
}

#[test]
fn random_loss_does_not_starve_the_rate() {
    // The demo property: 10% stochastic loss is repair's problem, not
    // the pacer's. The controller must still find the bottleneck.
    let r = simulate(500.0, 0.10, 10_000.0, 200);
    assert!(r > 375.0, "starved to {r} Mbit/s under 10% random loss");
    assert!(r < 650.0, "overshot to {r} Mbit/s");
}

#[test]
fn heavy_loss_uncongested_probes_to_the_cap() {
    // No bottleneck within the cap, 20% loss: rate must reach the cap.
    let r = simulate(1e9, 0.20, 1000.0, 200);
    assert!(r > 800.0, "stopped at {r} Mbit/s, want ≈cap 1000");
}

#[test]
fn no_ratchet_above_a_lossy_bottleneck() {
    // Over a long horizon the rate must stay pinned near the bottleneck: a
    // floor that relaxes toward congestive loss would ratchet it up.
    let r = simulate(500.0, 0.05, 10_000.0, 600);
    assert!(
        r < 625.0,
        "ratcheted to {r} Mbit/s above a 500 Mbit bottleneck"
    );
    assert!(r > 375.0, "starved to {r} Mbit/s");
}

#[test]
fn bursty_loss_does_not_collapse_the_rate() {
    // Burst loss (whole 52-datagram batches dropped at once, about 5% on
    // average) gives intervals without loss; they must not pin the floor to
    // zero, or every burst would read as excess.
    let mut c = RateController::new(SEG, 10_000.0);
    let bneck = 500.0 * 1e6 / 8.0; // bytes/s
    let (mut pkts, mut span, mut bytes) = (0u64, 0u64, 0u64);
    let mut rng: u64 = 0x9e37_79b9_7f4a_7c15;
    let mut unit = || {
        rng ^= rng << 13;
        rng ^= rng >> 7;
        rng ^= rng << 17;
        (rng >> 11) as f64 / (1u64 << 53) as f64
    };
    for i in 0..300u64 {
        let dt = TICK_MS as f64 / 1e3;
        let sent = c.rate_bps() * dt;
        let sprayed = (sent / SEG as f64) as u64;
        span += sprayed;
        bytes += sprayed * SEG as u64;
        let through = (sent.min(bneck * dt) / SEG as f64) as u64;
        // Drop whole 52-packet bursts with 5% probability each.
        let mut delivered = 0u64;
        let mut left = through;
        while left > 0 {
            let burst = left.min(52);
            if unit() >= 0.05 {
                delivered += burst;
            }
            left -= burst;
        }
        pkts += delivered.min(sprayed);
        c.on_report(pkts, Some(span), bytes, TICK_MS * (i + 1));
    }
    let r = c.rate_bps() * 8.0 / 1e6;
    assert!(
        r > 350.0,
        "collapsed to {r} Mbit/s under bursty 5% loss, want ≈500"
    );
    assert!(r < 700.0, "overshot to {r} Mbit/s");
}

#[test]
fn plaintext_fallback_without_span() {
    // span=None uses sent-datagram deltas; same convergence.
    let mut c = RateController::new(SEG, 10_000.0);
    let bneck = 500.0 * 1e6 / 8.0;
    let (mut pkts, mut bytes) = (0u64, 0u64);
    for i in 0..200u64 {
        let dt = TICK_MS as f64 / 1e3;
        let sent = c.rate_bps() * dt;
        let sprayed = (sent / SEG as f64) as u64;
        bytes += sprayed * SEG as u64;
        let through = sent.min(bneck * dt);
        pkts += ((through / SEG as f64) as u64).min(sprayed);
        c.on_report(pkts, None, bytes, TICK_MS * (i + 1));
    }
    let r = c.rate_bps() * 8.0 / 1e6;
    assert!(
        (375.0..650.0).contains(&r),
        "converged to {r} Mbit/s, want ≈500"
    );
}

#[test]
fn app_limited_intervals_make_no_decision() {
    let mut c = RateController::new(SEG, 10_000.0);
    c.on_report(0, Some(0), 0, 0);
    let before = c.rate_bps();
    // Trickle: 10 pkts per 100 ms is far below the pacing rate.
    let mut pkts = 0u64;
    for i in 1..=20u64 {
        pkts += 10;
        let r = c.on_report(pkts, Some(pkts), pkts * SEG as u64, TICK_MS * i);
        assert!(r.is_none(), "app-limited interval changed the rate");
    }
    assert_eq!(c.rate_bps(), before);
}

#[test]
fn intervals_between_reports() {
    let mut m = ReportMeter::new(100);
    assert_eq!(m.on_report(10, Some(20), 2000, 1000), None, "the first only begins one");
    assert_eq!(m.on_report(15, Some(30), 3000, 1049), None, "too short: merged");
    assert_eq!(
        m.on_report(18, Some(32), 3300, 1050),
        Some(Interval { dt_ms: 50, dpkts: 8, dspan: 12, dbytes: 1300 })
    );
    assert_eq!(m.on_report(18, Some(40), 3400, 1200), None, "nothing authenticated");
    assert_eq!(m.on_report(19, Some(40), 3400, 1400), None, "nothing sent");
    assert_eq!(
        m.on_report(29, None, 5000, 1500),
        Some(Interval { dt_ms: 100, dpkts: 10, dspan: 10, dbytes: 1600 }),
        "sent datagrams stand in for the span"
    );
}

#[test]
fn floor_moves() {
    assert_eq!(floor_move(None, 5, 3, 1, 1), FloorMove::First);
    assert_eq!(floor_move(Some(6), 5, 3, 1, 1), FloorMove::Fall);
    assert_eq!(floor_move(Some(5), 5, 3, 1, 1), FloorMove::Hold);
    assert_eq!(floor_move(Some(5), 5, 0, 1, 1), FloorMove::Relax);
    assert_eq!(floor_move(Some(5), 7, 0, 2, 1), FloorMove::RelaxSlow);
}

#[test]
fn the_maximum_forgets() {
    let mut f = MaxFilter::new();
    assert_eq!(f.push(0, 50), 50);
    assert_eq!(f.push(100, 20), 50);
    assert_eq!(f.push(2500, 30), 50, "still in the window");
    assert_eq!(f.push(2501, 10), 30);
    assert_eq!(f.push(u64::MAX, 1), 1);
}

fn calm(rate: u64) -> Signals {
    Signals {
        congested: false,
        alarming: false,
        clean: true,
        saturated: true,
        delivered: rate,
        max_delivered: rate,
        growth_mark: 0,
        lowered: rate - rate / 10,
        slow: rate + 1,
        steady: rate + 5,
        doubled: rate * 2,
    }
}

#[test]
fn startup_doubles_until_delivery_stops_growing() {
    let mut c = RateCore::new(100, 10, 1000);
    assert_eq!(c.decide(calm(100)), Some(200));
    assert_eq!(c.best(), 100);
    assert_eq!(c.decide(calm(200)), Some(400));
    let stuck = Signals { growth_mark: 1000, max_delivered: 250, ..calm(400) };
    assert_eq!(c.decide(stuck), None);
    assert_eq!(c.decide(stuck), None);
    assert_eq!(c.decide(stuck), Some(250), "the third time startup ends");
    assert_eq!(c.decide(calm(250)), Some(255), "steady while clean");
    assert_eq!(c.decide(calm(255)), Some(260));
    assert_eq!(c.decide(Signals { clean: false, ..calm(260) }), Some(261), "slow in between");
    assert_eq!(c.decide(Signals { saturated: false, ..calm(261) }), None);
}

#[test]
fn a_cut_lowers_the_rate_and_is_sat_out() {
    let mut c = RateCore::new(100, 10, 1000);
    let cut = Signals { congested: true, max_delivered: 500, ..calm(100) };
    assert_eq!(c.decide(cut), Some(90), "at least by its least step");
    assert_eq!(c.cooldown(), 3);
    for left in [2, 1, 0] {
        assert_eq!(c.observe(1, 1, false), None);
        assert_eq!(c.cooldown(), left);
    }
    assert_eq!(c.observe(2, 7, true), None, "the sender held back");
    assert_eq!(c.observe(3, 7, false), Some(7));
    let low = Signals { congested: true, max_delivered: 1, ..calm(90) };
    assert_eq!(c.decide(low), Some(10), "never below the minimum");
    let again = Signals { congested: true, max_delivered: 1, ..calm(10) };
    assert_eq!(c.decide(again), None);
}

#[test]
fn startup_aborts_on_alarm() {
    let mut c = RateCore::new(100, 10, 1000);
    let alarm = Signals { alarming: true, max_delivered: 60, ..calm(100) };
    assert_eq!(c.decide(alarm), Some(60));
    let later = Signals { alarming: true, ..calm(60) };
    assert_eq!(c.decide(later), Some(65), "no alarm after startup");
}

#[test]
fn rates_keep_to_their_bounds() {
    let c = RateCore::new(100, 10, 50);
    assert_eq!(c.rate(), 50);
    let c = RateCore::new(100, 10, 5);
    assert_eq!(c.rate(), 10);
    let mut c = RateCore::new(100, 10, 150);
    assert_eq!(c.decide(calm(100)), Some(150));
    assert_eq!(c.decide(calm(150)), None, "at the cap");
}

#[test]
fn pacing_allows_a_small_burst() {
    const MS: u64 = 1_000_000;
    let mut c = PaceClock::new();
    let t0 = 1000 * MS;
    assert_eq!(c.pace(t0, Some(2 * MS)), 2 * MS);
    assert_eq!(c.pace(t0 + 2 * MS, Some(2 * MS)), 2 * MS);
    // Four milliseconds behind: two sends catch up.
    assert_eq!(c.pace(t0 + 8 * MS, Some(2 * MS)), 0);
    assert_eq!(c.pace(t0 + 8 * MS, Some(2 * MS)), 0);
    assert_eq!(c.pace(t0 + 8 * MS, Some(2 * MS)), 2 * MS);
    // After a long idle time no more than ten milliseconds are caught up.
    let t1 = t0 + 5000 * MS;
    assert_eq!(c.pace(t1, Some(8 * MS)), 0);
    assert_eq!(c.pace(t1, Some(8 * MS)), 6 * MS);
    assert!(c.can_pace(t1, Some(1)));
    assert!(!c.can_pace(t1, Some(u64::MAX)));
}

#[test]
fn clean_intervals_drift_up_by_five_percent() {
    // A thousand datagrams of 1240 bytes arrive in each tenth of a second,
    // and none is lost.
    let mut c = RateController::new(1240, 1000.0);
    let mut bytes = 0u64;
    let mut report = |c: &mut RateController, i: u64| {
        bytes += (c.rate_bps() * 0.1) as u64;
        c.on_report(i * 1000, Some(i * 1000), bytes, i * 100)
    };
    assert_eq!(report(&mut c, 1), None);
    assert_eq!(report(&mut c, 2), Some(2.0 * START));
    assert_eq!(report(&mut c, 3), None);
    assert_eq!(report(&mut c, 4), None);
    assert_eq!(report(&mut c, 5), Some(12.4e6), "startup ends at what was delivered");
    let mut rate = 12.4e6;
    for i in 6..40 {
        rate *= 1.05;
        assert_eq!(report(&mut c, i), Some(rate));
    }
}

#[test]
fn a_run_keeps_its_pace() {
    // Sends of three milliseconds each at uneven times, with one long rest.
    let ms = 1_000_000u64;
    let mut clock = PaceClock::new();
    let start = 1000 * ms;
    let mut now = start;
    let mut total = 0u64;
    for i in 0..40u64 {
        if i == 20 {
            now += 500 * ms;
        }
        assert!(clock.can_pace(now, Some(3 * ms)));
        let wait = clock.pace(now, Some(3 * ms));
        now += wait;
        total += 3 * ms;
        assert!(total <= now - start + 10 * ms);
        now += i % 5 * ms;
    }
    assert_eq!(total, 120 * ms);
}

#[test]
fn a_run_of_decisions_stays_in_bounds() {
    let mut c = RateCore::new(100, 10, 1000);
    for i in 0..200u64 {
        let rate = c.rate();
        if c.observe(i * 100, i * 37 % 900, i % 11 == 0).is_some() {
            let s = Signals {
                congested: i % 7 == 0,
                alarming: i % 13 == 0,
                clean: i % 3 != 0,
                max_delivered: i * 53 % 2000,
                ..calm(rate)
            };
            let _ = c.decide(s);
        }
        assert!((10..=1000).contains(&c.rate()));
    }
}

#[test]
fn without_a_rate_nothing_waits() {
    let mut clock = PaceClock::new();
    for now in [0, 5, u64::MAX] {
        assert!(clock.can_pace(now, None));
        assert_eq!(clock.pace(now, None), 0);
    }
    // Nothing was accounted for: the next send is the clock's first.
    assert_eq!(clock.pace(7, Some(3)), 3);
    assert_eq!(clock.pace(8, None), 0);
    assert_eq!(clock.pace(10, Some(3)), 3);
}

#[test]
fn a_run_keeps_its_rate() {
    // 1250 bytes at a million bytes a second take 1.25 ms each.
    let mut clock = PaceClock::new();
    let start = 1_000_000_000u64;
    let mut now = start;
    for n in 1..=100u64 {
        now += clock.pace(now, Some(1_250_000));
        assert!(n * 1250 * 1_000_000_000 <= 1_000_000 * (now - start + 10_000_000 + n));
    }
    assert_eq!(now - start, 125_000_000);
}
