//! Decisions of the send-rate control.
//!
//! The rates, loss ratios and their products are floating-point numbers and
//! are computed by the program. What is decided about them is here: which
//! reports make an interval, how the loss floor moves, the windowed maximum
//! of the delivered rate, and what becomes of the pacing rate. Numbers come
//! in as keys: integers that are ordered as the numbers are. (The bits of a
//! float that is not negative are such a key.)
//!
//! Loss itself is no reason to slow down: repair takes care of it. The rate
//! is cut only on loss in excess of the link's own floor, which is what
//! congestion looks like.

use std::collections::VecDeque;
use vstd::prelude::*;
use crate::send::less;

verus! {

/// Reports closer together than this, in milliseconds, are merged.
pub const MIN_SAMPLE_MS: u64 = 50;

/// Window of the delivered-rate maximum, in milliseconds of the receiver's
/// clock.
pub const DELIVERED_WINDOW_MS: u64 = 2500;

/// Reports to sit out after a cut: they still reflect the old rate.
pub const CUT_COOLDOWN: u32 = 3;

/// Startup ends after this many reports without growth.
pub const STARTUP_STAGNANT_EXIT: u32 = 3;

/// Send time that may be caught up in one burst, in nanoseconds.
pub const MAX_BURST_NS: u64 = 10_000_000;

/// A receiver report: datagrams authenticated, sequence span, bytes sent, and
/// the receiver's clock.
#[derive(Debug, Clone, Copy, PartialEq, Eq, Structural)]
pub struct Snap {
    pub pkts: u64,
    pub span: u64,
    pub bytes: u64,
    pub t_ms: u64,
}

/// What changed between two reports.
#[derive(Debug, Clone, Copy, PartialEq, Eq, Structural)]
pub struct Interval {
    pub dt_ms: u64,
    pub dpkts: u64,
    pub dspan: u64,
    pub dbytes: u64,
}

/// Where an interval begins after a report, and the interval that the report
/// ends, if it ends one.
pub open spec fn metered(
    seg: usize,
    last: Option<Snap>,
    pkts: u64,
    span: Option<u64>,
    bytes_sent: u64,
    t_ms: u64,
) -> (Option<Snap>, Option<Interval>) {
    let covered = match span {
        Some(n) => n,
        None => (bytes_sent as nat / seg as nat) as u64,
    };
    let now = Snap { pkts, span: covered, bytes: bytes_sent, t_ms };
    match last {
        None => (Some(now), None),
        Some(l) => if less(t_ms, l.t_ms) < MIN_SAMPLE_MS {
            (last, None)
        } else {
            let i = Interval {
                dt_ms: less(t_ms, l.t_ms),
                dpkts: less(pkts, l.pkts),
                dspan: less(covered, l.span),
                dbytes: less(bytes_sent, l.bytes),
            };
            (
                Some(now),
                if i.dspan == 0 || i.dpkts == 0 {
                    None
                } else {
                    Some(i)
                },
            )
        },
    }
}

/// A report ends an interval exactly where it comes 50 milliseconds or more
/// after the one that began it, and datagrams were both sent and
/// authenticated since. The interval then reaches from that report to this
/// one: what it counts, with what was counted at its beginning, is what is
/// counted now. A report that comes too early changes nothing; after any other
/// the next interval begins here.
pub proof fn law_intervals_reach_from_report_to_report(
    seg: usize,
    last: Option<Snap>,
    pkts: u64,
    span: u64,
    bytes_sent: u64,
    t_ms: u64,
)
    requires
        seg > 0,
    ensures
        ({
            let (next, interval) = metered(seg, last, pkts, Some(span), bytes_sent, t_ms);
            let now = Snap { pkts, span, bytes: bytes_sent, t_ms };
            &&& last is None ==> next == Some(now) && interval is None
            &&& last matches Some(l) ==> {
                &&& t_ms < l.t_ms + 50 ==> next == last && interval is None
                &&& t_ms >= l.t_ms + 50 ==> next == Some(now)
                &&& interval is Some <==> t_ms >= l.t_ms + 50 && pkts > l.pkts && span > l.span
                &&& interval matches Some(i) ==> {
                    &&& l.t_ms + i.dt_ms == t_ms
                    &&& l.pkts + i.dpkts == pkts
                    &&& l.span + i.dspan == span
                    &&& bytes_sent >= l.bytes ==> l.bytes + i.dbytes == bytes_sent
                    &&& bytes_sent < l.bytes ==> i.dbytes == 0
                }
            }
        }),
{
}

/// Without a span the whole datagrams among the bytes sent stand in for it.
pub proof fn law_sent_datagrams_stand_in_for_the_span(
    seg: usize,
    last: Option<Snap>,
    pkts: u64,
    sent: u64,
    bytes_sent: u64,
    t_ms: u64,
)
    requires
        seg > 0,
        sent * seg <= bytes_sent < sent * seg + seg,
    ensures
        metered(seg, last, pkts, None, bytes_sent, t_ms) == metered(
            seg,
            last,
            pkts,
            Some(sent),
            bytes_sent,
            t_ms,
        ),
{
    vstd::arithmetic::div_mod::lemma_fundamental_div_mod_converse(
        bytes_sent as int,
        seg as int,
        sent as int,
        bytes_sent - sent * seg,
    );
    assert(seg * sent == sent * seg) by (nonlinear_arith);
}

/// Cuts the receiver's cumulative reports into intervals.
pub struct ReportMeter {
    seg: usize,
    last: Option<Snap>,
}

impl ReportMeter {
    /// Bytes in one datagram.
    pub closed spec fn seg(self) -> usize {
        self.seg
    }

    /// The report at which the current interval began.
    pub closed spec fn last(self) -> Option<Snap> {
        self.last
    }

    /// No report yet; `seg` is the size of one datagram.
    pub fn new(seg: usize) -> (m: Self)
        requires
            seg > 0,
        ensures
            m.seg() == seg,
            m.last() is None,
    {
        ReportMeter { seg, last: None }
    }

    /// Take a report. A plaintext plane has no span; the datagrams sent stand
    /// in for it. Gives the interval since the last report, unless that is
    /// too short, or nothing was sent or authenticated in it.
    pub fn on_report(
        &mut self,
        pkts: u64,
        span: Option<u64>,
        bytes_sent: u64,
        t_ms: u64,
    ) -> (r: Option<Interval>)
        requires
            old(self).seg() > 0,
        ensures
            final(self).seg() == old(self).seg(),
            (final(self).last(), r) == metered(
                old(self).seg(),
                old(self).last(),
                pkts,
                span,
                bytes_sent,
                t_ms,
            ),
            ({
                let now = Snap {
                    pkts,
                    span: match span {
                        Some(n) => n,
                        None => (bytes_sent as nat / old(self).seg() as nat) as u64,
                    },
                    bytes: bytes_sent,
                    t_ms,
                };
                match old(self).last() {
                    None => final(self).last() == Some(now) && r is None,
                    Some(last) => if less(t_ms, last.t_ms) < MIN_SAMPLE_MS {
                        final(self).last() == Some(last) && r is None
                    } else {
                        let i = Interval {
                            dt_ms: less(t_ms, last.t_ms),
                            dpkts: less(pkts, last.pkts),
                            dspan: less(now.span, last.span),
                            dbytes: less(bytes_sent, last.bytes),
                        };
                        &&& final(self).last() == Some(now)
                        &&& r == if i.dspan == 0 || i.dpkts == 0 {
                            None
                        } else {
                            Some(i)
                        }
                    },
                }
            }),
    {
        let covered: u64 = match span {
            Some(n) => n,
            None => bytes_sent / self.seg as u64,
        };
        let now = Snap { pkts, span: covered, bytes: bytes_sent, t_ms };
        match self.last {
            None => {
                self.last = Some(now);
                None
            },
            Some(last) => {
                let dt_ms: u64 = t_ms.saturating_sub(last.t_ms);
                if dt_ms < MIN_SAMPLE_MS {
                    return None;
                }
                let dpkts: u64 = pkts.saturating_sub(last.pkts);
                let dspan: u64 = covered.saturating_sub(last.span);
                let dbytes: u64 = bytes_sent.saturating_sub(last.bytes);
                self.last = Some(now);
                if dspan == 0 || dpkts == 0 {
                    return None;
                }
                Some(Interval { dt_ms, dpkts, dspan, dbytes })
            },
        }
    }
}

/// How the loss floor moves.
#[derive(Debug, Clone, Copy, PartialEq, Eq, Structural)]
pub enum FloorMove {
    /// The first sample is the floor.
    First,
    /// A cleaner sample: down towards it, measured at the current rate.
    Fall,
    /// A worse sample while a cut drains: no move.
    Hold,
    /// A worse sample at the rate at which the floor was measured: the link
    /// itself got worse, so up towards it.
    Relax,
    /// A worse sample at a higher rate, which is presumed congestion: up
    /// towards it, but much slower.
    RelaxSlow,
}

/// How the loss floor moves.
pub open spec fn floor_moved(
    floor: Option<u64>,
    loss: u64,
    cooldown: u32,
    rate: u64,
    measured_up_to: u64,
) -> FloorMove {
    match floor {
        None => FloorMove::First,
        Some(f) => if loss < f {
            FloorMove::Fall
        } else if cooldown > 0 {
            FloorMove::Hold
        } else if rate <= measured_up_to {
            FloorMove::Relax
        } else {
            FloorMove::RelaxSlow
        },
    }
}

/// The loss floor falls on every cleaner sample and on no other, whatever the
/// rate and even while a cut is sat out. It rises on no sample while a cut is
/// sat out; otherwise on every other sample, by the slow step exactly where the
/// rate is above that at which it was measured.
pub proof fn law_the_floor_follows_cleaner_samples(
    floor: u64,
    loss: u64,
    cooldown: u32,
    rate: u64,
    measured_up_to: u64,
)
    ensures
        ({
            let m = floor_moved(Some(floor), loss, cooldown, rate, measured_up_to);
            &&& m is Fall <==> loss < floor
            &&& m is Relax || m is RelaxSlow <==> loss >= floor && cooldown == 0
            &&& m is RelaxSlow ==> rate > measured_up_to
            &&& m is Relax ==> rate <= measured_up_to
            &&& m is Hold <==> loss >= floor && cooldown > 0
            &&& !(m is First)
        }),
        floor_moved(None, loss, cooldown, rate, measured_up_to) is First,
{
}

/// How the loss floor moves on a smoothed loss, given the floor so far, the
/// reports still to sit out, the current rate, and the rate up to which the
/// floor's measurement holds.
pub fn floor_move(
    floor: Option<u64>,
    loss: u64,
    cooldown: u32,
    rate: u64,
    measured_up_to: u64,
) -> (m: FloorMove)
    ensures
        m == floor_moved(floor, loss, cooldown, rate, measured_up_to),
        m == match floor {
            None => FloorMove::First,
            Some(f) => if loss < f {
                FloorMove::Fall
            } else if cooldown > 0 {
                FloorMove::Hold
            } else if rate <= measured_up_to {
                FloorMove::Relax
            } else {
                FloorMove::RelaxSlow
            },
        },
{
    match floor {
        None => FloorMove::First,
        Some(f) => {
            if loss < f {
                FloorMove::Fall
            } else if cooldown > 0 {
                FloorMove::Hold
            } else if rate <= measured_up_to {
                FloorMove::Relax
            } else {
                FloorMove::RelaxSlow
            }
        },
    }
}

/// The larger of two numbers.
pub open spec fn larger(a: u64, b: u64) -> u64 {
    if a >= b {
        a
    } else {
        b
    }
}

/// The smaller of two numbers.
pub open spec fn smaller(a: u64, b: u64) -> u64 {
    if a <= b {
        a
    } else {
        b
    }
}

/// `x`, or the bound that it is beyond.
pub open spec fn clamped(x: u64, low: u64, high: u64) -> u64 {
    if x < low {
        low
    } else if x > high {
        high
    } else {
        x
    }
}

/// The largest of the samples, or zero.
pub open spec fn largest(samples: Seq<(u64, u64)>) -> u64
    decreases samples.len(),
{
    if samples.len() == 0 {
        0
    } else {
        larger(largest(samples.drop_last()), samples.last().1)
    }
}

/// A sample has left the window at `t_ms`.
pub open spec fn stale(sample: (u64, u64), t_ms: u64) -> bool {
    sample.0 + DELIVERED_WINDOW_MS < t_ms
}

/// The samples without the oldest ones that have left the window.
pub open spec fn pruned(samples: Seq<(u64, u64)>, t_ms: u64) -> Seq<(u64, u64)>
    decreases samples.len(),
{
    if samples.len() > 0 && stale(samples[0], t_ms) {
        pruned(samples.drop_first(), t_ms)
    } else {
        samples
    }
}

/// Whether a sample taken at `t` has left the window at `t_ms`.
fn has_left(t: u64, t_ms: u64) -> (r: bool)
    ensures
        r == (t + DELIVERED_WINDOW_MS < t_ms),
{
    t < t_ms && t_ms - t > DELIVERED_WINDOW_MS
}

/// Maximum of the delivered rate over a window.
pub struct MaxFilter {
    samples: VecDeque<(u64, u64)>,
}

impl View for MaxFilter {
    type V = Seq<(u64, u64)>;

    closed spec fn view(&self) -> Seq<(u64, u64)> {
        self.samples@
    }
}

impl MaxFilter {
    /// No sample yet.
    pub fn new() -> (f: Self)
        ensures
            f@ == Seq::<(u64, u64)>::empty(),
    {
        MaxFilter { samples: VecDeque::new() }
    }

    /// Take a sample, forget those that have left the window, and give the
    /// largest that is left.
    pub fn push(&mut self, t_ms: u64, delivered: u64) -> (m: u64)
        ensures
            final(self)@ == pruned(old(self)@.push((t_ms, delivered)), t_ms),
            m == largest(final(self)@),
    {
        self.samples.push_back((t_ms, delivered));
        let ghost all = self.samples@;
        while self.samples.len() > 0 && has_left(self.samples[0].0, t_ms)
            invariant
                pruned(all, t_ms) == pruned(self.samples@, t_ms),
            decreases self.samples@.len(),
        {
            let ghost before = self.samples@;
            let _ = self.samples.pop_front();
            assert(self.samples@ =~= before.drop_first());
        }
        let n: usize = self.samples.len();
        let mut m: u64 = 0;
        let mut i: usize = 0;
        assert(self.samples@.subrange(0, 0) =~= Seq::<(u64, u64)>::empty());
        while i < n
            invariant
                n == self.samples@.len(),
                i <= n,
                m == largest(self.samples@.subrange(0, i as int)),
            decreases n - i,
        {
            let d: u64 = self.samples[i].1;
            proof {
                let s = self.samples@.subrange(0, i + 1);
                assert(s.drop_last() =~= self.samples@.subrange(0, i as int));
            }
            if d > m {
                m = d;
            }
            i = i + 1;
        }
        assert(self.samples@.subrange(0, n as int) =~= self.samples@);
        m
    }
}

/// What the program measured and computed for one decision.
#[derive(Debug, Clone, Copy, PartialEq, Eq, Structural)]
pub struct Signals {
    /// Smoothed loss exceeds the floor by as much as congestion does.
    pub congested: bool,
    /// The interval's own loss exceeds the floor by so much that startup
    /// should not wait for the smoothed loss.
    pub alarming: bool,
    /// Smoothed loss exceeds the floor by next to nothing.
    pub clean: bool,
    /// The interval saturated the pacing rate.
    pub saturated: bool,
    /// Rate delivered in the interval.
    pub delivered: u64,
    /// Largest rate delivered in the window.
    pub max_delivered: u64,
    /// What the delivered rate must exceed to count as growth in startup.
    pub growth_mark: u64,
    /// The current rate lowered by the least that a cut takes off.
    pub lowered: u64,
    /// The current rate raised by the slow, the steady and the startup step.
    pub slow: u64,
    pub steady: u64,
    pub doubled: u64,
}

/// What the rate control stands for.
#[verifier::ext_equal]
pub struct RateView {
    pub rate: u64,
    pub min: u64,
    pub max: u64,
    pub startup: bool,
    pub best: u64,
    pub stagnant: u32,
    pub cooldown: u32,
    pub window: Seq<(u64, u64)>,
}

impl RateView {
    /// The rate is within its bounds, and startup has not stagnated for so
    /// long that it should have ended.
    pub open spec fn wf(self) -> bool {
        &&& self.min <= self.rate <= self.max
        &&& self.startup ==> self.stagnant < STARTUP_STAGNANT_EXIT
        &&& self.cooldown <= CUT_COOLDOWN
    }

    /// The raised rates are not below the current one, the lowered one not
    /// above it.
    pub open spec fn fits(self, s: Signals) -> bool {
        &&& s.lowered <= self.rate
        &&& self.rate <= s.slow
        &&& self.rate <= s.steady
        &&& self.rate <= s.doubled
    }

    /// Rate control that has seen nothing.
    pub open spec fn fresh(start: u64, min: u64, cap: u64) -> RateView {
        RateView {
            rate: smaller(start, larger(cap, min)),
            min,
            max: larger(cap, min),
            startup: true,
            best: 0,
            stagnant: 0,
            cooldown: 0,
            window: Seq::empty(),
        }
    }

    /// The rate control after it took an interval's delivered rate.
    pub open spec fn observed(self, t_ms: u64, delivered: u64, app_limited: bool) -> RateView {
        if app_limited {
            self
        } else {
            RateView {
                window: pruned(self.window.push((t_ms, delivered)), t_ms),
                cooldown: if self.cooldown > 0 {
                    (self.cooldown - 1) as u32
                } else {
                    0
                },
                ..self
            }
        }
    }

    /// The largest delivered rate, if a decision is due after an interval.
    pub open spec fn due(self, t_ms: u64, delivered: u64, app_limited: bool) -> Option<u64> {
        if app_limited || self.cooldown > 0 {
            None
        } else {
            Some(largest(self.observed(t_ms, delivered, app_limited).window))
        }
    }

    /// The decision is a cut.
    pub open spec fn cuts(self, s: Signals) -> bool {
        s.congested || (self.startup && s.alarming)
    }

    /// The rate control after a decision.
    pub open spec fn decided(self, s: Signals) -> RateView {
        if self.cuts(s) {
            RateView {
                startup: false,
                rate: clamped(s.max_delivered, self.min, larger(s.lowered, self.min)),
                cooldown: CUT_COOLDOWN,
                ..self
            }
        } else if !s.saturated {
            self
        } else if self.startup {
            if !s.clean {
                self
            } else if s.delivered > s.growth_mark {
                RateView {
                    best: s.delivered,
                    stagnant: 0,
                    rate: smaller(s.doubled, self.max),
                    ..self
                }
            } else if self.stagnant + 1 < STARTUP_STAGNANT_EXIT {
                RateView { stagnant: (self.stagnant + 1) as u32, ..self }
            } else {
                RateView {
                    stagnant: (self.stagnant + 1) as u32,
                    startup: false,
                    rate: clamped(s.max_delivered, self.min, larger(self.rate, self.min)),
                    ..self
                }
            }
        } else if s.clean {
            RateView { rate: smaller(s.steady, self.max), ..self }
        } else {
            RateView { rate: smaller(s.slow, self.max), ..self }
        }
    }
}

/// The adaptive rate control's state.
pub struct RateCore {
    rate: u64,
    min: u64,
    max: u64,
    startup: bool,
    best: u64,
    stagnant: u32,
    cooldown: u32,
    window: MaxFilter,
}

impl View for RateCore {
    type V = RateView;

    closed spec fn view(&self) -> RateView {
        RateView {
            rate: self.rate,
            min: self.min,
            max: self.max,
            startup: self.startup,
            best: self.best,
            stagnant: self.stagnant,
            cooldown: self.cooldown,
            window: self.window@,
        }
    }
}

impl RateCore {
    /// Rate control that starts at `start` and stays between `min` and `cap`,
    /// or at `min` where `cap` is below it.
    pub fn new(start: u64, min: u64, cap: u64) -> (c: Self)
        requires
            min <= start,
        ensures
            c@.wf(),
            c@ == RateView::fresh(start, min, cap),
    {
        let max: u64 = if cap >= min {
            cap
        } else {
            min
        };
        let rate: u64 = if start <= max {
            start
        } else {
            max
        };
        RateCore {
            rate,
            min,
            max,
            startup: true,
            best: 0,
            stagnant: 0,
            cooldown: 0,
            window: MaxFilter::new(),
        }
    }

    /// Take the delivered rate of an interval. Gives the largest in the
    /// window if a decision is due: not for an interval in which the sender
    /// itself held back, nor while reports are sat out after a cut.
    pub fn observe(&mut self, t_ms: u64, delivered: u64, app_limited: bool) -> (r: Option<u64>)
        requires
            old(self)@.wf(),
        ensures
            final(self)@.wf(),
            final(self)@ == old(self)@.observed(t_ms, delivered, app_limited),
            r == if app_limited || old(self)@.cooldown > 0 {
                None
            } else {
                Some(largest(final(self)@.window))
            },
            r == old(self)@.due(t_ms, delivered, app_limited),
    {
        if app_limited {
            return None;
        }
        let m: u64 = self.window.push(t_ms, delivered);
        if self.cooldown > 0 {
            self.cooldown = self.cooldown - 1;
            return None;
        }
        Some(m)
    }

    /// Decide on the rate. Gives the new rate if it changed.
    pub fn decide(&mut self, s: Signals) -> (r: Option<u64>)
        requires
            old(self)@.wf(),
            old(self)@.fits(s),
        ensures
            final(self)@.wf(),
            final(self)@ == old(self)@.decided(s),
            r == if final(self)@.rate != old(self)@.rate {
                Some(final(self)@.rate)
            } else {
                None
            },
    {
        let before: u64 = self.rate;
        if s.congested || (self.startup && s.alarming) {
            self.startup = false;
            let ceiling: u64 = if s.lowered >= self.min {
                s.lowered
            } else {
                self.min
            };
            self.rate = clamp(s.max_delivered, self.min, ceiling);
            self.cooldown = CUT_COOLDOWN;
        } else if s.clean && s.saturated {
            if self.startup {
                if s.delivered > s.growth_mark {
                    self.best = s.delivered;
                    self.stagnant = 0;
                    self.rate = at_most(s.doubled, self.max);
                } else {
                    self.stagnant = self.stagnant + 1;
                    if self.stagnant >= STARTUP_STAGNANT_EXIT {
                        self.startup = false;
                        let ceiling: u64 = if self.rate >= self.min {
                            self.rate
                        } else {
                            self.min
                        };
                        self.rate = clamp(s.max_delivered, self.min, ceiling);
                    }
                }
            } else {
                self.rate = at_most(s.steady, self.max);
            }
        } else if !self.startup && s.saturated {
            self.rate = at_most(s.slow, self.max);
        }
        if self.rate != before {
            Some(self.rate)
        } else {
            None
        }
    }

    /// The current rate.
    pub fn rate(&self) -> (r: u64)
        ensures
            r == self@.rate,
    {
        self.rate
    }

    /// The best rate delivered in startup.
    pub fn best(&self) -> (r: u64)
        ensures
            r == self@.best,
    {
        self.best
    }

    /// The reports still to sit out.
    pub fn cooldown(&self) -> (n: u32)
        ensures
            n == self@.cooldown,
    {
        self.cooldown
    }
}

/// `x`, or the bound that it is beyond.
fn clamp(x: u64, low: u64, high: u64) -> (r: u64)
    ensures
        r == clamped(x, low, high),
{
    if x < low {
        low
    } else if x > high {
        high
    } else {
        x
    }
}

/// The smaller of two numbers.
fn at_most(x: u64, high: u64) -> (r: u64)
    ensures
        r == smaller(x, high),
{
    if x <= high {
        x
    } else {
        high
    }
}

/// The windowed maximum is not below any sample that is still in the window,
/// and is one of them unless there is none above zero.
pub proof fn law_largest_is_the_maximum(samples: Seq<(u64, u64)>)
    ensures
        forall|i: int| 0 <= i < samples.len() ==> (#[trigger] samples[i]).1 <= largest(samples),
        largest(samples) > 0 ==> exists|i: int|
            0 <= i < samples.len() && (#[trigger] samples[i]).1 == largest(samples),
    decreases samples.len(),
{
    if samples.len() > 0 {
        let front = samples.drop_last();
        law_largest_is_the_maximum(front);
        assert forall|i: int| 0 <= i < samples.len() implies (#[trigger] samples[i]).1 <= largest(
            samples,
        ) by {
            if i < front.len() {
                assert(front[i] == samples[i]);
            }
        }
        if largest(samples) > 0 {
            if largest(samples) == samples.last().1 {
                assert(samples[samples.len() - 1].1 == largest(samples));
            } else {
                let i = choose|i: int|
                    0 <= i < front.len() && (#[trigger] front[i]).1 == largest(front);
                assert(samples[i].1 == largest(samples));
            }
        }
    }
}

/// The window forgets from its front only what is more than 2500 milliseconds
/// old, and stops at the first sample that is not. The newest sample is never
/// forgotten.
pub proof fn law_the_window_forgets_what_is_old(samples: Seq<(u64, u64)>, t_ms: u64)
    ensures
        ({
            let kept = pruned(samples, t_ms);
            let gone = samples.len() - kept.len();
            &&& 0 <= gone
            &&& kept == samples.skip(gone)
            &&& forall|i: int| 0 <= i < gone ==> (#[trigger] samples[i]).0 + 2500 < t_ms
            &&& kept.len() > 0 ==> kept[0].0 + 2500 >= t_ms
        }),
    decreases samples.len(),
{
    if samples.len() > 0 && stale(samples[0], t_ms) {
        let rest = samples.drop_first();
        law_the_window_forgets_what_is_old(rest, t_ms);
        let kept = pruned(samples, t_ms);
        let gone = samples.len() - kept.len();
        assert(rest.skip(gone - 1) =~= samples.skip(gone));
        assert forall|i: int| 0 <= i < gone implies (#[trigger] samples[i]).0 + 2500 < t_ms by {
            if i > 0 {
                assert(samples[i] == rest[i - 1]);
            }
        }
    } else {
        assert(samples.skip(0) =~= samples);
    }
}

/// The windowed maximum, said of the samples themselves: where they were taken
/// in the order of their times, the answer after one more is not below any
/// sample of the last 2500 milliseconds, this one included, and is one of
/// them, unless all are zero.
pub proof fn law_the_maximum_is_of_the_last_samples(
    samples: Seq<(u64, u64)>,
    t_ms: u64,
    delivered: u64,
)
    requires
        forall|i: int, j: int|
            0 <= i < j < samples.len() ==> (#[trigger] samples[i]).0 <= (#[trigger] samples[j]).0,
        forall|i: int| 0 <= i < samples.len() ==> (#[trigger] samples[i]).0 <= t_ms,
    ensures
        ({
            let all = samples.push((t_ms, delivered));
            let m = largest(pruned(all, t_ms));
            &&& m >= delivered
            &&& forall|i: int|
                0 <= i < all.len() && (#[trigger] all[i]).0 + 2500 >= t_ms ==> all[i].1 <= m
            &&& m > 0 ==> exists|i: int|
                0 <= i < all.len() && (#[trigger] all[i]).0 + 2500 >= t_ms && all[i].1 == m
        }),
{
    let all = samples.push((t_ms, delivered));
    let kept = pruned(all, t_ms);
    let gone = all.len() - kept.len();
    law_the_window_forgets_what_is_old(all, t_ms);
    law_largest_is_the_maximum(kept);
    let m = largest(kept);
    assert forall|i: int|
        0 <= i < all.len() && (#[trigger] all[i]).0 + 2500 >= t_ms implies all[i].1 <= m by {
        assert(i >= gone);
        assert(kept[i - gone] == all[i]);
    }
    assert(all[samples.len() as int].1 <= m);
    if m > 0 {
        let k = choose|k: int| 0 <= k < kept.len() && (#[trigger] kept[k]).1 == m;
        assert(all[k + gone] == kept[k]);
        assert(kept[0] == all[gone as int]);
        assert(all[gone as int].0 <= all[k + gone].0);
        assert(all[k + gone].0 + 2500 >= t_ms);
    }
}

/// An interval in which the sender held back changes nothing and makes no
/// decision due. Any other enters the window; while a cut is sat out it counts
/// towards that, and otherwise a decision is due. Nothing else changes.
pub proof fn law_observing_sits_out_and_decides(
    v: RateView,
    t_ms: u64,
    delivered: u64,
    app_limited: bool,
)
    ensures
        ({
            let w = v.observed(t_ms, delivered, app_limited);
            let due = v.due(t_ms, delivered, app_limited);
            &&& app_limited ==> w == v && due is None
            &&& !app_limited ==> {
                &&& due is Some <==> v.cooldown == 0
                &&& v.cooldown > 0 ==> w.cooldown == v.cooldown - 1
                &&& v.cooldown == 0 ==> w.cooldown == 0
                &&& w.window == pruned(v.window.push((t_ms, delivered)), t_ms)
                &&& due matches Some(m) ==> m == largest(w.window) && m >= delivered
            }
            &&& w.rate == v.rate && w.min == v.min && w.max == v.max
            &&& w.startup == v.startup && w.best == v.best && w.stagnant == v.stagnant
        }),
{
    let all = v.window.push((t_ms, delivered));
    let kept = pruned(all, t_ms);
    law_the_window_forgets_what_is_old(all, t_ms);
    law_largest_is_the_maximum(kept);
    let gone = all.len() - kept.len();
    assert(gone < all.len()) by {
        if gone == all.len() {
            assert(all[v.window.len() as int].0 + 2500 < t_ms);
        }
    }
    assert(kept[kept.len() - 1] == all[all.len() - 1]);
}

/// After a cut exactly the next three intervals in which the sender did not
/// hold back are sat out, whatever they bring; then decisions are due again.
pub proof fn law_three_intervals_are_sat_out(
    v: RateView,
    s: Signals,
    a: (u64, u64),
    b: (u64, u64),
    c: (u64, u64),
    d: (u64, u64),
)
    requires
        s.congested || (v.startup && s.alarming),
    ensures
        ({
            let v0 = v.decided(s);
            let v1 = v0.observed(a.0, a.1, false);
            let v2 = v1.observed(b.0, b.1, false);
            let v3 = v2.observed(c.0, c.1, false);
            &&& v0.due(a.0, a.1, false) is None
            &&& v1.due(b.0, b.1, false) is None
            &&& v2.due(c.0, c.1, false) is None
            &&& v3.due(d.0, d.1, false) is Some
        }),
{
}

/// Congestion cuts, in startup and after it, and so does an alarming interval
/// in startup; nothing else does. A cut lands on the delivered rate: the new
/// rate is that rate wherever it lies between the minimum and the lowered rate;
/// it is above the delivered rate only at the minimum, and below it only at
/// the lowered rate or the minimum. Startup is over, and the bounds, the
/// window and the account of startup are as before.
pub proof fn law_a_cut_lands_on_the_delivered_rate(v: RateView, s: Signals)
    requires
        s.congested || (v.startup && s.alarming),
    ensures
        ({
            let w = v.decided(s);
            &&& v.min <= s.max_delivered <= s.lowered ==> w.rate == s.max_delivered
            &&& w.rate > s.max_delivered ==> w.rate == v.min
            &&& s.max_delivered <= v.min ==> w.rate == v.min
            &&& s.max_delivered > s.lowered && s.lowered >= v.min ==> w.rate == s.lowered
            &&& s.lowered < v.min ==> w.rate == v.min
            &&& !w.startup
            &&& w.cooldown == 3
            &&& w.min == v.min && w.max == v.max && w.window == v.window
            &&& w.best == v.best && w.stagnant == v.stagnant
        }),
{
}

/// Startup: a clean interval that saturated the rate and delivered more than
/// was to be expected doubles it, as far as the cap, and is remembered as the
/// best; one that did not is counted, and the third in a row ends startup at
/// the delivered rate, which never raises the rate. Any other interval that is
/// no cut changes nothing.
pub proof fn law_startup_doubles_until_it_stagnates(v: RateView, s: Signals)
    requires
        v.startup,
        v.stagnant < 3,
        v.min <= v.rate,
        !s.congested,
        !s.alarming,
    ensures
        ({
            let w = v.decided(s);
            &&& !s.clean || !s.saturated ==> w == v
            &&& s.clean && s.saturated && s.delivered > s.growth_mark ==> {
                &&& w.startup && w.stagnant == 0 && w.best == s.delivered
                &&& s.doubled <= v.max ==> w.rate == s.doubled
                &&& s.doubled > v.max ==> w.rate == v.max
            }
            &&& s.clean && s.saturated && s.delivered <= s.growth_mark ==> {
                &&& w.stagnant == v.stagnant + 1 && w.best == v.best
                &&& w.startup <==> w.stagnant < 3
                &&& w.startup ==> w.rate == v.rate
                &&& !w.startup && v.min <= s.max_delivered <= v.rate ==> w.rate
                    == s.max_delivered
                &&& !w.startup && s.max_delivered > v.rate ==> w.rate == v.rate
                &&& !w.startup && s.max_delivered < v.min ==> w.rate == v.min
            }
            &&& w.min == v.min && w.max == v.max && w.window == v.window
            &&& w.cooldown == v.cooldown
        }),
{
}

/// After startup, where there is no congestion, an interval that did not
/// saturate the rate changes nothing, alarming or not; a clean one that did
/// raises it to the steady step, and one that is not clean to the slow step,
/// or to the cap where the step is beyond it. Startup does not come back, and
/// nothing but the rate changes.
pub proof fn law_after_startup_the_rate_drifts(v: RateView, s: Signals)
    requires
        !v.startup,
        !s.congested,
    ensures
        ({
            let w = v.decided(s);
            &&& !s.saturated ==> w == v
            &&& s.saturated && s.clean && s.steady <= v.max ==> w.rate == s.steady
            &&& s.saturated && s.clean && s.steady > v.max ==> w.rate == v.max
            &&& s.saturated && !s.clean && s.slow <= v.max ==> w.rate == s.slow
            &&& s.saturated && !s.clean && s.slow > v.max ==> w.rate == v.max
            &&& w == (RateView { rate: w.rate, ..v })
        }),
{
}

/// Rate control begins in startup at the start rate, or at the cap where that
/// is lower; a cap below the minimum counts as the minimum. Nothing is sat out
/// or remembered.
pub proof fn law_rate_control_begins_at_the_start_rate(start: u64, min: u64, cap: u64)
    requires
        min <= start,
    ensures
        ({
            let v = RateView::fresh(start, min, cap);
            &&& v.min == min
            &&& cap >= min ==> v.max == cap
            &&& cap < min ==> v.max == min
            &&& start <= v.max ==> v.rate == start
            &&& start > v.max ==> v.rate == v.max
            &&& v.startup && v.stagnant == 0 && v.best == 0 && v.cooldown == 0
            &&& v.window.len() == 0
        }),
{
}

/// The rate never leaves its bounds, whatever is measured.
pub proof fn law_rate_stays_in_bounds(v: RateView, s: Signals)
    requires
        v.wf(),
        v.fits(s),
    ensures
        v.decided(s).wf(),
        v.decided(s).min == v.min,
        v.decided(s).max == v.max,
{
}

/// What can happen to the rate control.
pub enum RateMove {
    /// An interval's delivered rate was taken.
    Observe { t_ms: u64, delivered: u64, app_limited: bool },
    /// A decision was taken.
    Decide(Signals),
}

impl RateView {
    /// The rate control after a run of moves.
    pub open spec fn after(self, moves: Seq<RateMove>) -> RateView
        decreases moves.len(),
    {
        if moves.len() == 0 {
            self
        } else {
            let v = self.after(moves.drop_last());
            match moves.last() {
                RateMove::Observe { t_ms, delivered, app_limited } => v.observed(
                    t_ms,
                    delivered,
                    app_limited,
                ),
                RateMove::Decide(s) => v.decided(s),
            }
        }
    }

    /// The raised and lowered rates fit the current one at each decision.
    pub open spec fn fits_all(self, moves: Seq<RateMove>) -> bool
        decreases moves.len(),
    {
        moves.len() == 0 || {
            &&& self.fits_all(moves.drop_last())
            &&& moves.last() matches RateMove::Decide(s) ==> self.after(moves.drop_last()).fits(s)
        }
    }
}

/// Over any run of reports the rate stays between the minimum and the cap, or
/// at the minimum where the cap is below it; it begins at the start rate, or
/// at the cap where that is lower.
pub proof fn law_a_run_stays_in_bounds(start: u64, min: u64, cap: u64, moves: Seq<RateMove>)
    requires
        min <= start,
        RateView::fresh(start, min, cap).fits_all(moves),
    ensures
        RateView::fresh(start, min, cap).rate == smaller(start, larger(cap, min)),
        RateView::fresh(start, min, cap).after(moves).wf(),
        min <= RateView::fresh(start, min, cap).after(moves).rate <= larger(cap, min),
{
    lemma_run_wf(RateView::fresh(start, min, cap), moves);
}

proof fn lemma_run_wf(v: RateView, moves: Seq<RateMove>)
    requires
        v.wf(),
        v.fits_all(moves),
    ensures
        v.after(moves).wf(),
        v.after(moves).min == v.min,
        v.after(moves).max == v.max,
    decreases moves.len(),
{
    if moves.len() > 0 {
        lemma_run_wf(v, moves.drop_last());
    }
}

/// After startup a clean interval that saturated the rate raises it by the
/// steady step, and one with some excess loss by the slow step, as far as the
/// cap.
pub proof fn law_clean_intervals_drift_up(v: RateView, s: Signals)
    requires
        !v.startup,
        s.saturated,
        !s.congested,
    ensures
        v.decided(s).rate == smaller(
            if s.clean {
                s.steady
            } else {
                s.slow
            },
            v.max,
        ),
{
}

/// A cut lowers the rate at least as far as its least step asks, but never
/// below the minimum, and ends startup.
pub proof fn law_a_cut_lowers_the_rate(v: RateView, s: Signals)
    requires
        v.wf(),
        v.fits(s),
        v.cuts(s),
    ensures
        v.min <= v.decided(s).rate <= larger(s.lowered, v.min),
        v.decided(s).rate <= v.rate,
        !v.decided(s).startup,
        v.decided(s).cooldown == CUT_COOLDOWN,
{
}

/// Only excess loss lowers the rate, and once, at the end of startup, a
/// delivered rate that no longer grows. Loss as such does not.
pub proof fn law_only_excess_loss_slows_down(v: RateView, s: Signals)
    requires
        v.wf(),
        v.fits(s),
        v.decided(s).rate < v.rate,
    ensures
        v.cuts(s) || (v.startup && !v.decided(s).startup && s.clean && s.delivered
            <= s.growth_mark),
{
}

/// The rate is raised only on an interval that saturated it.
pub proof fn law_growth_needs_evidence(v: RateView, s: Signals)
    requires
        v.wf(),
        v.fits(s),
        v.decided(s).rate > v.rate,
    ensures
        s.saturated,
        !v.cuts(s),
{
}

/// When the next send is allowed.
pub struct PaceClock {
    next: Option<u64>,
}

impl View for PaceClock {
    type V = Option<u64>;

    closed spec fn view(&self) -> Option<u64> {
        self.next
    }
}

/// The time from which a send at `now` is charged: where the last one left
/// off, but no longer ago than a burst.
pub open spec fn charged_from(next: Option<u64>, now: u64) -> u64 {
    let floor = if now >= MAX_BURST_NS {
        (now - MAX_BURST_NS) as u64
    } else {
        now
    };
    match next {
        None => now,
        Some(n) => larger(n, floor),
    }
}

/// The clock after a send at `now` that takes `duration`; one that takes none
/// is not paced, and leaves the clock as it is.
pub open spec fn charged(next: Option<u64>, now: u64, duration: Option<u64>) -> Option<u64> {
    match duration {
        None => next,
        Some(d) => Some((charged_from(next, now) + d) as u64),
    }
}

/// The clock can account for such a send.
pub open spec fn chargeable(next: Option<u64>, now: u64, duration: Option<u64>) -> bool {
    duration matches Some(d) ==> charged_from(next, now) + d <= u64::MAX
}

/// The wait after such a send: until the clock, or none if it is not paced.
pub open spec fn wait_after(next: Option<u64>, now: u64, duration: Option<u64>) -> u64 {
    match duration {
        None => 0,
        Some(_) => less(charged(next, now, duration)->0, now),
    }
}

impl PaceClock {
    /// Nothing sent yet.
    pub fn new() -> (c: Self)
        ensures
            c@ is None,
    {
        PaceClock { next: None }
    }

    /// Account for a send at `now` that takes `duration` at the current rate,
    /// both in nanoseconds; without a rate it takes none. Gives the time to
    /// wait before the next.
    pub fn pace(&mut self, now: u64, duration: Option<u64>) -> (wait: u64)
        requires
            chargeable(old(self)@, now, duration),
        ensures
            final(self)@ == charged(old(self)@, now, duration),
            wait == wait_after(old(self)@, now, duration),
    {
        let duration: u64 = match duration {
            None => return 0,
            Some(d) => d,
        };
        let floor: u64 = if now >= MAX_BURST_NS {
            now - MAX_BURST_NS
        } else {
            now
        };
        let from: u64 = match self.next {
            None => now,
            Some(n) => if n >= floor {
                n
            } else {
                floor
            },
        };
        let next: u64 = from + duration;
        self.next = Some(next);
        next.saturating_sub(now)
    }

    /// Whether [`PaceClock::pace`] can account for such a send.
    pub fn can_pace(&self, now: u64, duration: Option<u64>) -> (ok: bool)
        ensures
            ok == chargeable(self@, now, duration),
    {
        let duration: u64 = match duration {
            None => return true,
            Some(d) => d,
        };
        let floor: u64 = if now >= MAX_BURST_NS {
            now - MAX_BURST_NS
        } else {
            now
        };
        let from: u64 = match self.next {
            None => now,
            Some(n) => if n >= floor {
                n
            } else {
                floor
            },
        };
        duration <= u64::MAX - from
    }
}

/// A sender that waits as told never gains more than a burst on its pace: a
/// send is charged from where the last one left off, or from a burst ago.
pub proof fn law_bursts_are_bounded(next: Option<u64>, now: u64)
    ensures
        now - charged_from(next, now) <= MAX_BURST_NS,
        next matches Some(n) ==> charged_from(next, now) >= n,
{
}

/// A send is charged once, and for no more than it takes: the clock moves to
/// where the send is charged from plus its duration. That is where the last
/// send left off, unless that is more than 10 milliseconds ago; then it is 10
/// milliseconds ago, or now where the clock reads less than that. A first send
/// is charged from now. The wait ends at the
/// clock, and there is none where the clock is not ahead.
pub proof fn law_a_send_is_charged_once(next: Option<u64>, now: u64, duration: u64)
    requires
        chargeable(next, now, Some(duration)),
    ensures
        ({
            let clock = charged(next, now, Some(duration));
            let wait = wait_after(next, now, Some(duration));
            &&& clock is Some
            &&& next is None ==> clock->0 == now + duration && wait == duration
            &&& next matches Some(n) ==> {
                &&& n >= now ==> clock->0 == n + duration
                &&& now >= 10_000_000 && n + 10_000_000 >= now ==> clock->0 == n + duration
                &&& n + 10_000_000 < now ==> clock->0 + 10_000_000 == now + duration
                &&& now < 10_000_000 && n < now ==> clock->0 == now + duration
            }
            &&& clock->0 >= now ==> now + wait == clock->0
            &&& clock->0 < now ==> wait == 0
        }),
{
}

/// Nothing but the clock's own width limits what can be charged.
pub proof fn law_what_fits_the_clock_is_chargeable(next: Option<u64>, now: u64, duration: u64)
    requires
        next matches Some(n) ==> n + duration <= u64::MAX,
        now + duration <= u64::MAX,
    ensures
        chargeable(next, now, Some(duration)),
{
}

/// A run of sends, each of which comes as soon as the wait before it is over,
/// goes out at its pace exactly: its last wait ends at the first send plus the
/// durations together, or, where the clock was ahead of the first send, at the
/// clock plus the durations. It never takes longer.
pub proof fn law_a_run_without_pauses_meets_its_pace(next: Option<u64>, sends: Seq<(u64, u64)>)
    requires
        sends.len() > 0,
        can_pace_all(next, sends),
        forall|i: int|
            0 < i < sends.len() ==> (#[trigger] sends[i]).0 == end_of(next, sends.take(i)),
        next matches Some(n) ==> n >= sends[0].0,
    ensures
        next is None ==> end_of(next, sends) == sends[0].0 + total(sends),
        next matches Some(n) ==> end_of(next, sends) == n + total(sends),
        paced(next, sends) == Some(end_of(next, sends) as u64),
        end_of(next, sends) <= u64::MAX,
    decreases sends.len(),
{
    let front = sends.drop_last();
    let last = sends.len() - 1;
    assert(sends.take(last) =~= front);
    if front.len() > 0 {
        assert forall|i: int| 0 < i < front.len() implies (#[trigger] front[i]).0 == end_of(
            next,
            front.take(i),
        ) by {
            assert(front[i] == sends[i]);
            assert(front.take(i) =~= sends.take(i));
        }
        law_a_run_without_pauses_meets_its_pace(next, front);
        assert(sends[last].0 == end_of(next, front));
        law_a_send_is_charged_once(paced(next, front), sends.last().0, sends.last().1);
    } else {
        assert(total(front) == 0);
        law_a_send_is_charged_once(next, sends.last().0, sends.last().1);
    }
}

/// Whatever the pauses between its sends, a run's clock is never further on
/// than the later of where it stood and its latest send, plus the durations
/// together: no send is charged for more than it takes.
pub proof fn law_a_run_is_not_charged_for_more(
    next: Option<u64>,
    sends: Seq<(u64, u64)>,
    latest: u64,
)
    requires
        sends.len() > 0,
        can_pace_all(next, sends),
        forall|i: int| 0 <= i < sends.len() ==> (#[trigger] sends[i]).0 <= latest,
        next matches Some(n) ==> n <= latest,
    ensures
        paced(next, sends) matches Some(clock) && clock <= latest + total(sends),
    decreases sends.len(),
{
    let front = sends.drop_last();
    assert(sends[sends.len() - 1].0 <= latest);
    if front.len() > 0 {
        assert forall|i: int| 0 <= i < front.len() implies (#[trigger] front[i]).0 <= latest by {
            assert(front[i] == sends[i]);
        }
        law_a_run_is_not_charged_for_more(next, front, latest);
        law_a_send_is_charged_once(paced(next, front), sends.last().0, sends.last().1);
    } else {
        assert(total(front) == 0);
        law_a_send_is_charged_once(next, sends.last().0, sends.last().1);
    }
}

/// Without a rate nothing is paced: a send is not waited for, and leaves the
/// clock as it is.
pub proof fn law_without_a_rate_nothing_waits(next: Option<u64>, now: u64)
    ensures
        chargeable(next, now, None),
        wait_after(next, now, None) == 0,
        charged(next, now, None) == next,
{
}

/// The pace clock after a run of sends, each with its time and duration.
pub open spec fn paced(next: Option<u64>, sends: Seq<(u64, u64)>) -> Option<u64>
    decreases sends.len(),
{
    if sends.len() == 0 {
        next
    } else {
        charged(paced(next, sends.drop_last()), sends.last().0, Some(sends.last().1))
    }
}

/// The pace clock can account for each send of the run.
pub open spec fn can_pace_all(next: Option<u64>, sends: Seq<(u64, u64)>) -> bool
    decreases sends.len(),
{
    sends.len() == 0 || {
        &&& can_pace_all(next, sends.drop_last())
        &&& chargeable(paced(next, sends.drop_last()), sends.last().0, Some(sends.last().1))
    }
}

/// The durations of a run of sends, together.
pub open spec fn total(sends: Seq<(u64, u64)>) -> nat
    decreases sends.len(),
{
    if sends.len() == 0 {
        0
    } else {
        total(sends.drop_last()) + sends.last().1 as nat
    }
}

/// The end of the last wait of a run of sends.
pub open spec fn end_of(next: Option<u64>, sends: Seq<(u64, u64)>) -> int {
    let (now, duration) = sends.last();
    now + wait_after(paced(next, sends.drop_last()), now, Some(duration))
}

/// A run of sends takes at least as long as its durations together, but for
/// one burst: they fit between the first send and the end of the last wait,
/// with a burst's time more where the clock was in use before, and with none
/// where the first send is the clock's first.
pub proof fn law_a_run_keeps_its_pace(next: Option<u64>, sends: Seq<(u64, u64)>)
    requires
        sends.len() > 0,
        can_pace_all(next, sends),
    ensures
        ({
            let first = sends[0].0;
            let clock = paced(next, sends)->0;
            let end = end_of(next, sends);
            &&& paced(next, sends) is Some
            &&& charged_from(next, first) + total(sends) <= clock
            &&& next is None ==> first + total(sends) <= clock
            &&& total(sends) <= end - first + MAX_BURST_NS
            &&& next is None ==> total(sends) <= end - first
        }),
    decreases sends.len(),
{
    let front = sends.drop_last();
    law_bursts_are_bounded(next, sends[0].0);
    if front.len() > 0 {
        law_a_run_keeps_its_pace(next, front);
        assert(front[0] == sends[0]);
        law_bursts_are_bounded(paced(next, front), sends.last().0);
    } else {
        assert(total(front) == 0);
        assert(sends[0] == sends.last());
    }
}

/// The bytes of a run of sends, together.
pub open spec fn total_bytes(lens: Seq<nat>) -> nat
    decreases lens.len(),
{
    if lens.len() == 0 {
        0
    } else {
        total_bytes(lens.drop_last()) + lens.last()
    }
}

/// A run of sends at one rate keeps to it: between the first send and the end
/// of the last wait, no more bytes go out than the rate gives for that time
/// and one burst, where each send's duration is that of its bytes at this rate
/// to within a nanosecond.
pub proof fn law_a_run_keeps_its_rate(
    next: Option<u64>,
    sends: Seq<(u64, u64)>,
    lens: Seq<nat>,
    bytes_per_sec: nat,
)
    requires
        sends.len() > 0,
        lens.len() == sends.len(),
        can_pace_all(next, sends),
        forall|i: int|
            0 <= i < sends.len() ==> #[trigger] lens[i] * 1_000_000_000 <= bytes_per_sec * (
            sends[i].1 + 1),
    ensures
        total_bytes(lens) * 1_000_000_000 <= bytes_per_sec * (end_of(next, sends) - sends[0].0
            + MAX_BURST_NS + sends.len()),
{
    law_a_run_keeps_its_pace(next, sends);
    lemma_bytes_fit(sends, lens, bytes_per_sec);
    let span = end_of(next, sends) - sends[0].0 + MAX_BURST_NS + sends.len();
    assert(bytes_per_sec * (total(sends) + sends.len()) <= bytes_per_sec * span)
        by (nonlinear_arith)
        requires
            total(sends) + sends.len() <= span,
    ;
}

proof fn lemma_bytes_fit(sends: Seq<(u64, u64)>, lens: Seq<nat>, bytes_per_sec: nat)
    requires
        lens.len() == sends.len(),
        forall|i: int|
            0 <= i < sends.len() ==> #[trigger] lens[i] * 1_000_000_000 <= bytes_per_sec * (
            sends[i].1 + 1),
    ensures
        total_bytes(lens) * 1_000_000_000 <= bytes_per_sec * (total(sends) + sends.len()),
    decreases sends.len(),
{
    if sends.len() > 0 {
        let s = sends.drop_last();
        let l = lens.drop_last();
        assert forall|i: int| 0 <= i < s.len() implies #[trigger] l[i] * 1_000_000_000
            <= bytes_per_sec * (s[i].1 + 1) by {
            assert(l[i] == lens[i]);
            assert(s[i] == sends[i]);
        }
        lemma_bytes_fit(s, l, bytes_per_sec);
        let last = sends.len() - 1;
        assert(lens[last] * 1_000_000_000 <= bytes_per_sec * (sends[last].1 + 1));
        let d = sends.last().1;
        assert(bytes_per_sec * (total(s) + s.len()) + bytes_per_sec * (d + 1) == bytes_per_sec * (
        total(s) + d + s.len() + 1)) by (nonlinear_arith);
    } else {
        assert(bytes_per_sec * 0 == 0) by (nonlinear_arith);
    }
}

} // verus!
