//! Congestion factors. Each factor is evaluated on its own and reports a
//! boolean; the fusion layer assigns no priorities. The counter factors decide
//! entirely on counter growth. The other factors hold a numeric type `R` for
//! their ratios and thresholds; what is kept here is their window and baseline
//! bookkeeping, while the comparisons on `R` values belong to their users.
use vstd::prelude::*;
use vstd::slice::slice_subrange;
use std::collections::VecDeque;
use crate::collector::{RawCounters, bounded_push, push_bounded};

verus! {

/// Growth of a cumulative counter, `0` when it went backwards.
pub open spec fn growth(current: u64, previous: u64) -> u64 {
    if current >= previous { (current - previous) as u64 } else { 0 }
}

/// `u64` addition that stops at `u64::MAX`.
pub open spec fn saturating_sum(a: u64, b: u64) -> u64 {
    if a + b > u64::MAX { u64::MAX } else { (a + b) as u64 }
}

/// Growth of a cumulative counter (saturating subtraction).
pub fn delta(current: u64, previous: u64) -> (d: u64)
    ensures
        d == growth(current, previous),
{
    current.saturating_sub(previous)
}

/// The newest `count` values, when there are at least that many.
pub fn tail<T>(values: &[T], count: usize) -> (r: Option<&[T]>)
    ensures
        values@.len() >= count ==> (r matches Some(w) && w@ == values@.subrange(values@.len() - count, values@.len() as int)),
        values@.len() < count ==> r is None,
{
    if values.len() >= count {
        Some(slice_subrange(values, values.len() - count, values.len()))
    } else {
        None
    }
}

/// Triggers when TCP retransmissions grew by at least `min_delta`.
#[derive(Debug, Clone, Copy, PartialEq, Eq, Structural)]
pub struct RetransmissionFactor {
    pub min_delta: u64,
}

impl RetransmissionFactor {
    pub fn name(&self) -> (n: &'static str)
        ensures
            n@ == "retransmission"@,
    {
        "retransmission"
    }

    pub fn triggered(&self, previous: &RawCounters, current: &RawCounters) -> (t: bool)
        ensures
            t == (growth(current.retransmitted_segments, previous.retransmitted_segments) >= self.min_delta),
    {
        delta(current.retransmitted_segments, previous.retransmitted_segments) >= self.min_delta
    }
}

/// Triggers when TCP timeouts grew by at least `min_delta`.
#[derive(Debug, Clone, Copy, PartialEq, Eq, Structural)]
pub struct TimeoutFactor {
    pub min_delta: u64,
}

impl TimeoutFactor {
    pub fn name(&self) -> (n: &'static str)
        ensures
            n@ == "timeout"@,
    {
        "timeout"
    }

    pub fn triggered(&self, previous: &RawCounters, current: &RawCounters) -> (t: bool)
        ensures
            t == (growth(current.tcp_timeouts, previous.tcp_timeouts) >= self.min_delta),
    {
        delta(current.tcp_timeouts, previous.tcp_timeouts) >= self.min_delta
    }
}

/// Triggers when zero-window advertisements, to and from the peer together,
/// grew by at least `min_delta`.
#[derive(Debug, Clone, Copy, PartialEq, Eq, Structural)]
pub struct ZeroWindowFactor {
    pub min_delta: u64,
}

impl ZeroWindowFactor {
    pub fn name(&self) -> (n: &'static str)
        ensures
            n@ == "zero_window"@,
    {
        "zero_window"
    }

    pub fn triggered(&self, previous: &RawCounters, current: &RawCounters) -> (t: bool)
        ensures
            t == (saturating_sum(
                growth(current.to_zero_window_advertisements, previous.to_zero_window_advertisements),
                growth(current.from_zero_window_advertisements, previous.from_zero_window_advertisements),
            ) >= self.min_delta),
    {
        let total = delta(current.to_zero_window_advertisements, previous.to_zero_window_advertisements)
            .saturating_add(delta(current.from_zero_window_advertisements, previous.from_zero_window_advertisements));
        total >= self.min_delta
    }
}

/// Settings of the rate-stability factor.
#[derive(Debug, Clone, Copy, PartialEq)]
pub struct RateStabilityConfig<R> {
    pub enabled: bool,
    pub window_ticks: usize,
    pub stability_frac: R,
}

/// Settings of the flat-rate (zero slope) factor.
#[derive(Debug, Clone, Copy, PartialEq)]
pub struct RateSlopeZeroConfig<R> {
    pub enabled: bool,
    pub window_ticks: usize,
    pub slope_threshold: R,
}

/// Settings of the RTT-inflation factor.
#[derive(Debug, Clone, Copy, PartialEq)]
pub struct RttInflationConfig<R> {
    pub enabled: bool,
    pub baseline_samples: usize,
    pub inflation_ratio: R,
}

/// Settings of the RTT-jitter factor.
#[derive(Debug, Clone, Copy, PartialEq)]
pub struct RttJitterConfig<R> {
    pub enabled: bool,
    pub jitter_ratio: R,
}

/// Settings of the congestion-window shrink factor.
#[derive(Debug, Clone, Copy, PartialEq)]
pub struct CwndShrinkConfig<R> {
    pub enabled: bool,
    pub shrink_ratio: R,
}

/// Settings of the growing-connections-but-flat-throughput factor.
#[derive(Debug, Clone, Copy, PartialEq)]
pub struct ConnUpThroughputFlatConfig<R> {
    pub enabled: bool,
    pub conn_growth_ratio: R,
}

/// Triggers when the recent rates vary little (coefficient of variation at
/// most `stability_frac` over the last `window_ticks` rates).
pub struct RateStabilityFactor<R> {
    pub config: RateStabilityConfig<R>,
}

impl<R> RateStabilityFactor<R> {
    pub fn new(config: RateStabilityConfig<R>) -> (f: Self)
        ensures
            f.config == config,
    {
        Self { config }
    }

    pub fn name(&self) -> (n: &'static str)
        ensures
            n@ == "rate_stability"@,
    {
        "rate_stability"
    }
}

/// Triggers when the recent rates have a normalized slope of magnitude at
/// most `slope_threshold` over the last `window_ticks` rates.
pub struct RateSlopeZeroFactor<R> {
    pub config: RateSlopeZeroConfig<R>,
}

impl<R> RateSlopeZeroFactor<R> {
    pub fn new(config: RateSlopeZeroConfig<R>) -> (f: Self)
        ensures
            f.config == config,
    {
        Self { config }
    }

    pub fn name(&self) -> (n: &'static str)
        ensures
            n@ == "rate_slope_zero"@,
    {
        "rate_slope_zero"
    }
}

/// Triggers when the mean RTT exceeds the baseline mean by `inflation_ratio`;
/// the baseline is the means of the last `baseline_samples` collections.
pub struct RttInflationFactor<R> {
    config: RttInflationConfig<R>,
    baseline: VecDeque<R>,
}

impl<R> RttInflationFactor<R> {
    pub closed spec fn settings(&self) -> RttInflationConfig<R> {
        self.config
    }

    pub fn config(&self) -> (c: &RttInflationConfig<R>)
        ensures
            *c == self.settings(),
    {
        &self.config
    }

    /// The baseline means, oldest first.
    pub closed spec fn baseline_view(&self) -> Seq<R> {
        self.baseline@
    }

    pub fn new(config: RttInflationConfig<R>) -> (f: Self)
        ensures
            f.settings() == config,
            f.baseline_view() == Seq::<R>::empty(),
    {
        Self { config, baseline: VecDeque::new() }
    }

    pub fn name(&self) -> (n: &'static str)
        ensures
            n@ == "rtt_inflation"@,
    {
        "rtt_inflation"
    }

    /// The baseline means, oldest first.
    pub fn baseline(&self) -> (b: &VecDeque<R>)
        ensures
            b@ == self.baseline_view(),
    {
        &self.baseline
    }

    /// The baseline is complete: it holds `baseline_samples` means.
    pub fn baseline_ready(&self) -> (b: bool)
        ensures
            b == (self.baseline_view().len() >= self.settings().baseline_samples),
    {
        self.baseline.len() >= self.config.baseline_samples
    }

    /// Adds the current mean to the baseline, keeping the newest
    /// `baseline_samples` means.
    pub fn record_baseline(&mut self, current: R)
        ensures
            final(self).settings() == old(self).settings(),
            final(self).baseline_view() == bounded_push(
                old(self).baseline_view(),
                current,
                old(self).settings().baseline_samples as nat,
            ),
    {
        let limit = self.config.baseline_samples;
        push_bounded(&mut self.baseline, current, limit);
    }
}

/// Triggers when the RTT samples' coefficient of variation exceeds
/// `jitter_ratio`.
pub struct RttJitterFactor<R> {
    pub config: RttJitterConfig<R>,
}

impl<R> RttJitterFactor<R> {
    pub fn new(config: RttJitterConfig<R>) -> (f: Self)
        ensures
            f.config == config,
    {
        Self { config }
    }

    pub fn name(&self) -> (n: &'static str)
        ensures
            n@ == "rtt_jitter"@,
    {
        "rtt_jitter"
    }
}

/// Triggers when the average congestion window fell below `shrink_ratio`
/// times the previous one.
pub struct CwndShrinkFactor<R> {
    config: CwndShrinkConfig<R>,
    previous_cwnd: Option<R>,
}

impl<R> CwndShrinkFactor<R> {
    pub closed spec fn settings(&self) -> CwndShrinkConfig<R> {
        self.config
    }

    pub fn config(&self) -> (c: &CwndShrinkConfig<R>)
        ensures
            *c == self.settings(),
    {
        &self.config
    }

    /// The last average congestion window seen.
    pub closed spec fn previous_view(&self) -> Option<R> {
        self.previous_cwnd
    }

    pub fn new(config: CwndShrinkConfig<R>) -> (f: Self)
        ensures
            f.settings() == config,
            f.previous_view() is None,
    {
        Self { config, previous_cwnd: None }
    }

    pub fn name(&self) -> (n: &'static str)
        ensures
            n@ == "cwnd_shrink"@,
    {
        "cwnd_shrink"
    }

    /// The last average congestion window seen.
    pub fn previous_cwnd(&self) -> (p: Option<&R>)
        ensures
            p == match self.previous_view() {
                Some(v) => Some(&v),
                None => None::<&R>,
            },
    {
        match &self.previous_cwnd {
            Some(v) => Some(v),
            None => None,
        }
    }

    /// Remembers the current average window; a collection without one keeps
    /// the previous.
    pub fn record_cwnd(&mut self, current: Option<R>)
        ensures
            final(self).settings() == old(self).settings(),
            final(self).previous_view() == match current {
                Some(v) => Some(v),
                None => old(self).previous_view(),
            },
    {
        if current.is_some() {
            self.previous_cwnd = current;
        }
    }
}

/// Triggers when the number of TCP connections grew by `conn_growth_ratio`
/// over a full rate window while the rate stayed flat.
pub struct ConnUpThroughputFlatFactor<R> {
    config: ConnUpThroughputFlatConfig<R>,
    rate_config: RateSlopeZeroConfig<R>,
    connection_history: VecDeque<u64>,
}

impl<R> ConnUpThroughputFlatFactor<R> {
    pub closed spec fn settings(&self) -> ConnUpThroughputFlatConfig<R> {
        self.config
    }

    pub closed spec fn rate_settings(&self) -> RateSlopeZeroConfig<R> {
        self.rate_config
    }

    pub fn config(&self) -> (c: &ConnUpThroughputFlatConfig<R>)
        ensures
            *c == self.settings(),
    {
        &self.config
    }

    pub fn rate_config(&self) -> (c: &RateSlopeZeroConfig<R>)
        ensures
            *c == self.rate_settings(),
    {
        &self.rate_config
    }

    /// The recent TCP connection counts, oldest first.
    pub closed spec fn history_view(&self) -> Seq<u64> {
        self.connection_history@
    }

    pub fn new(config: ConnUpThroughputFlatConfig<R>, rate_config: RateSlopeZeroConfig<R>) -> (f: Self)
        ensures
            f.settings() == config,
            f.rate_settings() == rate_config,
            f.history_view() == Seq::<u64>::empty(),
    {
        Self { config, rate_config, connection_history: VecDeque::new() }
    }

    pub fn name(&self) -> (n: &'static str)
        ensures
            n@ == "conn_up_throughput_flat"@,
    {
        "conn_up_throughput_flat"
    }

    /// Records the current connection count. A count of zero (unknown) clears
    /// the history. Returns the oldest and newest counts of the window when it
    /// is full (`rate_config.window_ticks` counts) and the oldest is positive:
    /// the pair whose growth ratio the factor then compares.
    pub fn record_connections(&mut self, tcp_connections: u64) -> (r: Option<(u64, u64)>)
        ensures
            final(self).settings() == old(self).settings(),
            final(self).rate_settings() == old(self).rate_settings(),
            tcp_connections == 0 ==> final(self).history_view() == Seq::<u64>::empty() && r is None,
            tcp_connections > 0 ==> {
                let h = final(self).history_view();
                &&& h == bounded_push(old(self).history_view(), tcp_connections, old(self).rate_settings().window_ticks as nat)
                &&& r == if h.len() >= old(self).rate_settings().window_ticks && h.len() > 0 && h[0] > 0 {
                    Some((h[0], h.last()))
                } else {
                    None
                }
            },
    {
        if tcp_connections == 0 {
            self.connection_history.clear();
            return None;
        }
        let limit = self.rate_config.window_ticks;
        push_bounded(&mut self.connection_history, tcp_connections, limit);
        let n = self.connection_history.len();
        if n >= limit && n > 0 {
            let first = self.connection_history[0];
            let last = self.connection_history[n - 1];
            if first > 0 {
                return Some((first, last));
            }
        }
        None
    }
}

/// Settings of a counter factor.
#[derive(Debug, Clone, Copy, PartialEq, Eq, Structural)]
pub struct CounterFactorConfig {
    pub enabled: bool,
    pub min_delta: u64,
}

/// Which factors run, with their settings.
#[derive(Debug, Clone, Copy, PartialEq)]
pub struct FactorsConfig<R> {
    pub retransmission: CounterFactorConfig,
    pub timeout: CounterFactorConfig,
    pub zero_window: CounterFactorConfig,
    pub rate_stability: RateStabilityConfig<R>,
    pub rate_slope_zero: RateSlopeZeroConfig<R>,
    pub rtt_inflation: RttInflationConfig<R>,
    pub rtt_jitter: RttJitterConfig<R>,
    pub cwnd_shrink: CwndShrinkConfig<R>,
    pub conn_up_throughput_flat: ConnUpThroughputFlatConfig<R>,
}

/// One factor of the registry.
pub enum ConfiguredFactor<R> {
    Retransmission(RetransmissionFactor),
    Timeout(TimeoutFactor),
    ZeroWindow(ZeroWindowFactor),
    RateStability(RateStabilityFactor<R>),
    RateSlopeZero(RateSlopeZeroFactor<R>),
    RttInflation(RttInflationFactor<R>),
    RttJitter(RttJitterFactor<R>),
    CwndShrink(CwndShrinkFactor<R>),
    ConnUpThroughputFlat(ConnUpThroughputFlatFactor<R>),
}

/// The position of a factor's kind in the registry's fixed order.
pub open spec fn kind_rank<R>(f: ConfiguredFactor<R>) -> int {
    match f {
        ConfiguredFactor::Retransmission(_) => 0,
        ConfiguredFactor::Timeout(_) => 1,
        ConfiguredFactor::ZeroWindow(_) => 2,
        ConfiguredFactor::RateStability(_) => 3,
        ConfiguredFactor::RateSlopeZero(_) => 4,
        ConfiguredFactor::RttInflation(_) => 5,
        ConfiguredFactor::RttJitter(_) => 6,
        ConfiguredFactor::CwndShrink(_) => 7,
        ConfiguredFactor::ConnUpThroughputFlat(_) => 8,
    }
}

/// `seq![rank]` when `enabled`, else nothing.
pub open spec fn when_enabled(enabled: bool, rank: int) -> Seq<int> {
    if enabled { seq![rank] } else { seq![] }
}

/// The ranks of the enabled factors, in registry order.
pub open spec fn enabled_ranks<R>(config: FactorsConfig<R>) -> Seq<int> {
    when_enabled(config.retransmission.enabled, 0)
        + when_enabled(config.timeout.enabled, 1)
        + when_enabled(config.zero_window.enabled, 2)
        + when_enabled(config.rate_stability.enabled, 3)
        + when_enabled(config.rate_slope_zero.enabled, 4)
        + when_enabled(config.rtt_inflation.enabled, 5)
        + when_enabled(config.rtt_jitter.enabled, 6)
        + when_enabled(config.cwnd_shrink.enabled, 7)
        + when_enabled(config.conn_up_throughput_flat.enabled, 8)
}

/// A newly made factor carrying its settings from `config`, with empty
/// memory. The growing-connections factor also carries the flat-rate settings.
pub open spec fn fresh_from<R>(f: ConfiguredFactor<R>, config: FactorsConfig<R>) -> bool {
    match f {
        ConfiguredFactor::Retransmission(x) => x.min_delta == config.retransmission.min_delta,
        ConfiguredFactor::Timeout(x) => x.min_delta == config.timeout.min_delta,
        ConfiguredFactor::ZeroWindow(x) => x.min_delta == config.zero_window.min_delta,
        ConfiguredFactor::RateStability(x) => x.config == config.rate_stability,
        ConfiguredFactor::RateSlopeZero(x) => x.config == config.rate_slope_zero,
        ConfiguredFactor::RttInflation(x) => x.settings() == config.rtt_inflation
            && x.baseline_view().len() == 0,
        ConfiguredFactor::RttJitter(x) => x.config == config.rtt_jitter,
        ConfiguredFactor::CwndShrink(x) => x.settings() == config.cwnd_shrink
            && x.previous_view() is None,
        ConfiguredFactor::ConnUpThroughputFlat(x) => x.settings() == config.conn_up_throughput_flat
            && x.rate_settings() == config.rate_slope_zero && x.history_view().len() == 0,
    }
}

/// The report name of the factor kind of rank `rank`.
pub open spec fn rank_name(rank: int) -> Seq<char> {
    if rank == 0 {
        "retransmission"@
    } else if rank == 1 {
        "timeout"@
    } else if rank == 2 {
        "zero_window"@
    } else if rank == 3 {
        "rate_stability"@
    } else if rank == 4 {
        "rate_slope_zero"@
    } else if rank == 5 {
        "rtt_inflation"@
    } else if rank == 6 {
        "rtt_jitter"@
    } else if rank == 7 {
        "cwnd_shrink"@
    } else {
        "conn_up_throughput_flat"@
    }
}

impl<R> ConfiguredFactor<R> {
    /// The factor's report name.
    pub fn name(&self) -> (n: &'static str)
        ensures
            n@ == rank_name(kind_rank(*self)),
    {
        match self {
            ConfiguredFactor::Retransmission(f) => f.name(),
            ConfiguredFactor::Timeout(f) => f.name(),
            ConfiguredFactor::ZeroWindow(f) => f.name(),
            ConfiguredFactor::RateStability(f) => f.name(),
            ConfiguredFactor::RateSlopeZero(f) => f.name(),
            ConfiguredFactor::RttInflation(f) => f.name(),
            ConfiguredFactor::RttJitter(f) => f.name(),
            ConfiguredFactor::CwndShrink(f) => f.name(),
            ConfiguredFactor::ConnUpThroughputFlat(f) => f.name(),
        }
    }
}

/// The kind ranks of a sequence of factors.
pub open spec fn ranks<R>(fs: Seq<ConfiguredFactor<R>>) -> Seq<int>
    decreases fs.len(),
{
    if fs.len() == 0 {
        seq![]
    } else {
        ranks(fs.drop_last()).push(kind_rank(fs.last()))
    }
}

/// `fs` has the given kind ranks and every factor is fresh from `config`.
pub open spec fn registry_of<R>(fs: Seq<ConfiguredFactor<R>>, expected: Seq<int>, config: FactorsConfig<R>) -> bool {
    &&& ranks(fs) == expected
    &&& forall|i: int| 0 <= i < fs.len() ==> fresh_from(#[trigger] fs[i], config)
}

proof fn lemma_enroll<R>(fs: Seq<ConfiguredFactor<R>>, expected: Seq<int>, config: FactorsConfig<R>, f: ConfiguredFactor<R>)
    requires
        registry_of(fs, expected, config),
        fresh_from(f, config),
    ensures
        registry_of(fs.push(f), expected + when_enabled(true, kind_rank(f)), config),
{
    assert(fs.push(f).drop_last() =~= fs);
    assert(expected.push(kind_rank(f)) =~= expected + when_enabled(true, kind_rank(f)));
    assert forall|i: int| 0 <= i < fs.push(f).len() implies fresh_from(#[trigger] fs.push(f)[i], config) by {
        if i < fs.len() {
            assert(fs.push(f)[i] == fs[i]);
        }
    }
}

proof fn lemma_skip<R>(fs: Seq<ConfiguredFactor<R>>, expected: Seq<int>, config: FactorsConfig<R>, rank: int)
    requires
        registry_of(fs, expected, config),
    ensures
        registry_of(fs, expected + when_enabled(false, rank), config),
{
    assert(expected + when_enabled(false, rank) =~= expected);
}

/// The factor registry: one fresh factor per enabled setting, in the order
/// retransmission, timeout, zero window, rate stability, flat rate, RTT
/// inflation, RTT jitter, congestion-window shrink, growing connections.
pub fn all_factors<R: Copy>(config: &FactorsConfig<R>) -> (factors: Vec<ConfiguredFactor<R>>)
    ensures
        ranks(factors@) == enabled_ranks(*config),
        forall|i: int| 0 <= i < factors@.len() ==> fresh_from(#[trigger] factors@[i], *config),
{
    let mut factors: Vec<ConfiguredFactor<R>> = Vec::new();
    let ghost c = *config;
    let ghost e: Seq<int> = seq![];
    assert(registry_of(factors@, e, c));
    if config.retransmission.enabled {
        let f = ConfiguredFactor::Retransmission(RetransmissionFactor { min_delta: config.retransmission.min_delta });
        proof { lemma_enroll(factors@, e, c, f); }
        factors.push(f);
    } else {
        proof { lemma_skip(factors@, e, c, 0); }
    }
    let ghost e = e + when_enabled(c.retransmission.enabled, 0);
    if config.timeout.enabled {
        let f = ConfiguredFactor::Timeout(TimeoutFactor { min_delta: config.timeout.min_delta });
        proof { lemma_enroll(factors@, e, c, f); }
        factors.push(f);
    } else {
        proof { lemma_skip(factors@, e, c, 1); }
    }
    let ghost e = e + when_enabled(c.timeout.enabled, 1);
    if config.zero_window.enabled {
        let f = ConfiguredFactor::ZeroWindow(ZeroWindowFactor { min_delta: config.zero_window.min_delta });
        proof { lemma_enroll(factors@, e, c, f); }
        factors.push(f);
    } else {
        proof { lemma_skip(factors@, e, c, 2); }
    }
    let ghost e = e + when_enabled(c.zero_window.enabled, 2);
    if config.rate_stability.enabled {
        let f = ConfiguredFactor::RateStability(RateStabilityFactor::new(config.rate_stability));
        proof { lemma_enroll(factors@, e, c, f); }
        factors.push(f);
    } else {
        proof { lemma_skip(factors@, e, c, 3); }
    }
    let ghost e = e + when_enabled(c.rate_stability.enabled, 3);
    if config.rate_slope_zero.enabled {
        let f = ConfiguredFactor::RateSlopeZero(RateSlopeZeroFactor::new(config.rate_slope_zero));
        proof { lemma_enroll(factors@, e, c, f); }
        factors.push(f);
    } else {
        proof { lemma_skip(factors@, e, c, 4); }
    }
    let ghost e = e + when_enabled(c.rate_slope_zero.enabled, 4);
    if config.rtt_inflation.enabled {
        let f = ConfiguredFactor::RttInflation(RttInflationFactor::new(config.rtt_inflation));
        proof { lemma_enroll(factors@, e, c, f); }
        factors.push(f);
    } else {
        proof { lemma_skip(factors@, e, c, 5); }
    }
    let ghost e = e + when_enabled(c.rtt_inflation.enabled, 5);
    if config.rtt_jitter.enabled {
        let f = ConfiguredFactor::RttJitter(RttJitterFactor::new(config.rtt_jitter));
        proof { lemma_enroll(factors@, e, c, f); }
        factors.push(f);
    } else {
        proof { lemma_skip(factors@, e, c, 6); }
    }
    let ghost e = e + when_enabled(c.rtt_jitter.enabled, 6);
    if config.cwnd_shrink.enabled {
        let f = ConfiguredFactor::CwndShrink(CwndShrinkFactor::new(config.cwnd_shrink));
        proof { lemma_enroll(factors@, e, c, f); }
        factors.push(f);
    } else {
        proof { lemma_skip(factors@, e, c, 7); }
    }
    let ghost e = e + when_enabled(c.cwnd_shrink.enabled, 7);
    if config.conn_up_throughput_flat.enabled {
        let f = ConfiguredFactor::ConnUpThroughputFlat(ConnUpThroughputFlatFactor::new(
            config.conn_up_throughput_flat,
            config.rate_slope_zero,
        ));
        proof { lemma_enroll(factors@, e, c, f); }
        factors.push(f);
    } else {
        proof { lemma_skip(factors@, e, c, 8); }
    }
    factors
}

} // verus!
