use vps_bandwidth_observer::collector::RawCounters;
use vps_bandwidth_observer::factors::{
    all_factors, ConfiguredFactor, CounterFactorConfig, FactorsConfig, delta, tail, ConnUpThroughputFlatConfig, ConnUpThroughputFlatFactor, CwndShrinkConfig,
    CwndShrinkFactor, RateSlopeZeroConfig, RateSlopeZeroFactor, RateStabilityConfig,
    RateStabilityFactor, RetransmissionFactor, RttInflationConfig, RttInflationFactor,
    RttJitterConfig, RttJitterFactor, TimeoutFactor, ZeroWindowFactor,
};

fn counters(retrans: u64, timeout: u64, zero_window: u64) -> RawCounters {
    RawCounters {
        rx_bytes: 0,
        tx_bytes: 0,
        retransmitted_segments: retrans,
        tcp_timeouts: timeout,
        to_zero_window_advertisements: zero_window,
        from_zero_window_advertisements: 0,
        tcp_connections: 0,
    }
}

#[test]
fn counter_factors_trigger_on_growth() {
    let previous = counters(1, 2, 3);
    let current = counters(2, 2, 4);
    let retransmission = RetransmissionFactor { min_delta: 1 };
    let timeout = TimeoutFactor { min_delta: 1 };
    let zero_window = ZeroWindowFactor { min_delta: 1 };
    assert_eq!(retransmission.name(), "retransmission");
    assert_eq!(timeout.name(), "timeout");
    assert_eq!(zero_window.name(), "zero_window");
    assert!(retransmission.triggered(&previous, &current));
    assert!(!timeout.triggered(&previous, &current));
    assert!(zero_window.triggered(&previous, &current));
    // a counter that went backwards is no growth
    assert!(!retransmission.triggered(&current, &previous));
}

#[test]
fn zero_window_adds_both_directions_saturating() {
    let mut previous = counters(0, 0, 0);
    let mut current = counters(0, 0, u64::MAX);
    current.from_zero_window_advertisements = 5;
    previous.from_zero_window_advertisements = 0;
    assert!(ZeroWindowFactor { min_delta: u64::MAX }.triggered(&previous, &current));
    let current = RawCounters { to_zero_window_advertisements: 1, from_zero_window_advertisements: 1, ..previous.clone() };
    assert!(ZeroWindowFactor { min_delta: 2 }.triggered(&previous, &current));
    assert!(!ZeroWindowFactor { min_delta: 3 }.triggered(&previous, &current));
}

#[test]
fn delta_and_tail() {
    assert_eq!(delta(5, 3), 2);
    assert_eq!(delta(3, 5), 0);
    let values = [1.0, 2.0, 3.0];
    assert_eq!(tail(&values, 2), Some(&values[1..]));
    assert_eq!(tail(&values, 3), Some(&values[..]));
    assert_eq!(tail(&values, 4), None);
}

#[test]
fn stateless_factor_constructors_keep_settings() {
    let stability = RateStabilityFactor::new(RateStabilityConfig { enabled: true, window_ticks: 5, stability_frac: 0.1 });
    assert_eq!(stability.config.window_ticks, 5);
    assert_eq!(stability.name(), "rate_stability");
    let slope = RateSlopeZeroFactor::new(RateSlopeZeroConfig { enabled: true, window_ticks: 4, slope_threshold: 0.05 });
    assert_eq!(slope.config.slope_threshold, 0.05);
    assert_eq!(slope.name(), "rate_slope_zero");
    let jitter = RttJitterFactor::new(RttJitterConfig { enabled: false, jitter_ratio: 0.3 });
    assert_eq!(jitter.config.jitter_ratio, 0.3);
    assert_eq!(jitter.name(), "rtt_jitter");
}

#[test]
fn rtt_baseline_is_bounded() {
    let mut factor = RttInflationFactor::new(RttInflationConfig { enabled: true, baseline_samples: 2, inflation_ratio: 1.5 });
    assert!(!factor.baseline_ready());
    for mean in [10.0, 20.0, 30.0] {
        factor.record_baseline(mean);
    }
    assert!(factor.baseline_ready());
    assert_eq!(factor.baseline().iter().copied().collect::<Vec<f64>>(), vec![20.0, 30.0]);
    assert_eq!(factor.config().inflation_ratio, 1.5);
}

#[test]
fn cwnd_memory_skips_missing_readings() {
    let mut factor = CwndShrinkFactor::new(CwndShrinkConfig { enabled: true, shrink_ratio: 0.5 });
    assert_eq!(factor.previous_cwnd(), None);
    factor.record_cwnd(Some(10.0));
    factor.record_cwnd(None);
    assert_eq!(factor.previous_cwnd(), Some(&10.0));
    assert_eq!(factor.name(), "cwnd_shrink");
}

#[test]
fn connection_window_reports_full_windows() {
    let mut factor = ConnUpThroughputFlatFactor::new(
        ConnUpThroughputFlatConfig { enabled: true, conn_growth_ratio: 1.5 },
        RateSlopeZeroConfig { enabled: true, window_ticks: 3, slope_threshold: 0.05 },
    );
    assert_eq!(factor.record_connections(4), None);
    assert_eq!(factor.record_connections(5), None);
    assert_eq!(factor.record_connections(6), Some((4, 6)));
    assert_eq!(factor.record_connections(9), Some((5, 9)));
    // an unknown (zero) count restarts the window
    assert_eq!(factor.record_connections(0), None);
    assert_eq!(factor.record_connections(7), None);
    assert_eq!(factor.rate_config().window_ticks, 3);
    assert_eq!(factor.config().conn_growth_ratio, 1.5);
    assert_eq!(factor.name(), "conn_up_throughput_flat");
}

fn settings(all: bool) -> FactorsConfig<f64> {
    let counter = CounterFactorConfig { enabled: true, min_delta: 1 };
    FactorsConfig {
        retransmission: counter,
        timeout: CounterFactorConfig { enabled: true, min_delta: 3 },
        zero_window: counter,
        rate_stability: RateStabilityConfig { enabled: all, window_ticks: 5, stability_frac: 0.05 },
        rate_slope_zero: RateSlopeZeroConfig { enabled: all, window_ticks: 4, slope_threshold: 0.01 },
        rtt_inflation: RttInflationConfig { enabled: all, baseline_samples: 3, inflation_ratio: 1.5 },
        rtt_jitter: RttJitterConfig { enabled: all, jitter_ratio: 0.5 },
        cwnd_shrink: CwndShrinkConfig { enabled: all, shrink_ratio: 0.5 },
        conn_up_throughput_flat: ConnUpThroughputFlatConfig { enabled: all, conn_growth_ratio: 1.5 },
    }
}

#[test]
fn registry_holds_enabled_factors_in_order() {
    let counters_only = all_factors(&settings(false));
    let names: Vec<&str> = counters_only.iter().map(|f| f.name()).collect();
    assert_eq!(names, vec!["retransmission", "timeout", "zero_window"]);
    match &counters_only[1] {
        ConfiguredFactor::Timeout(f) => assert_eq!(f.min_delta, 3),
        _ => panic!("timeout expected second"),
    }
    let every = all_factors(&settings(true));
    let names: Vec<&str> = every.iter().map(|f| f.name()).collect();
    assert_eq!(
        names,
        vec![
            "retransmission",
            "timeout",
            "zero_window",
            "rate_stability",
            "rate_slope_zero",
            "rtt_inflation",
            "rtt_jitter",
            "cwnd_shrink",
            "conn_up_throughput_flat"
        ]
    );
    match &every[8] {
        ConfiguredFactor::ConnUpThroughputFlat(f) => assert_eq!(f.rate_config().window_ticks, 4),
        _ => panic!("growing-connections factor expected last"),
    }
}
