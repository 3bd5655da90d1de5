use vps_bandwidth_observer::config::{default_comment, CONFIG_COMMENT};
use vps_bandwidth_observer::history::History;

#[derive(Debug, Clone, PartialEq)]
struct MetricsPoint {
    timestamp: f64,
    estimate_down_bps: f64,
    estimate_up_bps: f64,
    congestion_down: f64,
    congestion_up: f64,
    window_max_down_bps: f64,
    window_max_up_bps: f64,
    triggered_factors: Vec<String>,
}

fn point(timestamp: f64, factor: &str) -> MetricsPoint {
    MetricsPoint {
        timestamp,
        estimate_down_bps: 100_000_000.0 + timestamp,
        estimate_up_bps: 50_000_000.0,
        congestion_down: 0.4,
        congestion_up: 0.2,
        window_max_down_bps: 110_000_000.0,
        window_max_up_bps: 55_000_000.0,
        triggered_factors: vec![factor.to_owned()],
    }
}

#[test]
fn history_is_bounded_and_current_is_newest() {
    let mut store = History::new(2);
    store.push(point(1.0, "first"));
    store.push(point(2.0, "second"));
    store.push(point(3.0, "third"));

    let history: Vec<MetricsPoint> = store.points().iter().cloned().collect();
    assert_eq!(history.len(), 2);
    assert_eq!(history[0].timestamp, 2.0);
    assert_eq!(store.current().cloned().unwrap().timestamp, 3.0);
    assert_eq!(history[1].triggered_factors, vec!["third".to_owned()]);
    assert_eq!(history[0].estimate_down_bps, 100_000_002.0);
}

#[test]
fn history_keeps_newest_str_points() {
    let mut history = History::new(2);
    assert_eq!(history.current(), None);
    history.push("first");
    history.push("second");
    history.push("third");
    assert_eq!(history.points().iter().copied().collect::<Vec<_>>(), vec!["second", "third"]);
    assert_eq!(history.current(), Some(&"third"));
    assert_eq!(history.capacity(), 2);
}

#[test]
fn default_comment_is_the_config_comment() {
    assert_eq!(default_comment(), CONFIG_COMMENT);
    assert!(default_comment().contains("nominal_ceiling_bps is REQUIRED"));
}
