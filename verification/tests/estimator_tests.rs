use vps_bandwidth_observer::estimator::{EstimatorError, Extremum, Slot, WindowedExtremum};

/// Order key of a finite float: integer order equals float order.
fn key(x: f64) -> u64 {
    let x = if x == 0.0 { 0.0 } else { x };
    let bits = x.to_bits();
    if bits >> 63 == 1 {
        !bits
    } else {
        bits | (1 << 63)
    }
}

fn unkey(k: u64) -> f64 {
    let bits = if k >> 63 == 1 { k & !(1u64 << 63) } else { !k };
    f64::from_bits(bits)
}

fn bucket(timestamp: f64, window_seconds: f64) -> i64 {
    (timestamp / (window_seconds / 3.0)).floor() as i64
}

/// A float-valued filter over the verified integer core.
struct Filter {
    window_seconds: f64,
    core: WindowedExtremum,
}

impl Filter {
    fn max(window_seconds: f64) -> Option<Filter> {
        (window_seconds.is_finite() && window_seconds > 0.0).then(|| Filter {
            window_seconds,
            core: WindowedExtremum::new(Extremum::Max),
        })
    }

    fn min(window_seconds: f64) -> Option<Filter> {
        (window_seconds.is_finite() && window_seconds > 0.0).then(|| Filter {
            window_seconds,
            core: WindowedExtremum::new(Extremum::Min),
        })
    }

    fn feed(&mut self, value: f64, timestamp: f64) -> Result<f64, EstimatorError> {
        self.core
            .feed(key(value), key(timestamp), bucket(timestamp, self.window_seconds))
            .map(unkey)
    }

    fn advance(&mut self, timestamp: f64) -> Result<Option<f64>, EstimatorError> {
        self.core
            .advance(key(timestamp), bucket(timestamp, self.window_seconds))
            .map(|estimate| estimate.map(unkey))
    }
}

#[test]
fn order_keys_preserve_float_order() {
    let values = [-1e300, -5.5, -1.0, -0.0, 0.0, 1e-300, 1.0, 2.5, 1e300];
    for a in values {
        assert_eq!(unkey(key(a)), if a == 0.0 { 0.0 } else { a });
        for b in values {
            assert_eq!(a < b, key(a) < key(b), "{a} {b}");
            assert_eq!(a == b, key(a) == key(b), "{a} {b}");
        }
    }
}

#[test]
fn max_tracks_increasing_and_decreasing_samples() {
    let mut filter = Filter::max(60.0).unwrap();
    assert_eq!(filter.feed(10.0, 0.0).unwrap(), 10.0);
    assert_eq!(filter.feed(20.0, 2.0).unwrap(), 20.0);
    assert_eq!(filter.feed(15.0, 4.0).unwrap(), 20.0);
    assert_eq!(filter.feed(30.0, 22.0).unwrap(), 30.0);
    assert_eq!(filter.feed(5.0, 24.0).unwrap(), 30.0);
}

#[test]
fn oldest_subwindow_expiry_promotes_next_maximum() {
    let mut filter = Filter::max(60.0).unwrap();
    filter.feed(100.0, 0.0).unwrap();
    filter.feed(80.0, 21.0).unwrap();
    filter.feed(70.0, 41.0).unwrap();
    assert_eq!(filter.feed(60.0, 60.0).unwrap(), 80.0);
    assert_eq!(filter.feed(50.0, 81.0).unwrap(), 70.0);
}

#[test]
fn cold_start_low_sample_never_blocks_later_high_sample() {
    let mut filter = Filter::max(60.0).unwrap();
    assert_eq!(filter.feed(113_000.0, 0.0).unwrap(), 113_000.0);
    assert_eq!(filter.feed(188_000_000.0, 2.0).unwrap(), 188_000_000.0);
    assert_eq!(filter.feed(1_000.0, 4.0).unwrap(), 188_000_000.0);
}

#[test]
fn min_filter_is_symmetric() {
    let mut filter = Filter::min(60.0).unwrap();
    assert_eq!(filter.feed(50.0, 0.0).unwrap(), 50.0);
    assert_eq!(filter.feed(10.0, 2.0).unwrap(), 10.0);
    assert_eq!(filter.feed(20.0, 4.0).unwrap(), 10.0);
}

#[test]
fn advance_expires_all_old_slots() {
    let mut filter = Filter::max(60.0).unwrap();
    filter.feed(50.0, 0.0).unwrap();
    assert_eq!(filter.advance(60.0).unwrap(), None);
}

#[test]
fn invalid_window_is_refused_by_the_float_front() {
    assert!(Filter::max(0.0).is_none());
    assert!(Filter::max(f64::NAN).is_none());
}

#[test]
fn backward_timestamp_is_refused_and_state_kept() {
    let mut filter = WindowedExtremum::new(Extremum::Max);
    assert_eq!(filter.feed(7, 100, 5), Ok(7));
    let before = filter;
    assert_eq!(
        filter.feed(9, 99, 4),
        Err(EstimatorError::TimestampMovedBackward { previous: 100, received: 99 })
    );
    assert_eq!(
        filter.advance(50, 1),
        Err(EstimatorError::TimestampMovedBackward { previous: 100, received: 50 })
    );
    assert_eq!(filter.slots, before.slots);
    assert_eq!(filter.last_timestamp, Some(100));
    assert_eq!(filter.estimate(), Some(7));
}

#[test]
fn equal_timestamp_is_accepted() {
    let mut filter = WindowedExtremum::new(Extremum::Max);
    assert_eq!(filter.feed(3, 10, 0), Ok(3));
    assert_eq!(filter.feed(4, 10, 0), Ok(4));
}

#[test]
fn slots_rotate_by_subwindow_number() {
    let mut filter = WindowedExtremum::new(Extremum::Max);
    filter.feed(1, 0, -1).unwrap();
    assert_eq!(filter.slots[2], Some(Slot { bucket: -1, value: 1, timestamp: 0 }));
    filter.feed(5, 1, 3).unwrap();
    assert_eq!(filter.slots[0], Some(Slot { bucket: 3, value: 5, timestamp: 1 }));
    // sub-window -1 is four sub-windows behind 3: expired
    assert_eq!(filter.slots[2], None);
    assert_eq!(filter.estimate(), Some(5));
}

#[test]
fn equal_value_keeps_first_timestamp() {
    let mut filter = WindowedExtremum::new(Extremum::Max);
    filter.feed(8, 1, 0).unwrap();
    filter.feed(8, 2, 0).unwrap();
    assert_eq!(filter.slots[0], Some(Slot { bucket: 0, value: 8, timestamp: 1 }));
}

#[test]
fn window_law_on_a_concrete_run() {
    // the estimate is the best sample of the last three sub-windows
    let mut filter = WindowedExtremum::new(Extremum::Max);
    let readings = [(40, 0, 0), (90, 1, 1), (10, 2, 2), (30, 3, 3), (20, 4, 4)];
    let mut results = Vec::new();
    for (value, timestamp, bucket) in readings {
        results.push(filter.feed(value, timestamp, bucket).unwrap());
    }
    assert_eq!(results, vec![40, 90, 90, 90, 30]);
    assert_eq!(filter.advance(5, 6).unwrap(), Some(20));
    assert_eq!(filter.advance(6, 7).unwrap(), None);
}

#[test]
fn kind_is_reported() {
    assert_eq!(WindowedExtremum::new(Extremum::Min).kind(), Extremum::Min);
    assert_eq!(WindowedExtremum::new(Extremum::Max).estimate(), None);
}

#[test]
fn min_filter_mirrors_max_filter() {
    let readings = [(40u64, 0u64, 0i64), (90, 1, 1), (10, 2, 2), (30, 3, 3), (20, 4, 4)];
    let mut min = WindowedExtremum::new(Extremum::Min);
    let mut max = WindowedExtremum::new(Extremum::Max);
    for (value, timestamp, bucket) in readings {
        let low = min.feed(value, timestamp, bucket).unwrap();
        let high = max.feed(u64::MAX - value, timestamp, bucket).unwrap();
        assert_eq!(low, u64::MAX - high);
    }
    assert_eq!(min.estimate(), Some(10));
}
