use rengine::metrics::builtin_metrics::{GRAPHICS_DRAW_CALLS, GRAPHICS_RENDER, SCENE_UPDATE};
use rengine::metrics::{datetime_to_slot, limit_data_points, CounterMetric, MetricAggregate, MetricKey, TimerMetric};
use std::collections::VecDeque;

#[test]
fn counter_set_incr_decr() {
    const EXAMPLE_METRIC: u16 = 1;
    let mut counter = CounterMetric::new(EXAMPLE_METRIC, MetricAggregate::Average);
    counter.set(10);
    counter.incr(5);
    counter.decr(2);
    assert_eq!(13, counter.value());
    assert_eq!(counter.metric_key(), MetricKey::new(EXAMPLE_METRIC, MetricAggregate::Average));
}

#[test]
fn counter_starts_at_zero() {
    let counter = CounterMetric::new(3, MetricAggregate::Sum);
    assert_eq!(counter.value(), 0);
}

#[test]
fn timer_stops_once() {
    const EXAMPLE_METRIC: u16 = 1;
    let mut timer = TimerMetric::new(EXAMPLE_METRIC, MetricAggregate::Maximum);
    assert!(!timer.stopped());
    assert!(timer.stop());
    assert!(timer.stopped());
    // A second stop records nothing.
    assert!(!timer.stop());
    assert!(timer.stopped());
}

#[test]
fn metric_key_fields() {
    let key = MetricKey::new(SCENE_UPDATE, MetricAggregate::P95);
    assert_eq!(key.metric_id, 1000);
    assert_eq!(key.aggregate, MetricAggregate::P95);
    assert_eq!(GRAPHICS_RENDER, 2000);
    assert_eq!(GRAPHICS_DRAW_CALLS, 2010);
}

#[test]
fn slot_of_timestamp() {
    assert_eq!(datetime_to_slot(12_345, 1000), Some(12));
    assert_eq!(datetime_to_slot(1000, 1000), Some(1));
    assert_eq!(datetime_to_slot(999, 1000), Some(0));
    assert_eq!(datetime_to_slot(0, 7), Some(0));
}

#[test]
fn slot_of_zero_interval_is_none() {
    assert_eq!(datetime_to_slot(12_345, 0), None);
    // Only the low 64 bits of the interval count.
    assert_eq!(datetime_to_slot(12_345, 1u128 << 64), None);
}

#[test]
fn slot_rounds_toward_zero() {
    assert_eq!(datetime_to_slot(-1500, 1000), Some(-1));
    assert_eq!(datetime_to_slot(-999, 1000), Some(0));
    // An interval whose low 64 bits read as a negative number.
    assert_eq!(datetime_to_slot(10, u64::MAX as u128), Some(-10));
    assert_eq!(datetime_to_slot(i64::MIN, (1u128 << 63) as u128), Some(1));
    assert_eq!(datetime_to_slot(5, (1u128 << 63) as u128), Some(0));
}

#[test]
fn data_points_limited_to_newest() {
    let mut points: VecDeque<i32> = (1..=10).collect();
    limit_data_points(&mut points, 4);
    assert_eq!(points, VecDeque::from(vec![7, 8, 9, 10]));
    limit_data_points(&mut points, 4);
    assert_eq!(points.len(), 4);
    limit_data_points(&mut points, 8);
    assert_eq!(points, VecDeque::from(vec![7, 8, 9, 10]));
    limit_data_points(&mut points, 0);
    assert!(points.is_empty());
}

#[test]
fn timer_records_once_over_many_stops() {
    let mut timer = TimerMetric::new(7, MetricAggregate::Sum);
    let records: Vec<bool> = (0..5).map(|_| timer.stop()).collect();
    assert_eq!(records, vec![true, false, false, false, false]);
    assert!(timer.stopped());
}
