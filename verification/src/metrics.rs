//! Metrics: the keys that measurements are filed under, counters and
//! timers, and the time slots that measurements are aggregated in.
use vstd::prelude::*;
use std::collections::VecDeque;

pub mod builtin_metrics;

verus! {

/// How the measurements of one time slot are aggregated into a data point.
#[derive(Debug, Clone, Copy, PartialEq, Eq, Structural, PartialOrd, Ord, Hash)]
pub enum MetricAggregate {
    Minimum,
    Maximum,
    Average,
    Sum,
    Count,
    P95,
    P99,
}

/// Identifier for a metric.
#[derive(Debug, Clone, Copy, PartialEq, Eq, Structural, PartialOrd, Ord, Hash)]
pub struct MetricKey {
    pub metric_id: u16,
    pub aggregate: MetricAggregate,
}

impl MetricKey {
    pub fn new(metric_id: u16, aggregate: MetricAggregate) -> (r: Self)
        ensures
            r.metric_id == metric_id,
            r.aggregate == aggregate,
    {
        MetricKey { metric_id, aggregate }
    }
}

/// The value of a counting metric, with the key it is filed under.
#[derive(Debug)]
pub struct CounterMetric {
    key: MetricKey,
    value: u32,
}

impl CounterMetric {
    pub closed spec fn key(&self) -> MetricKey {
        self.key
    }

    pub closed spec fn count(&self) -> u32 {
        self.value
    }

    /// A counter at zero.
    pub fn new(metric_id: u16, aggregate: MetricAggregate) -> (r: Self)
        ensures
            r.key() == (MetricKey { metric_id, aggregate }),
            r.count() == 0,
    {
        CounterMetric { key: MetricKey { metric_id, aggregate }, value: 0 }
    }

    /// Adds to the count, which must not overflow.
    pub fn incr(&mut self, value: u32)
        requires
            old(self).count() + value <= u32::MAX,
        ensures
            final(self).count() == old(self).count() + value,
            final(self).key() == old(self).key(),
    {
        self.value = self.value + value;
    }

    /// Subtracts from the count, which must not go below zero.
    pub fn decr(&mut self, value: u32)
        requires
            old(self).count() >= value,
        ensures
            final(self).count() == old(self).count() - value,
            final(self).key() == old(self).key(),
    {
        self.value = self.value - value;
    }

    pub fn set(&mut self, value: u32)
        ensures
            final(self).count() == value,
            final(self).key() == old(self).key(),
    {
        self.value = value;
    }

    pub fn value(&self) -> (r: u32)
        ensures
            r == self.count(),
    {
        self.value
    }

    pub fn metric_key(&self) -> (r: MetricKey)
        ensures
            r == self.key(),
    {
        self.key
    }
}

/// Whether a timing metric has been stopped, with the key it is filed under.
#[derive(Debug)]
pub struct TimerMetric {
    key: MetricKey,
    stopped: bool,
}

impl TimerMetric {
    pub closed spec fn key(&self) -> MetricKey {
        self.key
    }

    pub closed spec fn is_stopped(&self) -> bool {
        self.stopped
    }

    /// A running timer.
    pub fn new(metric_id: u16, aggregate: MetricAggregate) -> (r: Self)
        ensures
            r.key() == (MetricKey { metric_id, aggregate }),
            !r.is_stopped(),
    {
        TimerMetric { key: MetricKey { metric_id, aggregate }, stopped: false }
    }

    pub fn stopped(&self) -> (r: bool)
        ensures
            r == self.is_stopped(),
    {
        self.stopped
    }

    /// Stops the timer. Returns whether this call stopped it, so that the
    /// measurement is recorded exactly once, by the first call.
    pub fn stop(&mut self) -> (record: bool)
        ensures
            stop_step(old(self).is_stopped(), record, final(self).is_stopped()),
            final(self).key() == old(self).key(),
    {
        if !self.stopped {
            self.stopped = true;
            true
        } else {
            false
        }
    }
}

/// One call of [`TimerMetric::stop`]: it records when the timer was
/// running, and leaves it stopped.
pub open spec fn stop_step(stopped_before: bool, record: bool, stopped_after: bool) -> bool {
    record == !stopped_before && stopped_after
}

/// A timer records exactly once over any run of `stop` calls: given the
/// stopped states before and after each call and what each call recorded,
/// only the first call can record, and it does if the timer was running.
pub proof fn lemma_stop_records_once(stopped: Seq<bool>, records: Seq<bool>)
    requires
        stopped.len() == records.len() + 1,
        forall|i: int| 0 <= i < records.len() ==> stop_step(stopped[i], #[trigger] records[i], stopped[i + 1]),
    ensures
        records.len() > 0 ==> records[0] == !stopped[0],
        forall|i: int| 0 < i < records.len() ==> !#[trigger] records[i],
{
    assert forall|i: int| 0 < i < records.len() implies !#[trigger] records[i] by {
        assert(stop_step(stopped[i - 1], records[i - 1], stopped[i]));
        assert(stop_step(stopped[i], records[i], stopped[i + 1]));
    }
    if records.len() > 0 {
        assert(stop_step(stopped[0], records[0], stopped[1]));
    }
}

/// Drops the oldest data points of a time series beyond
/// `max_data_points`, keeping the newest ones in order, to bound the memory
/// that a series takes.
pub fn limit_data_points<T>(data_points: &mut VecDeque<T>, max_data_points: usize)
    ensures
        old(data_points)@.len() > max_data_points ==> final(data_points)@ == old(data_points)@.skip(
            old(data_points)@.len() - max_data_points,
        ),
        old(data_points)@.len() <= max_data_points ==> final(data_points)@ == old(data_points)@,
{
    if data_points.len() > max_data_points {
        let overflow = data_points.len() - max_data_points;
        let mut i: usize = 0;
        while i < overflow
            invariant
                i <= overflow,
                overflow == old(data_points)@.len() - max_data_points,
                data_points@ == old(data_points)@.skip(i as int),
            decreases overflow - i,
        {
            let _ = data_points.pop_front();
            i = i + 1;
            proof {
                assert(data_points@ =~= old(data_points)@.skip(i as int));
            }
        }
    }
}

/// Integer division rounding toward zero.
/// (Spec `/` divides with a non-negative remainder, which rounds a
/// non-negative dividend toward zero whatever the divisor's sign.)
pub open spec fn div_toward_zero(a: int, b: int) -> int {
    if a >= 0 {
        a / b
    } else {
        -((-a) / b)
    }
}

/// The signed 64-bit integer that the low 64 bits of `x` make, as
/// `x as i64` reads them.
pub open spec fn low_signed_64(x: u128) -> int {
    let low = x % 0x1_0000_0000_0000_0000;
    if low < 0x8000_0000_0000_0000 {
        low as int
    } else {
        low - 0x1_0000_0000_0000_0000
    }
}

/// The time slot that a measurement taken at `timestamp_millis` falls in,
/// when slots are `interval_millis` long: the timestamp divided by the
/// interval, rounding toward zero. The interval is taken as the 64-bit
/// signed integer that its low 64 bits make; `None` when that is zero.
///
/// The one division that overflows, of the least timestamp by an interval
/// of minus one, is excluded.
pub fn datetime_to_slot(timestamp_millis: i64, interval_millis: u128) -> (r: Option<i64>)
    requires
        !(timestamp_millis == i64::MIN && low_signed_64(interval_millis) == -1),
    ensures
        low_signed_64(interval_millis) == 0 ==> r is None,
        low_signed_64(interval_millis) != 0 ==> r is Some && r->0 == div_toward_zero(
            timestamp_millis as int,
            low_signed_64(interval_millis),
        ),
{
    let low: u64 = (interval_millis % 0x1_0000_0000_0000_0000u128) as u64;
    let interval = #[verifier::truncate] (low as i64);
    proof {
        assert(low < 0x8000_0000_0000_0000u64 ==> interval == low) by (bit_vector)
            requires
                interval == #[verifier::truncate] (low as i64),
        ;
        assert(low >= 0x8000_0000_0000_0000u64 ==> interval < 0 && low == (interval + 0x1_0000_0000_0000_0000) as u64) by (bit_vector)
            requires
                interval == #[verifier::truncate] (low as i64),
        ;
        assert(interval as int == low_signed_64(interval_millis));
    }
    if interval == 0 {
        None
    } else {
        // Rust's division rounds toward zero; a negative divisor divides the
        // negated quotient of its magnitude.
        let q: i64 = if interval > 0 {
            timestamp_millis / interval
        } else if interval == i64::MIN {
            if timestamp_millis == i64::MIN { 1 } else { 0 }
        } else {
            let p = timestamp_millis / (-interval);
            proof {
                let (a, m) = (timestamp_millis as int, -(interval as int));
                if a >= 0 {
                    assert(p as int == a / m);
                    assert(0 <= a / m <= a) by (nonlinear_arith)
                        requires
                            a >= 0,
                            m >= 1,
                    ;
                } else {
                    assert(p as int == -((-a) / m));
                    assert(0 <= (-a) / m <= -a) by (nonlinear_arith)
                        requires
                            -a > 0,
                            m >= 1,
                    ;
                    if m == 1 {
                        assert((-a) / m == -a) by (nonlinear_arith)
                            requires
                                m == 1,
                        ;
                    } else {
                        assert((-a) / m < -a) by (nonlinear_arith)
                            requires
                                -a > 0,
                                m >= 2,
                        ;
                    }
                }
            }
            -p
        };
        proof {
            let (a, b) = (timestamp_millis as int, interval as int);
            if b < 0 && b != i64::MIN {
                let m = -b;
                if a >= 0 {
                    assert(a / b == -(a / m)) by (nonlinear_arith)
                        requires
                            a >= 0,
                            m > 0,
                            b == -m,
                    {
                        let q = a / m;
                        let r = a % m;
                        assert(a == m * q + r);
                        assert(a == b * (-q) + r);
                    }
                } else {
                    assert((-a) / b == -((-a) / m)) by (nonlinear_arith)
                        requires
                            -a > 0,
                            m > 0,
                            b == -m,
                    {
                        let q = (-a) / m;
                        let r = (-a) % m;
                        assert(-a == m * q + r);
                        assert(-a == b * (-q) + r);
                    }
                }
            } else if b == i64::MIN {
                if a >= 0 {
                    assert(a / b == 0) by (nonlinear_arith)
                        requires
                            0 <= a < 0x8000_0000_0000_0000,
                            b == -0x8000_0000_0000_0000,
                    {
                        assert(a == b * 0 + a);
                    }
                } else if a == i64::MIN {
                    assert((-a) / b == -1) by (nonlinear_arith)
                        requires
                            -a == 0x8000_0000_0000_0000,
                            b == -0x8000_0000_0000_0000,
                    {
                        assert(-a == b * (-1) + 0);
                    }
                } else {
                    assert((-a) / b == 0) by (nonlinear_arith)
                        requires
                            0 < -a < 0x8000_0000_0000_0000,
                            b == -0x8000_0000_0000_0000,
                    {
                        assert(-a == b * 0 + (-a));
                    }
                }
            } else {
                if a >= 0 {
                    assert(q as int == a / b);
                } else {
                    assert(q as int == -((-a) / b));
                }
            }
        }
        Some(q)
    }
}

} // verus!
