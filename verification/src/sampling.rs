//! The dual-threshold sampler: a rate limiter for expensive telemetry.
//!
//! A sample fires only when enough calls *and* enough time have passed
//! since the last firing; both gauges reset on a firing. A zero time
//! threshold degenerates to pure count-based sampling.

use vstd::prelude::*;

verus! {

/// A dual-threshold rate limiter: a call counter with a count threshold,
/// and a timestamp with a time threshold.
pub struct SamplingInterval {
    pub count_threshold: u64,
    pub time_threshold_ms: u64,
    pub cur_count: u64,
    pub last_sample_ms: u64,
}

/// Whole milliseconds from `last` to `now`; zero if the clock moved back.
pub open spec fn elapsed_ms(last: u64, now: u64) -> int {
    if now >= last {
        now - last
    } else {
        0
    }
}

/// What one sampling decision does to the sampler: it fires exactly when
/// both thresholds are met, and then resets both gauges; otherwise it
/// counts the call.
pub open spec fn sample_step(
    pre: SamplingInterval,
    now: u64,
    post: SamplingInterval,
    fired: bool,
) -> bool {
    &&& fired == (pre.cur_count >= pre.count_threshold && elapsed_ms(pre.last_sample_ms, now)
        >= pre.time_threshold_ms)
    &&& post.count_threshold == pre.count_threshold
    &&& post.time_threshold_ms == pre.time_threshold_ms
    &&& (if fired {
        post.cur_count == 0 && post.last_sample_ms == now
    } else {
        post.last_sample_ms == pre.last_sample_ms && post.cur_count == (if pre.cur_count
            < u64::MAX {
            (pre.cur_count + 1) as u64
        } else {
            u64::MAX
        })
    })
}

/// Relies on `std::time::SystemTime::now` of std: the wall clock, read
/// as whole milliseconds since the Unix epoch; zero should the clock
/// predate it. Nothing is promised of the value.
#[verifier::external_body]
fn now_millis() -> u64 {
    match std::time::SystemTime::now().duration_since(std::time::UNIX_EPOCH) {
        Ok(d) => d.as_millis() as u64,
        Err(_) => 0,
    }
}

impl SamplingInterval {
    /// A sampler whose gauges start as of `now_ms`.
    pub fn new_at(time_threshold_ms: u64, count_threshold: u64, now_ms: u64) -> (s:
        SamplingInterval)
        ensures
            s.count_threshold == count_threshold,
            s.time_threshold_ms == time_threshold_ms,
            s.cur_count == 0,
            s.last_sample_ms == now_ms,
    {
        SamplingInterval { count_threshold, time_threshold_ms, cur_count: 0, last_sample_ms: now_ms }
    }

    /// A sampler whose gauges start now, on the wall clock.
    pub fn new(time_threshold_ms: u64, count_threshold: u64) -> (s: SamplingInterval)
        ensures
            s.count_threshold == count_threshold,
            s.time_threshold_ms == time_threshold_ms,
            s.cur_count == 0,
    {
        let now = now_millis();
        SamplingInterval::new_at(time_threshold_ms, count_threshold, now)
    }

    /// One sampling decision against an explicit clock reading.
    pub fn sample_at(&mut self, now_ms: u64) -> (fired: bool)
        ensures
            sample_step(*old(self), now_ms, *final(self), fired),
    {
        let elapsed: u64 = if now_ms >= self.last_sample_ms {
            now_ms - self.last_sample_ms
        } else {
            0
        };
        if self.cur_count >= self.count_threshold && elapsed >= self.time_threshold_ms {
            self.cur_count = 0;
            self.last_sample_ms = now_ms;
            true
        } else {
            if self.cur_count < u64::MAX {
                self.cur_count = self.cur_count + 1;
            }
            false
        }
    }

    /// One sampling decision against the wall clock. With a zero time
    /// threshold the decision is purely count-based: true exactly when
    /// the count threshold has been reached.
    pub fn sample(&mut self) -> (fired: bool)
        ensures
            exists|now: u64| sample_step(*old(self), now, *final(self), fired),
            old(self).time_threshold_ms == 0 ==> fired == (old(self).cur_count >= old(
                self,
            ).count_threshold),
    {
        let now = now_millis();
        let fired = self.sample_at(now);
        proof {
            assert(sample_step(*old(self), now, *self, fired));
        }
        fired
    }
}

} // verus!
