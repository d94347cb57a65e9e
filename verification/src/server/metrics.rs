//! How long a tick takes to compute.
//!
//! Worth measuring rather than assuming: the whole design rests on a tick
//! fitting inside 16.6 ms, and the failure mode when it stops fitting is a
//! game that feels wrong rather than an error anyone would notice.
use std::time::Duration;
use vstd::prelude::*;

verus! {

/// Whole microseconds in a duration: `Duration::as_micros`. Nothing about
/// the count is stated.
#[verifier::external_body]
fn whole_micros(d: &Duration) -> u128 {
    d.as_micros()
}

/// `slice::sort_unstable` on the samples: its documentation promises the
/// slice ends up sorted, holding the same values.
#[verifier::external_body]
fn sort_samples(v: &mut Vec<u32>)
    ensures
        sorted(final(v)@),
        final(v)@.to_multiset() == old(v)@.to_multiset(),
{
    v.sort_unstable();
}

/// Ascending.
pub open spec fn sorted(s: Seq<u32>) -> bool {
    forall|i: int, j: int| 0 <= i <= j < s.len() ==> s[i] <= s[j]
}

/// The sample at quantile `q` percent of a sorted window: index
/// `(len - 1) * q / 100`, rounded down.
pub open spec fn quantile_index(len: int, q: int) -> int {
    (len - 1) * q / 100
}

/// What a full window reports: median, 99th percentile and maximum of the
/// sorted samples.
pub open spec fn report_of(s: Seq<u32>) -> (u32, u32, u32) {
    (s[quantile_index(s.len() as int, 50)], s[quantile_index(s.len() as int, 99)], s[s.len() - 1])
}

pub struct MetricsView {
    pub samples: Seq<u32>,
    pub report_every: int,
}

/// Tick durations in microseconds, reported once per window.
#[derive(Debug)]
pub struct TickMetrics {
    samples_us: Vec<u32>,
    report_every: usize,
}

impl View for TickMetrics {
    type V = MetricsView;

    closed spec fn view(&self) -> MetricsView {
        MetricsView { samples: self.samples_us@, report_every: self.report_every as int }
    }
}

impl Default for TickMetrics {
    fn default() -> (m: Self)
        ensures
            m@.samples.len() == 0,
            m@.report_every == 0,
    {
        TickMetrics { samples_us: Vec::new(), report_every: 0 }
    }
}

impl TickMetrics {
    /// A report every `ticks` samples.
    pub fn reporting_every(ticks: usize) -> (m: Self)
        ensures
            m@.samples.len() == 0,
            m@.report_every == ticks,
    {
        TickMetrics { samples_us: Vec::with_capacity(ticks), report_every: ticks }
    }

    /// Record one tick's duration.
    pub fn record(&mut self, elapsed: Duration)
        ensures
            final(self)@.report_every == old(self)@.report_every,
            final(self)@.samples.len() == old(self)@.samples.len() + 1,
            final(self)@.samples.drop_last() == old(self)@.samples,
    {
        let us = whole_micros(&elapsed);
        self.record_micros(us);
    }

    /// Record one tick's duration in microseconds, saturating at `u32::MAX`.
    pub fn record_micros(&mut self, us: u128)
        ensures
            final(self)@.report_every == old(self)@.report_every,
            final(self)@.samples == old(self)@.samples.push(
                if us > u32::MAX {
                    u32::MAX
                } else {
                    us as u32
                },
            ),
    {
        let v: u32 = if us > u32::MAX as u128 {
            u32::MAX
        } else {
            us as u32
        };
        self.samples_us.push(v);
        assert(self@.samples.drop_last() =~= old(self)@.samples) by {
            assert(self@.samples =~= old(self)@.samples.push(v));
        }
    }

    /// Once a full window is in, `(p50, p99, max)` in microseconds, and the
    /// window starts over; before that, nothing.
    pub fn take_report(&mut self) -> (r: Option<(u32, u32, u32)>)
        ensures
            old(self)@.samples.len() < (if old(self)@.report_every > 1 {
                old(self)@.report_every
            } else {
                1
            }) ==> r is None && final(self)@ == old(self)@,
            old(self)@.samples.len() >= (if old(self)@.report_every > 1 {
                old(self)@.report_every
            } else {
                1
            }) ==> final(self)@.samples.len() == 0 && final(self)@.report_every
                == old(self)@.report_every && exists|s: Seq<u32>|
                sorted(s) && s.to_multiset() == old(self)@.samples.to_multiset() && r == Some(
                    #[trigger] report_of(s),
                ),
    {
        let window: usize = if self.report_every > 1 {
            self.report_every
        } else {
            1
        };
        if self.samples_us.len() < window {
            return None;
        }
        let mut sorted_samples: Vec<u32> = Vec::new();
        std::mem::swap(&mut sorted_samples, &mut self.samples_us);
        sort_samples(&mut sorted_samples);
        proof {
            sorted_samples@.to_multiset_ensures();
            old(self)@.samples.to_multiset_ensures();
        }
        let n = sorted_samples.len();
        let last = n - 1;
        let p50 = sorted_samples[last / 2];
        let i99 = ((last as u128) * 99 / 100) as usize;
        let p99 = sorted_samples[i99];
        let max = sorted_samples[last];
        proof {
            assert(report_of(sorted_samples@) == (p50, p99, max));
        }
        Some((p50, p99, max))
    }
}

} // verus!
