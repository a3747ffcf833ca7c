//! How often a long task reports its progress.

use std::time::Instant;
use vstd::prelude::*;

verus! {

/// A reading of the monotonic clock.
#[verifier::external_type_specification]
#[verifier::external_body]
pub struct ExInstant(std::time::Instant);

/// Reads the clock, by `std::time::Instant::now`. Nothing is claimed of the reading.
#[verifier::external_body]
fn clock() -> (now: Instant) {
    Instant::now()
}

/// How long after a reading of the clock something is.
#[derive(Debug)]
pub struct Passed {
    pub since: Instant,
    pub nanos: u128,
}

/// How long after an earlier reading of the clock it is now, by `std::time::Instant::elapsed`. The
/// time is counted from that reading; nothing is claimed of how long it is.
#[verifier::external_body]
fn passed_since(earlier: &Instant) -> (passed: Passed)
    ensures
        passed.since == *earlier,
{
    Passed { since: *earlier, nanos: earlier.elapsed().as_nanos() }
}

/// How many nanoseconds lie between two reports at least: ten seconds.
pub const REPORT_INTERVAL_NANOS: u128 = 10_000_000_000;

/// A report: how much is done, how long that took and, where the time that is left is to be
/// estimated, how much is left to do.
#[derive(Clone, Copy, PartialEq, Eq, Structural, Debug)]
pub struct Progress {
    pub completed: usize,
    pub total: usize,
    pub elapsed_nanos: u128,
    pub remaining: Option<usize>,
}

/// The report that is made `nanos_since_last` after the last one: at the end always, and otherwise
/// when the last one is old enough. The time that is left is estimated, unless nothing or all is
/// done.
pub fn progress_at(
    completed: usize,
    total: usize,
    nanos_since_last: u128,
    elapsed_nanos: u128,
) -> (report: Option<Progress>)
    ensures
        report is Some <==> completed >= total || nanos_since_last >= REPORT_INTERVAL_NANOS,
        report matches Some(report) ==> {
            &&& report.completed == completed
            &&& report.total == total
            &&& report.elapsed_nanos == elapsed_nanos
            &&& report.remaining == (if 0 < completed < total {
                Some((total - completed) as usize)
            } else {
                None
            })
        },
{
    if completed < total && nanos_since_last < REPORT_INTERVAL_NANOS {
        return None;
    }
    let remaining: Option<usize> = if completed > 0 && completed < total {
        Some(total - completed)
    } else {
        None
    };
    Some(Progress { completed, total, elapsed_nanos, remaining })
}

/// The report that is made with a remark: only when the last one is old enough, and always with an
/// estimate of the time that is left.
pub fn remarked_progress_at(
    completed: usize,
    total: usize,
    nanos_since_last: u128,
    elapsed_nanos: u128,
) -> (report: Option<Progress>)
    requires
        completed <= total,
    ensures
        report is Some <==> nanos_since_last >= REPORT_INTERVAL_NANOS,
        report matches Some(report) ==> {
            &&& report.completed == completed
            &&& report.total == total
            &&& report.elapsed_nanos == elapsed_nanos
            &&& report.remaining == Some((total - completed) as usize)
        },
{
    if nanos_since_last < REPORT_INTERVAL_NANOS {
        return None;
    }
    Some(Progress { completed, total, elapsed_nanos, remaining: Some(total - completed) })
}

/// The report that is made while nothing moves: only when the last one is old enough, and without
/// an estimate.
pub fn stalled_progress_at(
    completed: usize,
    total: usize,
    nanos_since_last: u128,
    elapsed_nanos: u128,
) -> (report: Option<Progress>)
    ensures
        report is Some <==> nanos_since_last >= REPORT_INTERVAL_NANOS,
        report matches Some(report) ==> {
            &&& report.completed == completed
            &&& report.total == total
            &&& report.elapsed_nanos == elapsed_nanos
            &&& report.remaining is None
        },
{
    if nanos_since_last < REPORT_INTERVAL_NANOS {
        return None;
    }
    Some(Progress { completed, total, elapsed_nanos, remaining: None })
}

/// The progress of a task with a known number of parts. When it was last reported is counted in
/// nanoseconds from its start; the start counts as a report.
#[derive(Debug)]
pub struct HeartbeatProgress {
    pub label: &'static str,
    pub total: usize,
    pub start: Instant,
    pub last_log: u128,
}

impl HeartbeatProgress {
    /// Whether the task is the same, begun at the same time.
    pub open spec fn same_task(&self, other: &HeartbeatProgress) -> bool {
        &&& self.label == other.label
        &&& self.total == other.total
        &&& self.start == other.start
    }

    /// Whether the last report is ten seconds old, `now` nanoseconds after the start.
    pub open spec fn old_enough(&self, now: u128) -> bool {
        now >= self.last_log + REPORT_INTERVAL_NANOS
    }

    /// Ten seconds, in nanoseconds, make a report old enough.
    pub proof fn lemma_ten_seconds(&self, now: u128)
        ensures
            self.old_enough(now) <==> now - self.last_log >= 10_000_000_000,
    {
    }

    /// A task that begins now.
    pub fn new(label: &'static str, total: usize) -> (progress: HeartbeatProgress)
        ensures
            progress.label == label,
            progress.total == total,
            progress.last_log == 0,
    {
        HeartbeatProgress { label, total, start: clock(), last_log: 0 }
    }

    /// How many nanoseconds lie between the last report and `now`; none if that is earlier.
    fn since_last(&self, now: u128) -> (nanos: u128)
        ensures
            nanos >= REPORT_INTERVAL_NANOS <==> self.old_enough(now),
    {
        if now >= self.last_log {
            now - self.last_log
        } else {
            0
        }
    }

    /// Reports the progress, if all is done or the last report is ten seconds old.
    ///
    /// What is reported early is so only ten seconds after the last report, and every report is
    /// remembered as made at the time that it tells.
    pub fn maybe_log(&mut self, completed: usize) -> (report: Option<Progress>)
        ensures
            final(self).same_task(old(self)),
            completed >= old(self).total ==> report is Some,
            report is None ==> final(self).last_log == old(self).last_log,
            report matches Some(report) ==> {
                &&& completed >= old(self).total || old(self).old_enough(report.elapsed_nanos)
                &&& final(self).last_log == report.elapsed_nanos
                &&& report.completed == completed
                &&& report.total == old(self).total
                &&& report.remaining == (if 0 < completed < old(self).total {
                    Some((old(self).total - completed) as usize)
                } else {
                    None
                })
            },
    {
        let now: Passed = passed_since(&self.start);
        self.log_at(completed, now)
    }

    /// Reports the progress together with `extra`, if the last report is ten seconds old.
    ///
    /// Every report comes ten seconds after the last one, and is remembered as made at the time
    /// that it tells.
    pub fn maybe_log_with_extra<'e>(&mut self, completed: usize, extra: &'e str) -> (report: Option<
        (Progress, &'e str),
    >)
        requires
            completed <= old(self).total,
        ensures
            final(self).same_task(old(self)),
            report is None ==> final(self).last_log == old(self).last_log,
            report matches Some((report, note)) ==> {
                &&& old(self).old_enough(report.elapsed_nanos)
                &&& final(self).last_log == report.elapsed_nanos
                &&& report.completed == completed
                &&& report.total == old(self).total
                &&& report.remaining == Some((old(self).total - completed) as usize)
                &&& note == extra
            },
    {
        let now: Passed = passed_since(&self.start);
        self.log_with_extra_at(completed, extra, now)
    }

    /// Reports that the task is where it was, if the last report is ten seconds old.
    ///
    /// Every report comes ten seconds after the last one, and is remembered as made at the time
    /// that it tells.
    pub fn maybe_log_stalled(&mut self, completed: usize, context: &'static str) -> (report: Option<
        (Progress, &'static str),
    >)
        ensures
            final(self).same_task(old(self)),
            report is None ==> final(self).last_log == old(self).last_log,
            report matches Some((report, note)) ==> {
                &&& old(self).old_enough(report.elapsed_nanos)
                &&& final(self).last_log == report.elapsed_nanos
                &&& report.completed == completed
                &&& report.total == old(self).total
                &&& report.remaining is None
                &&& note == context
            },
    {
        let now: Passed = passed_since(&self.start);
        self.log_stalled_at(completed, context, now)
    }

    /// Reports the progress `now`, counted from the start, if all is done or the last report is
    /// then ten seconds old.
    pub fn log_at(&mut self, completed: usize, now: Passed) -> (report: Option<Progress>)
        requires
            now.since == old(self).start,
        ensures
            final(self).same_task(old(self)),
            report is Some <==> completed >= old(self).total || old(self).old_enough(now.nanos),
            final(self).last_log == (if completed >= old(self).total || old(self).old_enough(
                now.nanos,
            ) {
                now.nanos
            } else {
                old(self).last_log
            }),
            report matches Some(report) ==> {
                &&& report.completed == completed
                &&& report.total == old(self).total
                &&& report.elapsed_nanos == now.nanos
                &&& report.remaining == (if 0 < completed < old(self).total {
                    Some((old(self).total - completed) as usize)
                } else {
                    None
                })
            },
    {
        let since_last: u128 = self.since_last(now.nanos);
        let report: Option<Progress> = progress_at(completed, self.total, since_last, now.nanos);
        if report.is_some() {
            self.last_log = now.nanos;
        }
        report
    }

    /// Reports the progress `now`, counted from the start, together with `extra`, if the last
    /// report is then ten seconds old.
    pub fn log_with_extra_at<'e>(&mut self, completed: usize, extra: &'e str, now: Passed) -> (
        report: Option<(Progress, &'e str)>)
        requires
            completed <= old(self).total,
            now.since == old(self).start,
        ensures
            final(self).same_task(old(self)),
            report is Some <==> old(self).old_enough(now.nanos),
            final(self).last_log == (if old(self).old_enough(now.nanos) {
                now.nanos
            } else {
                old(self).last_log
            }),
            report matches Some((report, note)) ==> {
                &&& report.completed == completed
                &&& report.total == old(self).total
                &&& report.elapsed_nanos == now.nanos
                &&& report.remaining == Some((old(self).total - completed) as usize)
                &&& note == extra
            },
    {
        let since_last: u128 = self.since_last(now.nanos);
        match remarked_progress_at(completed, self.total, since_last, now.nanos) {
            None => None,
            Some(report) => {
                self.last_log = now.nanos;
                Some((report, extra))
            },
        }
    }

    /// Reports `now`, counted from the start, that the task is where it was, if the last report is
    /// then ten seconds old.
    pub fn log_stalled_at(&mut self, completed: usize, context: &'static str, now: Passed) -> (
        report: Option<(Progress, &'static str)>)
        requires
            now.since == old(self).start,
        ensures
            final(self).same_task(old(self)),
            report is Some <==> old(self).old_enough(now.nanos),
            final(self).last_log == (if old(self).old_enough(now.nanos) {
                now.nanos
            } else {
                old(self).last_log
            }),
            report matches Some((report, note)) ==> {
                &&& report.completed == completed
                &&& report.total == old(self).total
                &&& report.elapsed_nanos == now.nanos
                &&& report.remaining is None
                &&& note == context
            },
    {
        let since_last: u128 = self.since_last(now.nanos);
        match stalled_progress_at(completed, self.total, since_last, now.nanos) {
            None => None,
            Some(report) => {
                self.last_log = now.nanos;
                Some((report, context))
            },
        }
    }
}

} // verus!
