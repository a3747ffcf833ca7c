//! How a request is turned into a query, and what is told of stops.

use crate::api::request::SolariRequest;
use crate::moments::UtcMoment;
use crate::timetable::distance::Distance;
use crate::timetable::{MmapTimetable, Time, Transfer};
use vstd::prelude::*;

verus! {

/// The bit pattern of the double 1500: how many metres away a stop to start from or end at may be.
pub const MAX_DISTANCE_BITS: u64 = 0x4097_7000_0000_0000;

/// How many stops to start from or end at are considered.
pub const MAX_CANDIDATE_STOPS: usize = 1000;

/// How many rounds are run at most, whatever a request allows.
pub const MOST_STEPS: usize = 5;

/// How many rounds are run at most after the first that reaches a target.
pub const MAX_STEP_DELTA: usize = 2;

/// How many stops are told of, unless a request says otherwise.
pub const DEBUG_STOPS: usize = 100;

/// A query: when to start or, if it is to arrive by then, when to be there, and its limits.
#[derive(Clone, Copy, PartialEq, Eq, Structural, Debug)]
pub struct PlanQuery {
    pub time: Time,
    pub arrive_by: bool,
    pub max_distance: Distance,
    pub max_candidate_stops: usize,
    pub max_steps: usize,
    pub max_step_delta: usize,
}

/// The lowest 32 bits of a number of seconds, which may be negative.
pub open spec fn low_seconds(seconds: i64) -> u32 {
    (seconds as int % 0x1_0000_0000) as u32
}

/// The lowest 32 bits differ from the number by whole multiples of `2^32`; a number that fits in 32
/// bits is what they say.
pub proof fn lemma_low_seconds(seconds: i64)
    ensures
        (seconds - low_seconds(seconds)) % 0x1_0000_0000 == 0,
        0 <= seconds <= 0xffff_ffff ==> low_seconds(seconds) == seconds,
{
}

/// The time of a moment, as far as 32 bits hold its seconds.
pub fn time_of(moment: &UtcMoment) -> (time: Time)
    ensures
        time.epoch_seconds == low_seconds(moment.seconds),
        0 <= moment.seconds <= 0xffff_ffff ==> time.epoch_seconds == moment.seconds,
        (moment.seconds - time.epoch_seconds) % 0x1_0000_0000 == 0,
{
    proof {
        lemma_low_seconds(moment.seconds);
    }
    let seconds: i64 = moment.seconds;
    let low: u32 = if seconds >= 0 {
        (seconds as u64 % 0x1_0000_0000) as u32
    } else {
        let back: u64 = (-(seconds + 1)) as u64 % 0x1_0000_0000;
        (0xffff_ffff - back) as u32
    };
    Time::from_epoch_seconds(low)
}

/// How long the search may be and where it starts: a deadline wins over a start, and where a
/// request names neither, it starts now.
pub fn plan(request: &SolariRequest, now: &UtcMoment) -> (query: PlanQuery)
    ensures
        query.arrive_by <==> request.end_at is Some,
        query.time.epoch_seconds == low_seconds(
            match (request.end_at, request.start_at) {
                (Some(end_at), _) => end_at.seconds,
                (None, Some(start_at)) => start_at.seconds,
                (None, None) => now.seconds,
            },
        ),
        query.max_distance.rank == Some(0x4097_7000_0000_0000i64),
        query.max_candidate_stops == 1000,
        query.max_steps == (if request.max_transfers.0 < 5 {
            request.max_transfers.0
        } else {
            5
        }),
        query.max_step_delta == 2,
{
    let max_steps: usize = if request.max_transfers.0 < MOST_STEPS {
        request.max_transfers.0
    } else {
        MOST_STEPS
    };
    let (time, arrive_by): (Time, bool) = match &request.end_at {
        Some(end_at) => (time_of(end_at), true),
        None => match &request.start_at {
            Some(start_at) => (time_of(start_at), false),
            None => (time_of(now), false),
        },
    };
    PlanQuery {
        time,
        arrive_by,
        max_distance: Distance::from_bits(MAX_DISTANCE_BITS),
        max_candidate_stops: MAX_CANDIDATE_STOPS,
        max_steps,
        max_step_delta: MAX_STEP_DELTA,
    }
}

/// How many stops to tell of.
pub fn debug_stop_limit(max_stops: Option<usize>) -> (limit: usize)
    ensures
        limit == match max_stops {
            Some(max_stops) => max_stops,
            None => 100,
        },
{
    match max_stops {
        Some(max_stops) => max_stops,
        None => DEBUG_STOPS,
    }
}

/// A transfer, as it is told.
#[derive(Clone, Copy, PartialEq, Eq, Structural, Debug)]
pub struct DebugTransfer {
    pub to_stop_id: usize,
    pub duration_seconds: u32,
}

/// A stop, as it is told: with the transfers from it.
#[derive(Debug)]
pub struct DebugStop {
    pub id: usize,
    pub transfer_count: usize,
    pub transfers_to: Vec<DebugTransfer>,
}

/// What is told of a stop.
pub fn debug_stop(timetable: &MmapTimetable, stop: usize) -> (told: DebugStop)
    requires
        timetable.transfers_wf(),
        stop < timetable.stops@.len(),
    ensures
        told.id == stop,
        told.transfer_count == timetable.n_transfers(stop as int),
        told.transfers_to@.len() == told.transfer_count,
        forall|j: int|
            0 <= j < told.transfers_to@.len() ==> {
                let t = timetable.transfer_at(stop as int, j);
                &&& (#[trigger] told.transfers_to@[j]).to_stop_id == t.to
                &&& told.transfers_to@[j].duration_seconds == t.seconds()
            },
{
    assert(timetable.transfer_run_ok(stop as int));
    let transfers: &[Transfer] = timetable.transfers_from(stop);
    let mut transfers_to: Vec<DebugTransfer> = Vec::new();
    let mut j: usize = 0;
    while j < transfers.len()
        invariant
            timetable.transfer_run_ok(stop as int),
            transfers@ == timetable.transfers_at(stop as int),
            j == transfers_to@.len() <= transfers@.len(),
            forall|i: int|
                0 <= i < j ==> {
                    let t = timetable.transfer_at(stop as int, i);
                    &&& (#[trigger] transfers_to@[i]).to_stop_id == t.to
                    &&& transfers_to@[i].duration_seconds == t.seconds()
                },
        decreases transfers@.len() - j,
    {
        assert(transfers@[j as int] == timetable.transfer_at(stop as int, j as int));
        transfers_to.push(
            DebugTransfer {
                to_stop_id: transfers[j].to,
                duration_seconds: transfers[j].time_seconds(),
            },
        );
        j = j + 1;
    }
    DebugStop { id: stop, transfer_count: transfers.len(), transfers_to }
}

} // verus!
