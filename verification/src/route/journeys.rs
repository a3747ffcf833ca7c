//! What makes a logged step one that a traveller can take.

use crate::route::context::{Direction, InternalStep, InternalStepLocation, SearchState};
use crate::timetable::MmapTimetable;
use vstd::prelude::*;

verus! {

/// A trip waits at its stops and does not travel back in time.
pub open spec fn trip_runs(tt: &MmapTimetable, r: int, i: int, p: int, q: int) -> bool {
    &&& tt.time_at(r, i, p).arrival_time.epoch_seconds
        <= tt.time_at(r, i, p).departure_time.epoch_seconds
    &&& p < q ==> tt.time_at(r, i, p).departure_time.epoch_seconds
        <= tt.time_at(r, i, q).arrival_time.epoch_seconds
}

/// A timetable whose trips run forward in time.
pub open spec fn forward_in_time(tt: &MmapTimetable) -> bool {
    forall|r: int, i: int, p: int, q: int|
        0 <= r < tt.routes@.len() && 0 <= i < tt.n_trips(r) && 0 <= p < tt.n_stops(r) && 0 <= q
            < tt.n_stops(r) ==> #[trigger] trip_runs(tt, r, i, p, q)
}

/// `step` is a ride on trip `i` of route `r`, between position `a` and the later position `b`.
///
/// Searching back, a step leads from where one alights to where one boards, and both of its
/// times are when the trip leaves there.
pub open spec fn rides(
    dir: Direction,
    tt: &MmapTimetable,
    step: InternalStep,
    r: int,
    i: int,
    a: int,
    b: int,
) -> bool {
    let board = InternalStepLocation::Stop(tt.stop_at(r, a).stop_index);
    let alight = InternalStepLocation::Stop(tt.stop_at(r, b).stop_index);
    &&& 0 <= r < tt.routes@.len()
    &&& 0 <= i < tt.n_trips(r)
    &&& 0 <= a < b < tt.n_stops(r)
    &&& step.route == Some(tt.routes@[r])
    &&& step.trip == Some(tt.trip_at(r, i))
    &&& match dir {
        Direction::Forward => {
            &&& step.from == board
            &&& step.to == alight
            &&& step.departure == tt.time_at(r, i, a).departure_time
            &&& step.arrival == tt.time_at(r, i, b).arrival_time
        },
        Direction::Backward => {
            &&& step.from == alight
            &&& step.to == board
            &&& step.departure == tt.time_at(r, i, a).departure_time
            &&& step.arrival == step.departure
        },
    }
}

/// Whether a ride fits what it continues: forward, the trip leaves no earlier than one gets to
/// its stop; back, it arrives no later than one has to leave there.
pub open spec fn ride_connects(
    dir: Direction,
    tt: &MmapTimetable,
    previous: InternalStep,
    step: InternalStep,
    r: int,
    i: int,
    b: int,
) -> bool {
    match dir {
        Direction::Forward => previous.arrival.epoch_seconds <= step.departure.epoch_seconds,
        Direction::Backward => tt.time_at(r, i, b).arrival_time.epoch_seconds
            <= previous.departure.epoch_seconds,
    }
}

/// `step` is a walk along transfer `j` of the stop where `previous` ended.
pub open spec fn walks(
    dir: Direction,
    tt: &MmapTimetable,
    previous: InternalStep,
    step: InternalStep,
    stop: int,
    j: int,
) -> bool {
    let t = tt.transfer_at(stop, j);
    &&& 0 <= stop < tt.stops@.len()
    &&& 0 <= j < tt.n_transfers(stop)
    &&& step.route is None
    &&& step.trip is None
    &&& step.from == InternalStepLocation::Stop(stop as usize)
    &&& step.to == InternalStepLocation::Stop(t.to)
    &&& match dir {
        Direction::Forward => {
            &&& step.departure == previous.arrival
            &&& step.arrival == step.departure.plus(t.seconds())
        },
        Direction::Backward => {
            &&& step.departure == previous.departure.minus(t.seconds())
            &&& step.arrival == step.departure
        },
    }
}

/// `step` leads from a place that the traveller named to a stop.
pub open spec fn starts(dir: Direction, step: InternalStep) -> bool {
    &&& step.previous_step == 0
    &&& step.round == 0
    &&& step.route is None
    &&& step.trip is None
    &&& step.from is Location
    &&& step.to is Stop
    &&& dir == Direction::Forward ==> step.departure.epoch_seconds <= step.arrival.epoch_seconds
}

/// Whether a traveller can take `step` after `previous`: it is a ride that can be caught where
/// `previous` ended, or a walk from there that does not follow another walk.
pub open spec fn continues(
    dir: Direction,
    tt: &MmapTimetable,
    previous: InternalStep,
    step: InternalStep,
) -> bool {
    &&& step.from == previous.to
    &&& previous.round < step.round
    &&& {
        ||| exists|r: int, i: int, a: int, b: int|
            #![trigger rides(dir, tt, step, r, i, a, b)]
            rides(dir, tt, step, r, i, a, b) && ride_connects(dir, tt, previous, step, r, i, b)
        ||| previous.route is Some && exists|stop: int, j: int|
            #[trigger] walks(dir, tt, previous, step, stop, j)
    }
}

/// Entry `i` of the log is a start, or a step that can be taken after the one it continues.
pub open spec fn step_feasible(
    dir: Direction,
    tt: &MmapTimetable,
    steps: Seq<InternalStep>,
    i: int,
) -> bool {
    ||| starts(dir, steps[i])
    ||| steps[i].previous_step != 0 && continues(
        dir,
        tt,
        steps[steps[i].previous_step as int],
        steps[i],
    )
}

/// Every logged step can be taken.
pub open spec fn feasible(dir: Direction, tt: &MmapTimetable, s: SearchState) -> bool {
    forall|i: int| 0 < i < s.steps.len() ==> #[trigger] step_feasible(dir, tt, s.steps, i)
}

/// `step` names trip `i` of route `r`.
pub open spec fn on_trip(tt: &MmapTimetable, step: InternalStep, r: int, i: int) -> bool {
    &&& 0 <= r < tt.routes@.len()
    &&& 0 <= i < tt.n_trips(r)
    &&& step.route == Some(tt.routes@[r])
    &&& step.trip == Some(tt.trip_at(r, i))
}

/// `step` leads to a stop, from a named place if it is the first of its itinerary and from a
/// stop if it is not; only in the latter case it may be a ride, and then it names route and
/// trip.
pub open spec fn well_shaped(tt: &MmapTimetable, step: InternalStep) -> bool {
    &&& step.to matches InternalStepLocation::Stop(to) && to < tt.stops@.len()
    &&& step.previous_step == 0 ==> step.from is Location && step.route is None && step.trip is None
    &&& step.previous_step != 0 ==> {
        &&& step.from matches InternalStepLocation::Stop(from) && from < tt.stops@.len()
        &&& {
            ||| step.route is None && step.trip is None
            ||| exists|r: int, i: int| #[trigger] on_trip(tt, step, r, i)
        }
    }
}

/// Every logged step is well shaped.
pub open spec fn shaped(tt: &MmapTimetable, s: SearchState) -> bool {
    forall|i: int| 0 < i < s.steps.len() ==> well_shaped(tt, #[trigger] s.steps[i])
}

/// What holds of the log of a search: its steps are well shaped, and they can be taken.
pub open spec fn sound(dir: Direction, tt: &MmapTimetable, s: SearchState) -> bool {
    &&& shaped(tt, s)
    &&& feasible(dir, tt, s)
}

/// The log stays feasible when a step is appended that can be taken.
pub proof fn lemma_feasible_push(
    dir: Direction,
    tt: &MmapTimetable,
    steps: Seq<InternalStep>,
    step: InternalStep,
)
    requires
        steps.len() > 0,
        forall|i: int| 0 < i < steps.len() ==> #[trigger] step_feasible(dir, tt, steps, i),
        forall|i: int| 0 < i < steps.len() ==> (#[trigger] steps[i]).previous_step < i,
        step.previous_step < steps.len(),
        starts(dir, step) || step.previous_step != 0 && continues(
            dir,
            tt,
            steps[step.previous_step as int],
            step,
        ),
    ensures
        forall|i: int|
            0 < i < steps.push(step).len() ==> #[trigger] step_feasible(
                dir,
                tt,
                steps.push(step),
                i,
            ),
{
    let pushed = steps.push(step);
    assert forall|i: int| 0 < i < pushed.len() implies #[trigger] step_feasible(
        dir,
        tt,
        pushed,
        i,
    ) by {
        if i < steps.len() {
            assert(step_feasible(dir, tt, steps, i));
            assert(pushed[i] == steps[i]);
            assert(pushed[steps[i].previous_step as int] == steps[steps[i].previous_step as int]);
        } else {
            assert(pushed[i] == step);
        }
    }
}

} // verus!
