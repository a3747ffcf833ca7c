//! How the itineraries of a search are told: as legs, from the first to the last.

use crate::moments::UtcMoment;
use crate::route::completeness::on_foot;
use crate::route::context::{
    log_ok, state_ok, Direction, InternalItinerary, InternalStep, InternalStepLocation, LatLng,
    RouterContext, SearchState,
};
use crate::route::journeys::{
    continues, forward_in_time, on_trip, ride_connects, rides, sound, step_feasible, trip_runs,
    walks, well_shaped,
};
use crate::route::search::{begins, start_step};
use crate::timetable::{MmapTimetable, Route, RouteStop, Time, Trip};
use vstd::prelude::*;

verus! {

/// The walk to the first stop.
#[derive(Clone, Copy, PartialEq, Eq, Structural, Debug)]
pub struct BeginStep {
    pub begin: LatLng,
    pub begin_epoch_seconds: u64,
    pub first_stop: usize,
    pub first_stop_arrival_epoch_seconds: u64,
}

/// A ride.
#[derive(Clone, Copy, PartialEq, Eq, Structural, Debug)]
pub struct TripStep {
    pub route: Route,
    pub trip: Trip,
    pub departure_stop: usize,
    pub departure_epoch_seconds: u64,
    pub arrival_stop: usize,
    pub arrival_epoch_seconds: u64,
}

/// A walk between two stops.
#[derive(Clone, Copy, PartialEq, Eq, Structural, Debug)]
pub struct TransferStep {
    pub from_stop: usize,
    pub to_stop: usize,
    pub departure_epoch_seconds: u64,
    pub arrival_epoch_seconds: u64,
}

/// The walk from the last stop.
#[derive(Clone, Copy, PartialEq, Eq, Structural, Debug)]
pub struct EndStep {
    pub last_stop: usize,
    pub last_stop_departure_epoch_seconds: u64,
    pub end: LatLng,
    pub end_epoch_seconds: u64,
}

/// A part of an itinerary.
#[derive(Clone, Copy, PartialEq, Eq, Structural, Debug)]
pub enum Step {
    Begin(BeginStep),
    Trip(TripStep),
    Transfer(TransferStep),
    End(EndStep),
}

/// A ride or a walk between two stops, as it is shown.
#[derive(Clone, Copy, PartialEq, Eq, Structural, Debug)]
pub enum SolariLeg {
    Transit {
        start_time: UtcMoment,
        end_time: UtcMoment,
        start_stop: usize,
        end_stop: usize,
        route: Route,
        trip: Trip,
    },
    Transfer { start_time: UtcMoment, end_time: UtcMoment, start_stop: usize, end_stop: usize },
}

/// An itinerary as it is shown.
#[derive(Debug)]
pub struct SolariItinerary {
    pub start_location: LatLng,
    pub end_location: LatLng,
    pub start_time: UtcMoment,
    pub end_time: UtcMoment,
    pub legs: Vec<SolariLeg>,
}

impl SolariLeg {
    pub open spec fn starts_at(self) -> UtcMoment {
        match self {
            SolariLeg::Transit { start_time, .. } => start_time,
            SolariLeg::Transfer { start_time, .. } => start_time,
        }
    }

    pub open spec fn ends_at(self) -> UtcMoment {
        match self {
            SolariLeg::Transit { end_time, .. } => end_time,
            SolariLeg::Transfer { end_time, .. } => end_time,
        }
    }

    pub open spec fn from_stop(self) -> usize {
        match self {
            SolariLeg::Transit { start_stop, .. } => start_stop,
            SolariLeg::Transfer { start_stop, .. } => start_stop,
        }
    }

    pub open spec fn to_stop(self) -> usize {
        match self {
            SolariLeg::Transit { end_stop, .. } => end_stop,
            SolariLeg::Transfer { end_stop, .. } => end_stop,
        }
    }
}

/// The entries of the log that lead to entry `i`, the last first, without the start.
pub open spec fn chain(log: Seq<InternalStep>, i: int) -> Seq<int>
    decreases i,
{
    if i <= 0 || log[i].previous_step == 0 || log[i].previous_step >= i {
        Seq::empty()
    } else {
        seq![i] + chain(log, log[i].previous_step as int)
    }
}

/// What a chain is: it begins with `i`, if that is no start, and each entry continues the one
/// that follows it in the chain; the last one continues a start.
pub proof fn lemma_chain(log: Seq<InternalStep>, i: int)
    requires
        0 < i < log.len(),
        forall|k: int| 0 < k < log.len() ==> (#[trigger] log[k]).previous_step < k,
    ensures
        chain(log, i).len() == 0 <==> log[i].previous_step == 0,
        chain(log, i).len() > 0 ==> chain(log, i)[0] == i,
        forall|k: int|
            0 <= k < chain(log, i).len() ==> 0 < #[trigger] chain(log, i)[k] <= i
                && log[chain(log, i)[k]].previous_step != 0,
        forall|k: int|
            0 <= k < chain(log, i).len() - 1 ==> #[trigger] chain(log, i)[k + 1]
                == log[chain(log, i)[k]].previous_step,
        chain(log, i).len() > 0 ==> log[log[chain(
            log,
            i,
        ).last()].previous_step as int].previous_step == 0,
    decreases i,
{
    if log[i].previous_step != 0 {
        let p = log[i].previous_step as int;
        lemma_chain(log, p);
        let c = chain(log, i);
        let rest = chain(log, p);
        assert(c == seq![i] + rest);
        assert forall|k: int| 0 <= k < c.len() implies 0 < #[trigger] c[k] <= i
            && log[c[k]].previous_step != 0 by {
            if k > 0 {
                assert(c[k] == rest[k - 1]);
            }
        }
        assert forall|k: int| 0 <= k < c.len() - 1 implies #[trigger] c[k + 1]
            == log[c[k]].previous_step by {
            assert(c[k + 1] == rest[k]);
            if k > 0 {
                assert(c[k] == rest[k - 1]);
                assert(rest[(k - 1) + 1] == log[rest[k - 1]].previous_step);
            }
        }
        if rest.len() > 0 {
            assert(c.last() == rest.last());
        }
    }
}

/// A logged step, as a ride or a walk.
pub open spec fn told(step: InternalStep) -> Step {
    let from = step.from->Stop_0;
    let to = step.to->Stop_0;
    if step.route is None {
        Step::Transfer(
            TransferStep {
                from_stop: from,
                to_stop: to,
                departure_epoch_seconds: step.departure.epoch_seconds as u64,
                arrival_epoch_seconds: step.arrival.epoch_seconds as u64,
            },
        )
    } else {
        Step::Trip(
            TripStep {
                route: step.route->0,
                trip: step.trip->0,
                departure_stop: from,
                departure_epoch_seconds: step.departure.epoch_seconds as u64,
                arrival_stop: to,
                arrival_epoch_seconds: step.arrival.epoch_seconds as u64,
            },
        )
    }
}

/// A logged step of a search from a start time on, as a leg.
pub open spec fn leg_of(step: InternalStep) -> SolariLeg {
    let start_time = UtcMoment::at(step.departure);
    let end_time = UtcMoment::at(step.arrival);
    let start_stop = step.from->Stop_0;
    let end_stop = step.to->Stop_0;
    if step.route is None {
        SolariLeg::Transfer { start_time, end_time, start_stop, end_stop }
    } else {
        SolariLeg::Transit {
            start_time,
            end_time,
            start_stop,
            end_stop,
            route: step.route->0,
            trip: step.trip->0,
        }
    }
}

/// The legs that lead to entry `i` of the log, in the order of travel.
pub open spec fn legs_to(log: Seq<InternalStep>, i: int) -> Seq<SolariLeg> {
    let c = chain(log, i);
    Seq::new(c.len(), |k: int| leg_of(log[c[c.len() - 1 - k]]))
}

/// The cost of the first target that is stop `stop`, of those from target `k` on.
pub open spec fn cost_from(costs: Seq<(usize, u32)>, stop: usize, k: int) -> Option<u32>
    decreases costs.len() - k,
{
    if k >= costs.len() {
        None
    } else if costs[k].0 == stop {
        Some(costs[k].1)
    } else {
        cost_from(costs, stop, k + 1)
    }
}

/// The first position, from `q` on, at which route `r` calls at `stop`.
pub open spec fn first_call(tt: &MmapTimetable, r: int, stop: usize, q: int) -> int
    decreases tt.n_stops(r) - q,
{
    if q >= tt.n_stops(r) || tt.stop_at(r, q).stop_index == stop {
        q
    } else {
        first_call(tt, r, stop, q + 1)
    }
}

/// The first call at a stop is no later than any other.
pub proof fn lemma_first_call(tt: &MmapTimetable, r: int, stop: usize, q: int, at: int)
    requires
        0 <= q <= at < tt.n_stops(r),
        tt.stop_at(r, at).stop_index == stop,
    ensures
        q <= first_call(tt, r, stop, q) <= at,
        tt.stop_at(r, first_call(tt, r, stop, q)).stop_index == stop,
    decreases at - q,
{
    if tt.stop_at(r, q).stop_index != stop {
        lemma_first_call(tt, r, stop, q + 1, at);
    }
}

/// The first position, from `q` on, at which route `r` calls at `stop` and `trip` leaves there at
/// `time`.
pub open spec fn leaving_call(
    tt: &MmapTimetable,
    r: int,
    trip: Trip,
    stop: usize,
    time: Time,
    q: int,
) -> int
    decreases tt.n_stops(r) - q,
{
    if q >= tt.n_stops(r) || tt.stop_at(r, q).stop_index == stop && tt.times_of(
        trip,
    )[q].departure_time == time {
        q
    } else {
        leaving_call(tt, r, trip, stop, time, q + 1)
    }
}

/// When the trip of a step of a search from a deadline back gets to where one alights, once it has
/// left where one boards.
pub open spec fn alight_time(tt: &MmapTimetable, step: InternalStep) -> Time {
    let r = step.route->0.route_index as int;
    let a = leaving_call(tt, r, step.trip->0, step.to->Stop_0, step.departure, 0);
    let b = first_call(tt, r, step.from->Stop_0, a + 1);
    if b < tt.n_stops(r) {
        tt.times_of(step.trip->0)[b].arrival_time
    } else {
        step.arrival
    }
}

/// A logged step of a search from a deadline back, as a leg: it leads from the stop that the
/// step leads to.
pub open spec fn leg_back_of(tt: &MmapTimetable, step: InternalStep) -> SolariLeg {
    let start_stop = step.to->Stop_0;
    let end_stop = step.from->Stop_0;
    if step.route is None {
        SolariLeg::Transfer {
            start_time: UtcMoment::at(step.departure),
            end_time: UtcMoment::at(step.arrival),
            start_stop,
            end_stop,
        }
    } else {
        SolariLeg::Transit {
            start_time: UtcMoment::at(step.departure),
            end_time: UtcMoment::at(alight_time(tt, step)),
            start_stop,
            end_stop,
            route: step.route->0,
            trip: step.trip->0,
        }
    }
}

/// The legs that lead from the stop of entry `i` of the log, in the order of travel.
pub open spec fn legs_from(tt: &MmapTimetable, log: Seq<InternalStep>, i: int) -> Seq<SolariLeg> {
    let c = chain(log, i);
    Seq::new(c.len(), |k: int| leg_back_of(tt, log[c[k]]))
}

/// The moment `seconds` after the epoch, which a calendar date can express.
fn utc(seconds: u64) -> (m: UtcMoment)
    requires
        seconds <= 0x2_0000_0000,
    ensures
        m.seconds == seconds,
        m.nanos == 0,
        m.wf(),
{
    match UtcMoment::from_unix_timestamp(seconds as i64) {
        Ok(m) => m,
        Err(_) => {
            assert(false);
            UtcMoment { seconds: seconds as i64, nanos: 0 }
        },
    }
}

/// The cost of the first target that is stop `stop`.
fn find_cost(costs: &[(usize, u32)], stop: usize) -> (cost: Option<u32>)
    ensures
        cost == cost_from(costs@, stop, 0),
{
    let mut k: usize = 0;
    while k < costs.len()
        invariant
            k <= costs@.len(),
            cost_from(costs@, stop, 0) == cost_from(costs@, stop, k as int),
        decreases costs@.len() - k,
    {
        if costs[k].0 == stop {
            return Some(costs[k].1);
        }
        k = k + 1;
    }
    None
}

/// The stop that a location is.
fn stop_of(location: &InternalStepLocation) -> (stop: usize)
    requires
        location is Stop,
    ensures
        stop == location->Stop_0,
{
    match location {
        InternalStepLocation::Stop(stop) => *stop,
        InternalStepLocation::Location(_) => {
            assert(false);
            0
        },
    }
}

/// Tells a logged step.
fn tell(step: &InternalStep) -> (told_step: Step)
    requires
        step.from is Stop,
        step.to is Stop,
        step.route is Some <==> step.trip is Some,
    ensures
        told_step == told(*step),
{
    let from: usize = stop_of(&step.from);
    let to: usize = stop_of(&step.to);
    let departure_epoch_seconds: u64 = step.departure.epoch_seconds() as u64;
    let arrival_epoch_seconds: u64 = step.arrival.epoch_seconds() as u64;
    match (step.route, step.trip) {
        (Some(route), Some(trip)) => Step::Trip(
            TripStep {
                route,
                trip,
                departure_stop: from,
                departure_epoch_seconds,
                arrival_stop: to,
                arrival_epoch_seconds,
            },
        ),
        _ => Step::Transfer(
            TransferStep {
                from_stop: from,
                to_stop: to,
                departure_epoch_seconds,
                arrival_epoch_seconds,
            },
        ),
    }
}

/// The steps that lead to entry `last` of the log, the last first, after the walk to the named
/// place.
pub open spec fn told_back(
    log: Seq<InternalStep>,
    last: int,
    target: LatLng,
    cost: u32,
) -> Seq<Step> {
    let c = chain(log, last);
    seq![
        Step::End(
            EndStep {
                last_stop: log[last].to->Stop_0,
                last_stop_departure_epoch_seconds: log[last].arrival.epoch_seconds as u64,
                end: target,
                end_epoch_seconds: (log[last].arrival.epoch_seconds + cost) as u64,
            },
        ),
    ] + Seq::new(c.len(), |k: int| told(log[c[k]]))
}

/// A logged step past the start has its stops and, if it is a ride, its trip.
proof fn lemma_told_apart(dir: Direction, context: &RouterContext, i: int)
    requires
        context.running(dir),
        0 < i < context.step_log@.len(),
    ensures
        context.step_log@[i].previous_step < i,
        context.step_log@[i].to is Stop,
        context.step_log@[i].previous_step != 0 ==> {
            &&& context.step_log@[i].from is Stop
            &&& context.step_log@[i].route is Some <==> context.step_log@[i].trip is Some
        },
{
    assert(log_ok(context.state(), i));
    assert(well_shaped(context.timetable, context.state().steps[i]));
}

/// Walks the log back from an itinerary's last step.
fn unwind_steps(
    context: &RouterContext,
    itinerary: &InternalItinerary,
    target_costs: &[(usize, u32)],
    target_location: LatLng,
) -> (steps: Vec<Step>)
    requires
        context.running(Direction::Forward),
        0 < itinerary.last_step < context.step_log@.len(),
        cost_from(
            target_costs@,
            context.step_log@[itinerary.last_step as int].to->Stop_0,
            0,
        ) is Some,
    ensures
        steps@ == told_back(
            context.step_log@,
            itinerary.last_step as int,
            target_location,
            cost_from(
                target_costs@,
                context.step_log@[itinerary.last_step as int].to->Stop_0,
                0,
            )->0,
        ),
{
    let ghost log = context.step_log@;
    let ghost last = itinerary.last_step as int;
    let ghost c = chain(log, last);
    let mut steps: Vec<Step> = Vec::new();
    let mut cursor: usize = itinerary.last_step;
    proof {
        lemma_told_apart(Direction::Forward, context, last);
    }
    let arrival: u32 = context.step_log[cursor].arrival.epoch_seconds();
    let last_stop: usize = stop_of(&context.step_log[cursor].to);
    let cost: u32 = match find_cost(target_costs, last_stop) {
        Some(cost) => cost,
        None => {
            assert(false);
            0
        },
    };
    steps.push(
        Step::End(
            EndStep {
                last_stop,
                last_stop_departure_epoch_seconds: arrival as u64,
                end: target_location,
                end_epoch_seconds: arrival as u64 + cost as u64,
            },
        ),
    );
    let ghost done: Seq<int> = Seq::empty();
    assert(done + chain(log, cursor as int) =~= c);
    while context.step_log[cursor].previous_step != 0
        invariant
            context.running(Direction::Forward),
            log == context.step_log@,
            0 < cursor < log.len(),
            c == done + chain(log, cursor as int),
            steps@.len() == done.len() + 1,
            steps@[0] == told_back(log, last, target_location, cost)[0],
            forall|k: int| 0 <= k < done.len() ==> #[trigger] steps@[k + 1] == told(log[done[k]]),
        decreases cursor,
    {
        proof {
            lemma_told_apart(Direction::Forward, context, cursor as int);
        }
        let step: &InternalStep = &context.step_log[cursor];
        steps.push(tell(step));
        proof {
            let rest = chain(log, step.previous_step as int);
            assert(chain(log, cursor as int) == seq![cursor as int] + rest);
            assert(done + (seq![cursor as int] + rest) =~= done.push(cursor as int) + rest);
            done = done.push(cursor as int);
        }
        cursor = step.previous_step;
    }
    assert(chain(log, cursor as int).len() == 0);
    assert(c =~= done);
    assert forall|j: int| 0 <= j < steps@.len() implies steps@[j] == told_back(
        log,
        last,
        target_location,
        cost,
    )[j] by {
        if j > 0 {
            assert(steps@[(j - 1) + 1] == told(log[done[j - 1]]));
        }
    }
    assert(steps@ =~= told_back(log, last, target_location, cost));
    steps
}

/// A ride or a walk between two stops as a leg.
pub open spec fn leg_of_step(step: Step) -> SolariLeg {
    match step {
        Step::Trip(trip) => SolariLeg::Transit {
            start_time: UtcMoment { seconds: trip.departure_epoch_seconds as i64, nanos: 0 },
            end_time: UtcMoment { seconds: trip.arrival_epoch_seconds as i64, nanos: 0 },
            start_stop: trip.departure_stop,
            end_stop: trip.arrival_stop,
            route: trip.route,
            trip: trip.trip,
        },
        Step::Transfer(walk) => SolariLeg::Transfer {
            start_time: UtcMoment { seconds: walk.departure_epoch_seconds as i64, nanos: 0 },
            end_time: UtcMoment { seconds: walk.arrival_epoch_seconds as i64, nanos: 0 },
            start_stop: walk.from_stop,
            end_stop: walk.to_stop,
        },
        _ => arbitrary(),
    }
}

fn show_step(step: &Step) -> (leg: Option<SolariLeg>)
    requires
        match step {
            Step::Trip(trip) => trip.departure_epoch_seconds <= u32::MAX
                && trip.arrival_epoch_seconds <= u32::MAX,
            Step::Transfer(walk) => walk.departure_epoch_seconds <= u32::MAX
                && walk.arrival_epoch_seconds <= u32::MAX,
            _ => true,
        },
    ensures
        leg is Some <==> step is Trip || step is Transfer,
        leg matches Some(leg) ==> leg == leg_of_step(*step),
{
    match step {
        Step::Trip(trip) => Some(
            SolariLeg::Transit {
                start_time: utc(trip.departure_epoch_seconds),
                end_time: utc(trip.arrival_epoch_seconds),
                start_stop: trip.departure_stop,
                end_stop: trip.arrival_stop,
                route: trip.route,
                trip: trip.trip,
            },
        ),
        Step::Transfer(walk) => Some(
            SolariLeg::Transfer {
                start_time: utc(walk.departure_epoch_seconds),
                end_time: utc(walk.arrival_epoch_seconds),
                start_stop: walk.from_stop,
                end_stop: walk.to_stop,
            },
        ),
        _ => None,
    }
}

/// `itinerary` tells of `it`, found by a search from `route_start_time` on: its legs, and when
/// one gets to the named place after the walk from the last stop.
pub open spec fn tells(
    log: Seq<InternalStep>,
    it: InternalItinerary,
    route_start_time: Time,
    costs: Seq<(usize, u32)>,
    start_location: LatLng,
    target_location: LatLng,
    itinerary: SolariItinerary,
) -> bool {
    let last = log[it.last_step as int];
    &&& itinerary.start_location == start_location
    &&& itinerary.end_location == target_location
    &&& itinerary.start_time == UtcMoment::at(route_start_time)
    &&& itinerary.end_time.nanos == 0
    &&& itinerary.end_time.seconds == last.arrival.epoch_seconds + cost_from(
        costs,
        last.to->Stop_0,
        0,
    )->0
    &&& itinerary.legs@ == legs_to(log, it.last_step as int)
}

/// `itinerary` tells of `it`, found by a search from `end_at` back: its legs, and when the first
/// of them starts.
pub open spec fn tells_back(
    tt: &MmapTimetable,
    log: Seq<InternalStep>,
    it: InternalItinerary,
    end_at: Time,
    start_location: LatLng,
    target_location: LatLng,
    itinerary: SolariItinerary,
) -> bool {
    &&& itinerary.start_location == start_location
    &&& itinerary.end_location == target_location
    &&& itinerary.legs@ == legs_from(tt, log, it.last_step as int)
    &&& itinerary.start_time == (if itinerary.legs@.len() > 0 {
        itinerary.legs@[0].starts_at()
    } else {
        UtcMoment::at(end_at)
    })
    &&& itinerary.end_time == UtcMoment::at(end_at)
}

/// Tells an itinerary of a search from a start time on, which ends at a target that has a cost.
pub fn unwind_itinerary(
    context: &RouterContext,
    itinerary: &InternalItinerary,
    route_start_time: Time,
    target_costs: &[(usize, u32)],
    start_location: LatLng,
    target_location: LatLng,
) -> (told_itinerary: SolariItinerary)
    requires
        context.running(Direction::Forward),
        0 < itinerary.last_step < context.step_log@.len(),
        cost_from(
            target_costs@,
            context.step_log@[itinerary.last_step as int].to->Stop_0,
            0,
        ) is Some,
    ensures
        tells(
            context.step_log@,
            *itinerary,
            route_start_time,
            target_costs@,
            start_location,
            target_location,
            told_itinerary,
        ),
{
    let ghost log = context.step_log@;
    let ghost last = itinerary.last_step as int;
    let ghost c = chain(log, last);
    let steps: Vec<Step> = unwind_steps(context, itinerary, target_costs, target_location);
    let end_time: u64 = match &steps[0] {
        Step::End(end) => end.end_epoch_seconds,
        _ => {
            assert(false);
            0
        },
    };
    proof {
        assert forall|k: int| 0 < k < log.len() implies (#[trigger] log[k]).previous_step < k by {
            lemma_told_apart(Direction::Forward, context, k);
        }
        lemma_chain(log, last);
    }
    let mut legs: Vec<SolariLeg> = Vec::new();
    let mut k: usize = steps.len();
    while k > 0
        invariant
            context.running(Direction::Forward),
            log == context.step_log@,
            c == chain(log, last),
            k <= steps@.len() == c.len() + 1,
            steps@[0] is End,
            forall|j: int| 0 <= j < c.len() ==> #[trigger] steps@[j + 1] == told(log[c[j]]),
            legs@.len() == (if k == 0 {
                c.len() as int
            } else {
                steps@.len() - k
            }),
            forall|j: int|
                0 <= j < legs@.len() ==> #[trigger] legs@[j] == leg_of(log[c[c.len() - 1 - j]]),
        decreases k,
    {
        k = k - 1;
        if k > 0 {
            assert(steps@[(k - 1) + 1] == told(log[c[k - 1]]));
        }
        match show_step(&steps[k]) {
            Some(leg) => {
                assert(leg == leg_of(log[c[k - 1]]));
                legs.push(leg);
            },
            None => {},
        }
    }
    assert(legs@ =~= legs_to(log, last));
    SolariItinerary {
        start_location,
        end_location: target_location,
        start_time: UtcMoment::of_time(route_start_time),
        end_time: utc(end_time),
        legs,
    }
}

/// The first position, from `from` on, at which route `r` calls at `stop`.
fn find_first_call(tt: &MmapTimetable, r: usize, stop: usize, from: usize) -> (seq: Option<usize>)
    requires
        tt.core_wf(),
        r < tt.routes@.len(),
    ensures
        seq matches Some(q) ==> q == first_call(tt, r as int, stop, from as int) && q < tt.n_stops(
            r as int,
        ),
        seq is None ==> first_call(tt, r as int, stop, from as int) >= tt.n_stops(r as int),
{
    assert(tt.route_ok(r as int));
    let stops: &[RouteStop] = tt.stops_of_route(r);
    let mut q: usize = from;
    while q < stops.len()
        invariant
            tt.core_wf(),
            tt.route_ok(r as int),
            stops@ == tt.stops_of(r as int),
            stops@.len() == tt.n_stops(r as int),
            from <= q,
            first_call(tt, r as int, stop, from as int) == first_call(
                tt,
                r as int,
                stop,
                q as int,
            ),
        decreases stops@.len() - q,
    {
        assert(stops@[q as int] == tt.stop_at(r as int, q as int));
        if stops[q].id() == stop {
            return Some(q);
        }
        q = q + 1;
    }
    None
}

/// The first position at which route `r` calls at `stop` and its trip `i` leaves there at `time`.
fn find_leaving_call(
    tt: &MmapTimetable,
    r: usize,
    trip: Trip,
    stop: usize,
    time: Time,
    Ghost(i): Ghost<int>,
) -> (seq: Option<usize>)
    requires
        tt.core_wf(),
        r < tt.routes@.len(),
        0 <= i < tt.n_trips(r as int),
        trip == tt.trip_at(r as int, i),
    ensures
        seq matches Some(q) ==> q == leaving_call(tt, r as int, trip, stop, time, 0) && q
            < tt.n_stops(r as int),
        seq is None ==> leaving_call(tt, r as int, trip, stop, time, 0) >= tt.n_stops(r as int),
{
    assert(tt.route_ok(r as int));
    assert(tt.trip_ok(r as int, i));
    let stops: &[RouteStop] = tt.stops_of_route(r);
    let mut q: usize = 0;
    while q < stops.len()
        invariant
            tt.core_wf(),
            tt.route_ok(r as int),
            tt.trip_ok(r as int, i),
            trip == tt.trip_at(r as int, i),
            stops@ == tt.stops_of(r as int),
            stops@.len() == tt.n_stops(r as int),
            leaving_call(tt, r as int, trip, stop, time, 0) == leaving_call(
                tt,
                r as int,
                trip,
                stop,
                time,
                q as int,
            ),
        decreases stops@.len() - q,
    {
        assert(stops@[q as int] == tt.stop_at(r as int, q as int));
        assert(tt.times_of(trip)[q as int] == tt.trip_stop_times@[trip.first_trip_stop_time + q]);
        let leaves: Time = tt.trip_stop_times[trip.first_trip_stop_time + q].departure();
        if stops[q].id() == stop && leaves.epoch_seconds == time.epoch_seconds {
            return Some(q);
        }
        q = q + 1;
    }
    None
}

/// Shows a logged step of a search from a deadline back.
fn show_back(context: &RouterContext, i: usize) -> (leg: SolariLeg)
    requires
        context.running(Direction::Backward),
        0 < i < context.step_log@.len(),
        context.step_log@[i as int].previous_step != 0,
    ensures
        leg == leg_back_of(context.timetable, context.step_log@[i as int]),
{
    let tt: &MmapTimetable = context.timetable;
    proof {
        lemma_told_apart(Direction::Backward, context, i as int);
        assert(well_shaped(tt, context.state().steps[i as int]));
    }
    let step: InternalStep = context.step_log[i];
    let start_stop: usize = stop_of(&step.to);
    let end_stop: usize = stop_of(&step.from);
    match (step.route, step.trip) {
        (Some(route), Some(trip)) => {
            let ghost (r, k) = choose|r: int, k: int| #[trigger] on_trip(tt, step, r, k);
            assert(on_trip(tt, step, r, k));
            assert(tt.route_ok(r));
            assert(tt.trip_ok(r, k));
            let board: Option<usize> = find_leaving_call(
                tt,
                route.id(),
                trip,
                start_stop,
                step.departure,
                Ghost(k),
            );
            let alight: Option<usize> = match board {
                Some(a) => find_first_call(tt, route.id(), end_stop, a + 1),
                None => None,
            };
            let arrival: Time = match alight {
                Some(q) => {
                    assert(tt.times_of(trip)[q as int] == tt.trip_stop_times@[
                        trip.first_trip_stop_time + q
                    ]);
                    tt.trip_stop_times[trip.first_trip_stop_time + q].arrival()
                },
                None => step.arrival,
            };
            SolariLeg::Transit {
                start_time: UtcMoment::of_time(step.departure),
                end_time: UtcMoment::of_time(arrival),
                start_stop,
                end_stop,
                route,
                trip,
            }
        },
        _ => SolariLeg::Transfer {
            start_time: UtcMoment::of_time(step.departure),
            end_time: UtcMoment::of_time(step.arrival),
            start_stop,
            end_stop,
        },
    }
}

/// Tells an itinerary of a search from a deadline back.
pub fn unwind_itinerary_backward(
    context: &RouterContext,
    itinerary: &InternalItinerary,
    end_at: Time,
    start_location: LatLng,
    target_location: LatLng,
) -> (told_itinerary: SolariItinerary)
    requires
        context.running(Direction::Backward),
        0 < itinerary.last_step < context.step_log@.len(),
    ensures
        tells_back(
            context.timetable,
            context.step_log@,
            *itinerary,
            end_at,
            start_location,
            target_location,
            told_itinerary,
        ),
{
    let ghost log = context.step_log@;
    let ghost last = itinerary.last_step as int;
    let ghost c = chain(log, last);
    let ghost done: Seq<int> = Seq::empty();
    let mut legs: Vec<SolariLeg> = Vec::new();
    let mut cursor: usize = itinerary.last_step;
    assert(done + chain(log, cursor as int) =~= c);
    while cursor != 0
        invariant
            context.running(Direction::Backward),
            log == context.step_log@,
            cursor < log.len(),
            c == done + chain(log, cursor as int),
            legs@.len() == done.len(),
            forall|k: int|
                0 <= k < done.len() ==> #[trigger] legs@[k] == leg_back_of(
                    context.timetable,
                    log[done[k]],
                ),
        decreases cursor,
    {
        proof {
            lemma_told_apart(Direction::Backward, context, cursor as int);
        }
        let previous: usize = context.step_log[cursor].previous_step;
        if previous != 0 {
            legs.push(show_back(context, cursor));
            proof {
                let rest = chain(log, previous as int);
                assert(chain(log, cursor as int) == seq![cursor as int] + rest);
                assert(done + (seq![cursor as int] + rest) =~= done.push(cursor as int) + rest);
                done = done.push(cursor as int);
            }
        } else {
            assert(chain(log, cursor as int) =~= chain(log, previous as int));
        }
        cursor = previous;
    }
    assert(c =~= done);
    assert(legs@ =~= legs_from(context.timetable, log, last));
    let end_time: UtcMoment = UtcMoment::of_time(end_at);
    let start_time: UtcMoment = if legs.len() > 0 {
        match &legs[0] {
            SolariLeg::Transit { start_time, .. } => *start_time,
            SolariLeg::Transfer { start_time, .. } => *start_time,
        }
    } else {
        end_time
    };
    SolariItinerary { start_location, end_location: target_location, start_time, end_time, legs }
}

/// Legs that one can travel one after the other: each starts at the stop where the one before it
/// ends, and no walk follows a walk.
pub open spec fn connected(a: SolariLeg, b: SolariLeg) -> bool {
    &&& a.to_stop() == b.from_stop()
    &&& !(a is Transfer && b is Transfer)
}

/// A leg that does not end before it starts.
pub open spec fn runs_forward(leg: SolariLeg) -> bool {
    leg.starts_at().seconds <= leg.ends_at().seconds
}

/// A leg that starts no earlier than the one before it ends.
pub open spec fn in_sequence(a: SolariLeg, b: SolariLeg) -> bool {
    a.ends_at().seconds <= b.starts_at().seconds
}

/// An itinerary of a search from a start time on can be travelled: its legs connect, none starts
/// before the one before it ends, and the first starts at the stop, and no earlier than the
/// moment, that the walk from the named place leads to. Where trips run forward in time, no leg
/// ends before it starts.
pub proof fn lemma_itinerary_travels(
    tt: &MmapTimetable,
    s: SearchState,
    i: int,
)
    requires
        state_ok(Direction::Forward, tt.stops@.len(), s),
        sound(Direction::Forward, tt, s),
        0 < i < s.steps.len(),
    ensures
        forward_in_time(tt) ==> forall|k: int|
            0 <= k < legs_to(s.steps, i).len() ==> runs_forward(#[trigger] legs_to(s.steps, i)[k]),
        forall|k: int, l: int|
            0 <= k && l == k + 1 && l < legs_to(s.steps, i).len() ==> connected(
                #[trigger] legs_to(s.steps, i)[k],
                #[trigger] legs_to(s.steps, i)[l],
            ) && in_sequence(legs_to(s.steps, i)[k], legs_to(s.steps, i)[l]),
        legs_to(s.steps, i).len() > 0 ==> {
            let start = s.steps[s.steps[chain(s.steps, i).last()].previous_step as int];
            &&& start.from is Location
            &&& start.to == InternalStepLocation::Stop(legs_to(s.steps, i)[0].from_stop())
            &&& start.arrival.epoch_seconds <= legs_to(s.steps, i)[0].starts_at().seconds
        },
{
    let log = s.steps;
    let c = chain(log, i);
    let legs = legs_to(log, i);
    let n = c.len();
    assert forall|k: int| 0 < k < log.len() implies (#[trigger] log[k]).previous_step < k by {
        assert(log_ok(s, k));
    }
    lemma_chain(log, i);
    assert forall|j: int| 0 <= j < n implies {
        let step = log[#[trigger] c[j]];
        let previous = log[step.previous_step as int];
        &&& step.from is Stop
        &&& step.to is Stop
        &&& step.from == previous.to
        &&& previous.arrival.epoch_seconds <= step.departure.epoch_seconds
        &&& forward_in_time(tt) ==> step.departure.epoch_seconds <= step.arrival.epoch_seconds
        &&& step.route is Some || previous.route is Some
    } by {
        let step = log[c[j]];
        let previous = log[step.previous_step as int];
        assert(step_feasible(Direction::Forward, tt, log, c[j]));
        assert(well_shaped(tt, log[c[j]]));
        assert(continues(Direction::Forward, tt, previous, step));
        if forward_in_time(tt) && step.route is Some {
            let (r, t, a, b) = choose|r: int, t: int, a: int, b: int|
                #![trigger rides(Direction::Forward, tt, step, r, t, a, b)]
                rides(Direction::Forward, tt, step, r, t, a, b) && ride_connects(
                    Direction::Forward,
                    tt,
                    previous,
                    step,
                    r,
                    t,
                    b,
                );
            assert(rides(Direction::Forward, tt, step, r, t, a, b));
            assert(trip_runs(tt, r, t, a, b));
        }
    }
    if forward_in_time(tt) {
        assert forall|k: int| 0 <= k < legs.len() implies runs_forward(#[trigger] legs[k]) by {
            assert(legs[k] == leg_of(log[c[n - 1 - k]]));
        }
    }
    assert forall|k: int, l: int| 0 <= k && l == k + 1 && l < legs.len() implies connected(
        #[trigger] legs[k],
        #[trigger] legs[l],
    ) && in_sequence(legs[k], legs[l]) by {
        let j = n - 1 - l;
        assert(c[j + 1] == log[c[j]].previous_step);
        assert(legs[l] == leg_of(log[c[j]]));
        assert(legs[k] == leg_of(log[c[j + 1]]));
    }
    if n > 0 {
        assert(legs[0] == leg_of(log[c[n - 1]]));
        let first = log[c[n - 1]];
        assert(well_shaped(tt, log[first.previous_step as int]));
    }
}

/// The first time that a trip leaves a stop at a given moment is no later than any other.
proof fn lemma_leaving_call(
    tt: &MmapTimetable,
    r: int,
    trip: Trip,
    stop: usize,
    time: Time,
    q: int,
    at: int,
)
    requires
        0 <= q <= at < tt.n_stops(r),
        tt.stop_at(r, at).stop_index == stop,
        tt.times_of(trip)[at].departure_time == time,
    ensures
        q <= leaving_call(tt, r, trip, stop, time, q) <= at,
        tt.times_of(trip)[leaving_call(tt, r, trip, stop, time, q)].departure_time == time,
        tt.stop_at(r, leaving_call(tt, r, trip, stop, time, q)).stop_index == stop,
    decreases at - q,
{
    if !(tt.stop_at(r, q).stop_index == stop && tt.times_of(trip)[q].departure_time == time) {
        lemma_leaving_call(tt, r, trip, stop, time, q + 1, at);
    }
}

/// The legs of an itinerary of a search from a deadline back connect, and the last ends at the
/// stop that the walk to the named place starts from. Where trips run forward in time, besides,
/// none starts before the one before it ends, and the last ends in time for that walk.
pub proof fn lemma_itinerary_back_travels(
    tt: &MmapTimetable,
    s: SearchState,
    i: int,
)
    requires
        tt.core_wf(),
        state_ok(Direction::Backward, tt.stops@.len(), s),
        sound(Direction::Backward, tt, s),
        0 < i < s.steps.len(),
    ensures
        forall|k: int, l: int|
            0 <= k && l == k + 1 && l < legs_from(tt, s.steps, i).len() ==> connected(
                #[trigger] legs_from(tt, s.steps, i)[k],
                #[trigger] legs_from(tt, s.steps, i)[l],
            ),
        legs_from(tt, s.steps, i).len() > 0 ==> {
            let start = s.steps[s.steps[chain(s.steps, i).last()].previous_step as int];
            &&& start.from is Location
            &&& start.to == InternalStepLocation::Stop(legs_from(tt, s.steps, i).last().to_stop())
            &&& forward_in_time(tt) ==> legs_from(tt, s.steps, i).last().ends_at().seconds
                <= start.departure.epoch_seconds
        },
        forward_in_time(tt) ==> forall|k: int|
            0 <= k < legs_from(tt, s.steps, i).len() ==> runs_forward(
                #[trigger] legs_from(tt, s.steps, i)[k],
            ),
        forward_in_time(tt) ==> forall|k: int, l: int|
            0 <= k && l == k + 1 && l < legs_from(tt, s.steps, i).len() ==> in_sequence(
                #[trigger] legs_from(tt, s.steps, i)[k],
                #[trigger] legs_from(tt, s.steps, i)[l],
            ),
{
    let log = s.steps;
    let c = chain(log, i);
    let legs = legs_from(tt, log, i);
    let n = c.len();
    assert forall|k: int| 0 < k < log.len() implies (#[trigger] log[k]).previous_step < k by {
        assert(log_ok(s, k));
    }
    lemma_chain(log, i);
    assert forall|j: int| 0 <= j < n implies {
        let step = log[#[trigger] c[j]];
        let previous = log[step.previous_step as int];
        let leg = leg_back_of(tt, step);
        &&& step.from is Stop
        &&& step.to is Stop
        &&& step.from == previous.to
        &&& step.route is Some || previous.route is Some
        &&& forward_in_time(tt) ==> {
            &&& leg.starts_at().seconds == step.departure.epoch_seconds
            &&& leg.starts_at().seconds <= leg.ends_at().seconds
            &&& leg.ends_at().seconds <= previous.departure.epoch_seconds
        }
    } by {
        let step = log[c[j]];
        let previous = log[step.previous_step as int];
        assert(step_feasible(Direction::Backward, tt, log, c[j]));
        assert(well_shaped(tt, log[c[j]]));
        assert(continues(Direction::Backward, tt, previous, step));
        if forward_in_time(tt) && step.route is Some {
            let (r, t, a, b) = choose|r: int, t: int, a: int, b: int|
                #![trigger rides(Direction::Backward, tt, step, r, t, a, b)]
                rides(Direction::Backward, tt, step, r, t, a, b) && ride_connects(
                    Direction::Backward,
                    tt,
                    previous,
                    step,
                    r,
                    t,
                    b,
                );
            assert(rides(Direction::Backward, tt, step, r, t, a, b));
            assert(tt.route_ok(r));
            assert(tt.trip_ok(r, t));
            let trip = tt.trip_at(r, t);
            let board = tt.stop_at(r, a).stop_index;
            let alight = tt.stop_at(r, b).stop_index;
            assert(tt.times_of(trip)[a] == tt.time_at(r, t, a));
            lemma_leaving_call(tt, r, trip, board, step.departure, 0, a);
            let p = leaving_call(tt, r, trip, board, step.departure, 0);
            lemma_first_call(tt, r, alight, p + 1, b);
            let q = first_call(tt, r, alight, p + 1);
            assert(tt.times_of(trip)[p] == tt.time_at(r, t, p));
            assert(tt.times_of(trip)[q] == tt.time_at(r, t, q));
            assert(trip_runs(tt, r, t, p, q));
            assert(trip_runs(tt, r, t, q, b));
        }
    }
    assert forall|k: int, l: int| 0 <= k && l == k + 1 && l < legs.len() implies connected(
        #[trigger] legs[k],
        #[trigger] legs[l],
    ) by {
        assert(c[k + 1] == log[c[k]].previous_step);
        assert(c[l] == c[k + 1]);
        assert(legs[k] == leg_back_of(tt, log[c[k]]));
        assert(legs[l] == leg_back_of(tt, log[c[l]]));
    }
    if forward_in_time(tt) {
        assert forall|k: int, l: int| 0 <= k && l == k + 1 && l < legs.len() implies in_sequence(
            #[trigger] legs[k],
            #[trigger] legs[l],
        ) by {
            assert(c[k + 1] == log[c[k]].previous_step);
            assert(c[l] == c[k + 1]);
        }
    }
    if n > 0 {
        assert(legs.last() == leg_back_of(tt, log[c[n - 1]]));
        let last = log[c[n - 1]];
        assert(well_shaped(tt, log[last.previous_step as int]));
    }
}

/// `leg` is the ride on trip `i` of route `r` from position `a` to the later position `b`, at the
/// times at which that trip leaves the one and gets to the other.
pub open spec fn true_ride(
    tt: &MmapTimetable,
    leg: SolariLeg,
    r: int,
    i: int,
    a: int,
    b: int,
) -> bool {
    &&& 0 <= r < tt.routes@.len()
    &&& 0 <= i < tt.n_trips(r)
    &&& 0 <= a < b < tt.n_stops(r)
    &&& leg matches SolariLeg::Transit {
        start_time,
        end_time,
        start_stop,
        end_stop,
        route,
        trip,
    } && {
        &&& route == tt.routes@[r]
        &&& trip == tt.trip_at(r, i)
        &&& start_stop == tt.stop_at(r, a).stop_index
        &&& end_stop == tt.stop_at(r, b).stop_index
        &&& start_time.seconds == tt.time_at(r, i, a).departure_time.epoch_seconds
        &&& end_time.seconds == tt.time_at(r, i, b).arrival_time.epoch_seconds
        &&& start_time.nanos == 0
        &&& end_time.nanos == 0
    }
}

/// `leg` is the walk along transfer `j` from stop `stop`, and takes as long as that; searching
/// back, it leads to stop `stop`, and only when one has to set out is told.
pub open spec fn true_walk(
    dir: Direction,
    tt: &MmapTimetable,
    leg: SolariLeg,
    stop: int,
    j: int,
) -> bool {
    &&& 0 <= stop < tt.stops@.len()
    &&& 0 <= j < tt.n_transfers(stop)
    &&& leg matches SolariLeg::Transfer { start_time, end_time, start_stop, end_stop } && {
        &&& start_time.nanos == 0
        &&& end_time.nanos == 0
        &&& match dir {
            Direction::Forward => {
                &&& start_stop == stop
                &&& end_stop == tt.transfer_at(stop, j).to
                &&& end_time.seconds == on_foot(
                    dir,
                    start_time.seconds as int,
                    tt.transfer_at(stop, j).time as int % 0x1_0000_0000,
                )
            },
            Direction::Backward => {
                &&& start_stop == tt.transfer_at(stop, j).to
                &&& end_stop == stop
                &&& end_time == start_time
            },
        }
    }
}

/// A leg is true to the timetable: it is a ride on one of its trips, or a walk along one of its
/// transfers.
pub open spec fn true_leg(dir: Direction, tt: &MmapTimetable, leg: SolariLeg) -> bool {
    ||| exists|r: int, i: int, a: int, b: int| #[trigger] true_ride(tt, leg, r, i, a, b)
    ||| exists|stop: int, j: int| #[trigger] true_walk(dir, tt, leg, stop, j)
}

/// The legs that are told are true to the timetable, in both directions.
pub proof fn lemma_legs_true(dir: Direction, tt: &MmapTimetable, s: SearchState, i: int)
    requires
        tt.core_wf(),
        state_ok(dir, tt.stops@.len(), s),
        sound(dir, tt, s),
        0 < i < s.steps.len(),
    ensures
        dir == Direction::Forward ==> forall|k: int|
            0 <= k < legs_to(s.steps, i).len() ==> true_leg(
                dir,
                tt,
                #[trigger] legs_to(s.steps, i)[k],
            ),
        dir == Direction::Backward ==> forall|k: int|
            0 <= k < legs_from(tt, s.steps, i).len() ==> true_leg(
                dir,
                tt,
                #[trigger] legs_from(tt, s.steps, i)[k],
            ),
{
    let log = s.steps;
    let c = chain(log, i);
    assert forall|k: int| 0 < k < log.len() implies (#[trigger] log[k]).previous_step < k by {
        assert(log_ok(s, k));
    }
    lemma_chain(log, i);
    assert forall|j: int| 0 <= j < c.len() implies {
        let step = log[#[trigger] c[j]];
        match dir {
            Direction::Forward => true_leg(dir, tt, leg_of(step)),
            Direction::Backward => true_leg(dir, tt, leg_back_of(tt, step)),
        }
    } by {
        let step = log[c[j]];
        let previous = log[step.previous_step as int];
        assert(step_feasible(dir, tt, log, c[j]));
        assert(well_shaped(tt, step));
        assert(continues(dir, tt, previous, step));
        if step.route is Some {
            let (r, t, a, b) = choose|r: int, t: int, a: int, b: int|
                #![trigger rides(dir, tt, step, r, t, a, b)]
                rides(dir, tt, step, r, t, a, b) && ride_connects(
                    dir,
                    tt,
                    previous,
                    step,
                    r,
                    t,
                    b,
                );
            assert(rides(dir, tt, step, r, t, a, b));
            match dir {
                Direction::Forward => {
                    assert(true_ride(tt, leg_of(step), r, t, a, b));
                },
                Direction::Backward => {
                    assert(tt.route_ok(r));
                    assert(tt.trip_ok(r, t));
                    let trip = tt.trip_at(r, t);
                    let board = tt.stop_at(r, a).stop_index;
                    let alight = tt.stop_at(r, b).stop_index;
                    assert(tt.times_of(trip)[a] == tt.time_at(r, t, a));
                    lemma_leaving_call(tt, r, trip, board, step.departure, 0, a);
                    let p = leaving_call(tt, r, trip, board, step.departure, 0);
                    lemma_first_call(tt, r, alight, p + 1, b);
                    let q = first_call(tt, r, alight, p + 1);
                    assert(tt.times_of(trip)[p] == tt.time_at(r, t, p));
                    assert(tt.times_of(trip)[q] == tt.time_at(r, t, q));
                    assert(true_ride(tt, leg_back_of(tt, step), r, t, p, q));
                },
            }
        } else {
            let (stop, l) = choose|stop: int, l: int| #[trigger]
                walks(dir, tt, previous, step, stop, l);
            assert(walks(dir, tt, previous, step, stop, l));
            match dir {
                Direction::Forward => {
                    assert(true_walk(dir, tt, leg_of(step), stop, l));
                },
                Direction::Backward => {
                    assert(true_walk(dir, tt, leg_back_of(tt, step), stop, l));
                },
            }
        }
    }
    if dir == Direction::Forward {
        assert forall|k: int| 0 <= k < legs_to(log, i).len() implies true_leg(
            dir,
            tt,
            #[trigger] legs_to(log, i)[k],
        ) by {
            let j = c.len() - 1 - k;
            assert(legs_to(log, i)[k] == leg_of(log[c[j]]));
        }
    } else {
        assert forall|k: int| 0 <= k < legs_from(tt, log, i).len() implies true_leg(
            dir,
            tt,
            #[trigger] legs_from(tt, log, i)[k],
        ) by {
            assert(legs_from(tt, log, i)[k] == leg_back_of(tt, log[c[k]]));
        }
    }
}

/// Walk `k` of an itinerary leads straight on: forward, it starts when the leg before it ends;
/// back, it starts as long before the leg after it as the walk takes, or at the first moment that
/// can be expressed.
pub open spec fn walk_leads_on(
    dir: Direction,
    tt: &MmapTimetable,
    legs: Seq<SolariLeg>,
    k: int,
    stop: int,
    j: int,
) -> bool {
    &&& true_walk(dir, tt, legs[k], stop, j)
    &&& match dir {
        Direction::Forward => k > 0 && legs[k].starts_at().seconds == legs[k - 1].ends_at().seconds,
        Direction::Backward => k + 1 < legs.len() && legs[k].starts_at().seconds == on_foot(
            dir,
            legs[k + 1].starts_at().seconds as int,
            tt.transfer_at(stop, j).time as int % 0x1_0000_0000,
        ),
    }
}

/// Every walk of an itinerary leads straight on.
pub open spec fn walks_lead_on(
    dir: Direction,
    tt: &MmapTimetable,
    legs: Seq<SolariLeg>,
) -> bool {
    forall|k: int|
        0 <= k < legs.len() && (#[trigger] legs[k]) is Transfer ==> exists|stop: int, j: int|
            #[trigger] walk_leads_on(dir, tt, legs, k, stop, j)
}

/// The walks that are told lead straight on, in both directions.
pub proof fn lemma_walks_lead_on(dir: Direction, tt: &MmapTimetable, s: SearchState, i: int)
    requires
        tt.core_wf(),
        state_ok(dir, tt.stops@.len(), s),
        sound(dir, tt, s),
        0 < i < s.steps.len(),
    ensures
        dir == Direction::Forward ==> walks_lead_on(dir, tt, legs_to(s.steps, i)),
        dir == Direction::Backward ==> walks_lead_on(dir, tt, legs_from(tt, s.steps, i)),
{
    let log = s.steps;
    let c = chain(log, i);
    let n = c.len() as int;
    assert forall|k: int| 0 < k < log.len() implies (#[trigger] log[k]).previous_step < k by {
        assert(log_ok(s, k));
    }
    lemma_chain(log, i);
    let legs = match dir {
        Direction::Forward => legs_to(log, i),
        Direction::Backward => legs_from(tt, log, i),
    };
    assert forall|k: int| 0 <= k < legs.len() && (#[trigger] legs[k]) is Transfer implies exists|
        stop: int,
        j: int,
    | #[trigger]
        walk_leads_on(dir, tt, legs, k, stop, j) by {
        let at = match dir {
            Direction::Forward => n - 1 - k,
            Direction::Backward => k,
        };
        let step = log[c[at]];
        let previous = log[step.previous_step as int];
        assert(legs[k] == match dir {
            Direction::Forward => leg_of(step),
            Direction::Backward => leg_back_of(tt, step),
        });
        assert(step_feasible(dir, tt, log, c[at]));
        assert(well_shaped(tt, step));
        assert(continues(dir, tt, previous, step));
        assert(step.route is None);
        let (stop, j) = choose|stop: int, j: int| #[trigger]
            walks(dir, tt, previous, step, stop, j);
        assert(walks(dir, tt, previous, step, stop, j));
        assert(previous.route is Some);
        assert(at + 1 < n) by {
            if at + 1 == n {
                assert(c[at] == c.last());
                assert(log[step.previous_step as int].previous_step == 0);
                assert(well_shaped(tt, log[step.previous_step as int]));
            }
        }
        assert(c[at + 1] == step.previous_step);
        match dir {
            Direction::Forward => {
                assert(legs[k - 1] == leg_of(log[c[at + 1]]));
            },
            Direction::Backward => {
                assert(legs[k + 1] == leg_back_of(tt, log[c[at + 1]]));
            },
        }
        assert(walk_leads_on(dir, tt, legs, k, stop, j));
    }
}

/// The named place is reached after the last leg and the walk from its stop: as long as the first
/// entry of `near` for that stop says.
pub open spec fn ends_after_walk(itinerary: SolariItinerary, near: Seq<(usize, u32)>) -> bool {
    let legs = itinerary.legs@;
    &&& legs.len() > 0
    &&& itinerary.end_time.nanos == 0
    &&& exists|k: int| #[trigger]
        first_near(near, legs.last().to_stop(), k) && itinerary.end_time.seconds
            == legs.last().ends_at().seconds + near[k].1
}

/// Entry `k` of `near` is the first for stop `stop`.
pub open spec fn first_near(near: Seq<(usize, u32)>, stop: usize, k: int) -> bool {
    &&& 0 <= k < near.len()
    &&& near[k].0 == stop
    &&& forall|l: int| 0 <= l < k ==> (#[trigger] near[l]).0 != stop
}

/// The cost of a stop is that of the first entry for it.
pub proof fn lemma_cost_is_first(near: Seq<(usize, u32)>, stop: usize, from: int) -> (k: int)
    requires
        0 <= from <= near.len(),
        forall|l: int| 0 <= l < from ==> (#[trigger] near[l]).0 != stop,
        cost_from(near, stop, from) is Some,
    ensures
        first_near(near, stop, k),
        cost_from(near, stop, from) == Some(near[k].1),
    decreases near.len() - from,
{
    if near[from].0 == stop {
        from
    } else {
        lemma_cost_is_first(near, stop, from + 1)
    }
}

/// An itinerary that can be travelled: it does not begin after its first leg nor end before its
/// last, its legs connect, and none starts before the one before it ends.
pub open spec fn travels(itinerary: SolariItinerary) -> bool {
    let legs = itinerary.legs@;
    &&& forall|k: int| 0 <= k < legs.len() ==> runs_forward(#[trigger] legs[k])
    &&& forall|k: int, l: int|
        0 <= k && l == k + 1 && l < legs.len() ==> connected(
            #[trigger] legs[k],
            #[trigger] legs[l],
        ) && in_sequence(legs[k], legs[l])
    &&& legs.len() > 0 ==> {
        &&& itinerary.start_time.seconds <= legs[0].starts_at().seconds
        &&& legs.last().ends_at().seconds <= itinerary.end_time.seconds
    }
}

/// There is a first leg. It starts at a stop near the start, and no earlier than one who leaves
/// the start at `time` gets to that stop.
pub open spec fn caught_from(
    itinerary: SolariItinerary,
    time: Time,
    near_start: Seq<(usize, u32)>,
) -> bool {
    let legs = itinerary.legs@;
    legs.len() > 0 && exists|k: int|
        0 <= k < near_start.len() && legs[0].from_stop() == (#[trigger] near_start[k]).0
            && time.plus(near_start[k].1).epoch_seconds <= legs[0].starts_at().seconds
}

/// There is a last leg. It ends at a stop near the target, in time to get from there to the target
/// by `end_at`.
pub open spec fn in_time_for(
    itinerary: SolariItinerary,
    end_at: Time,
    near_target: Seq<(usize, u32)>,
) -> bool {
    let legs = itinerary.legs@;
    legs.len() > 0 && exists|k: int|
        0 <= k < near_target.len() && legs.last().to_stop() == (#[trigger] near_target[k]).0
            && legs.last().ends_at().seconds <= end_at.minus(near_target[k].1).epoch_seconds
}

/// There is a last leg, and it ends at a target.
pub open spec fn ends_at_target(itinerary: SolariItinerary, targets: Seq<(usize, u32)>) -> bool {
    let legs = itinerary.legs@;
    legs.len() > 0 && exists|k: int|
        0 <= k < targets.len() && legs.last().to_stop() == (#[trigger] targets[k]).0
}

/// There is a first leg, and it starts at a target: a search from a deadline back leads there.
pub open spec fn starts_at_target(itinerary: SolariItinerary, targets: Seq<(usize, u32)>) -> bool {
    let legs = itinerary.legs@;
    legs.len() > 0 && exists|k: int|
        0 <= k < targets.len() && legs[0].from_stop() == (#[trigger] targets[k]).0
}

/// What is told of a step that leads to a target, and is no start, has legs and ends there.
pub proof fn lemma_told_ends(
    dir: Direction,
    context: &RouterContext,
    it: InternalItinerary,
    targets: Seq<(usize, u32)>,
    k: int,
)
    requires
        context.running(dir),
        0 < it.last_step < context.step_log@.len(),
        0 <= k < targets.len(),
        context.step_log@[it.last_step as int].previous_step != 0,
        context.step_log@[it.last_step as int].to == InternalStepLocation::Stop(targets[k].0),
    ensures
        ({
            let legs = legs_to(context.step_log@, it.last_step as int);
            legs.len() > 0 && legs.last().to_stop() == targets[k].0
                && legs.last().ends_at().seconds
                == context.step_log@[it.last_step as int].arrival.epoch_seconds
        }),
        ({
            let legs = legs_from(context.timetable, context.step_log@, it.last_step as int);
            legs.len() > 0 && legs[0].from_stop() == targets[k].0 && legs[0].starts_at().seconds
                == context.step_log@[it.last_step as int].departure.epoch_seconds
        }),
{
    let log = context.step_log@;
    let i = it.last_step as int;
    assert forall|k: int| 0 < k < log.len() implies (#[trigger] log[k]).previous_step < k by {
        lemma_told_apart(dir, context, k);
    }
    lemma_chain(log, i);
    let c = chain(log, i);
    if c.len() > 0 {
        assert(legs_to(log, i).last() == leg_of(log[c[0]]));
        assert(legs_from(context.timetable, log, i)[0] == leg_back_of(
            context.timetable,
            log[c[0]],
        ));
    }
}

/// What is told of a search from a start time on begins with a leg that can be caught, and can be
/// travelled where trips run forward in time.
pub proof fn lemma_told_travels(
    tt: &MmapTimetable,
    s: SearchState,
    it: InternalItinerary,
    time: Time,
    costs: Seq<(usize, u32)>,
    near_start: Seq<(usize, u32)>,
    start_location: LatLng,
    target_location: LatLng,
    itinerary: SolariItinerary,
)
    requires
        state_ok(Direction::Forward, tt.stops@.len(), s),
        sound(Direction::Forward, tt, s),
        0 < it.last_step < s.steps.len(),
        s.steps[it.last_step as int].previous_step != 0,
        tells(s.steps, it, time, costs, start_location, target_location, itinerary),
        forall|i: int|
            0 < i < s.steps.len() && (#[trigger] s.steps[i]).previous_step == 0 ==> begins(
                Direction::Forward,
                time,
                start_location,
                near_start,
                s.steps[i],
            ),
    ensures
        forward_in_time(tt) ==> travels(itinerary),
        caught_from(itinerary, time, near_start),
{
    let log = s.steps;
    let i = it.last_step as int;
    let c = chain(log, i);
    lemma_itinerary_travels(tt, s, i);
    assert forall|k: int| 0 < k < log.len() implies (#[trigger] log[k]).previous_step < k by {
        assert(log_ok(s, k));
    }
    lemma_chain(log, i);
    if c.len() > 0 {
        let legs = legs_to(log, i);
        assert(legs.last() == leg_of(log[c[0]]));
        let p = log[c.last()].previous_step as int;
        assert(c.last() == c[c.len() - 1]);
        assert(step_feasible(Direction::Forward, tt, log, p));
        assert(begins(Direction::Forward, time, start_location, near_start, log[p]));
        let k = choose|k: int|
            0 <= k < near_start.len() && log[p] == start_step(
                Direction::Forward,
                time,
                start_location,
                (#[trigger] near_start[k]).0,
                near_start[k].1,
            );
        assert(legs[0].from_stop() == near_start[k].0);
    }
}

/// Where trips run forward in time, what is told of a search from a deadline back can be
/// travelled.
pub proof fn lemma_told_back_travels(
    tt: &MmapTimetable,
    s: SearchState,
    it: InternalItinerary,
    end_at: Time,
    near_target: Seq<(usize, u32)>,
    start_location: LatLng,
    target_location: LatLng,
    itinerary: SolariItinerary,
)
    requires
        tt.core_wf(),
        state_ok(Direction::Backward, tt.stops@.len(), s),
        sound(Direction::Backward, tt, s),
        forward_in_time(tt),
        0 < it.last_step < s.steps.len(),
        s.steps[it.last_step as int].previous_step != 0,
        tells_back(tt, s.steps, it, end_at, start_location, target_location, itinerary),
        forall|i: int|
            0 < i < s.steps.len() && (#[trigger] s.steps[i]).previous_step == 0 ==> begins(
                Direction::Backward,
                end_at,
                target_location,
                near_target,
                s.steps[i],
            ),
    ensures
        travels(itinerary),
        in_time_for(itinerary, end_at, near_target),
{
    let log = s.steps;
    let i = it.last_step as int;
    let c = chain(log, i);
    lemma_itinerary_back_travels(tt, s, i);
    assert forall|k: int| 0 < k < log.len() implies (#[trigger] log[k]).previous_step < k by {
        assert(log_ok(s, k));
    }
    lemma_chain(log, i);
    if c.len() > 0 {
        let p = log[c.last()].previous_step as int;
        assert(c.last() == c[c.len() - 1]);
        assert(begins(Direction::Backward, end_at, target_location, near_target, log[p]));
        let k = choose|k: int|
            0 <= k < near_target.len() && log[p] == start_step(
                Direction::Backward,
                end_at,
                target_location,
                (#[trigger] near_target[k]).0,
                near_target[k].1,
            );
        assert(itinerary.legs@.last().to_stop() == near_target[k].0);
    }
}

} // verus!
