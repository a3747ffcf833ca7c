//! Queries: from two places and a time to the itineraries between them.

use crate::route::context::{
    entry_ok, step_time, stops_exist, Direction, InternalItinerary, InternalStepLocation, LatLng,
    Query, RouterContext, SearchState,
};
use crate::route::itineraries::{
    caught_from, cost_from, ends_after_walk, ends_at_target, first_near, in_time_for,
    lemma_cost_is_first, lemma_legs_true, lemma_told_back_travels, lemma_told_ends,
    lemma_told_travels, lemma_walks_lead_on, starts_at_target, tells, tells_back, travels,
    true_leg, unwind_itinerary, unwind_itinerary_backward, walks_lead_on, SolariItinerary,
};
use crate::route::journeys::{forward_in_time, well_shaped};
use crate::route::picking::{
    candidate, lemma_picked_from_table, pick_best_itineraries, pick_best_itineraries_backward,
    picked, picked_rounds, picks, shown, worth_showing,
};
use crate::route::search::{
    after_rounds, begins, ended, fewest_rounds, lemma_fewest_rounds, runs, started,
};
use crate::timetable::distance::Distance;
use crate::timetable::{MmapTimetable, Stop, Time};
use vstd::prelude::*;

verus! {

/// Whether the stop that was found as number `k` is near enough.
pub open spec fn near_enough(
    found: Seq<(usize, Distance)>,
    max_stops: Option<usize>,
    max_distance: Option<Distance>,
    k: int,
) -> bool {
    &&& max_stops matches Some(max_stops) ==> k < max_stops
    &&& max_distance matches Some(max_distance) ==> !max_distance.below(found[k].1)
}

/// How many of the stops that were found, the nearest first, are taken: those before the first
/// that is not near enough.
pub open spec fn taken(
    found: Seq<(usize, Distance)>,
    max_stops: Option<usize>,
    max_distance: Option<Distance>,
    k: int,
) -> int
    decreases found.len() - k,
{
    if k >= found.len() || !near_enough(found, max_stops, max_distance, k) {
        k
    } else {
        taken(found, max_stops, max_distance, k + 1)
    }
}

/// Whether a stop that was found at distance `d` lies beyond the largest distance.
pub open spec fn beyond(d: Distance, max_distance: Option<Distance>) -> bool {
    max_distance is Some && max_distance->0.rank is Some && d.rank is Some && d.rank->0
        > max_distance->0.rank->0
}

/// As many stops are taken as the limits allow: none that is taken lies beyond the largest
/// distance, no more are taken than the largest number, and the first that is left out, if any, is
/// past one of the two limits. Both limits hold, whichever else is given.
pub proof fn lemma_taken(
    found: Seq<(usize, Distance)>,
    max_stops: Option<usize>,
    max_distance: Option<Distance>,
    from: int,
)
    requires
        0 <= from <= found.len(),
        max_stops matches Some(max_stops) ==> from <= max_stops,
    ensures
        from <= taken(found, max_stops, max_distance, from) <= found.len(),
        max_stops matches Some(most) ==> taken(found, max_stops, max_distance, from) <= most,
        forall|k: int|
            from <= k < taken(found, max_stops, max_distance, from) ==> !beyond(
                (#[trigger] found[k]).1,
                max_distance,
            ),
        taken(found, max_stops, max_distance, from) < found.len() ==> {
            ||| max_stops is Some && max_stops->0 == taken(found, max_stops, max_distance, from)
            ||| beyond(found[taken(found, max_stops, max_distance, from)].1, max_distance)
        },
    decreases found.len() - from,
{
    if from < found.len() && near_enough(found, max_stops, max_distance, from) {
        lemma_taken(found, max_stops, max_distance, from + 1);
    }
}

/// Answers queries over a timetable.
#[derive(Debug)]
pub struct Router<'a> {
    pub timetable: &'a MmapTimetable,
}

/// `its` are the itineraries to show after `k` rounds of a search that began as `s`.
pub open spec fn found(
    dir: Direction,
    tt: &MmapTimetable,
    s: SearchState,
    k: int,
    its: Seq<InternalItinerary>,
) -> bool {
    let end = after_rounds(dir, tt, s, k);
    &&& runs(dir, tt, s, k)
    &&& ended(dir, tt, s, end, k)
    &&& shown(dir, end.steps, its)
    &&& forall|it: InternalItinerary| #[trigger]
        its.contains(it) <==> exists|r: int, w: int, l: int| #[trigger]
            worth_showing(dir, end, end.query.targets, it, r, w, l)
    &&& forall|it: InternalItinerary| #[trigger]
        its.contains(it) <==> picks(dir, end, end.query.targets).contains(it)
}

/// `itineraries` answer a query for itineraries from `start_location` at `time` on: they tell of
/// what is found in the `k` rounds that the search runs.
pub open spec fn answers(
    tt: &MmapTimetable,
    time: Time,
    start_location: LatLng,
    target_location: LatLng,
    near_start: Seq<(usize, u32)>,
    query: Query,
    k: int,
    its: Seq<InternalItinerary>,
    itineraries: Seq<SolariItinerary>,
) -> bool {
    let s = started(
        Direction::Forward,
        tt.stops@.len(),
        query,
        time,
        start_location,
        near_start,
        near_start.len() as int,
    );
    &&& found(Direction::Forward, tt, s, k, its)
    &&& itineraries.len() == its.len()
    &&& forall|j: int|
        0 <= j < its.len() ==> tells(
            after_rounds(Direction::Forward, tt, s, k).steps,
            its[j],
            time,
            query.targets,
            start_location,
            target_location,
            #[trigger] itineraries[j],
        )
}

/// `itineraries` answer a query for itineraries to `target_location` by `end_at`.
pub open spec fn answers_back(
    tt: &MmapTimetable,
    end_at: Time,
    start_location: LatLng,
    target_location: LatLng,
    near_target: Seq<(usize, u32)>,
    query: Query,
    k: int,
    its: Seq<InternalItinerary>,
    itineraries: Seq<SolariItinerary>,
) -> bool {
    let s = started(
        Direction::Backward,
        tt.stops@.len(),
        query,
        end_at,
        target_location,
        near_target,
        near_target.len() as int,
    );
    &&& found(Direction::Backward, tt, s, k, its)
    &&& itineraries.len() == its.len()
    &&& forall|j: int|
        0 <= j < its.len() ==> tells_back(
            tt,
            after_rounds(Direction::Backward, tt, s, k).steps,
            its[j],
            end_at,
            start_location,
            target_location,
            #[trigger] itineraries[j],
        )
}

/// `itinerary` shows `it`: its last leg ends where and when the way does; searching back, its first
/// leg starts where and when the way does.
pub open spec fn shows(
    dir: Direction,
    end: SearchState,
    it: InternalItinerary,
    itinerary: SolariItinerary,
) -> bool {
    let legs = itinerary.legs@;
    let to = end.steps[it.last_step as int].to;
    &&& legs.len() > 0
    &&& match dir {
        Direction::Forward => {
            &&& to == InternalStepLocation::Stop(legs.last().to_stop())
            &&& legs.last().ends_at().seconds == it.final_time.epoch_seconds
        },
        Direction::Backward => {
            &&& to == InternalStepLocation::Stop(legs[0].from_stop())
            &&& legs[0].starts_at().seconds == it.final_time.epoch_seconds
        },
    }
}

/// `itineraries` show what a search that began as `s` has to show after `k` rounds, with which it
/// has ended: everything that is worth showing, each once, and nothing else.
pub open spec fn shows_all(
    dir: Direction,
    tt: &MmapTimetable,
    s: SearchState,
    k: int,
    its: Seq<InternalItinerary>,
    itineraries: Seq<SolariItinerary>,
) -> bool {
    let end = after_rounds(dir, tt, s, k);
    &&& ended(dir, tt, s, end, k)
    &&& its.len() == itineraries.len()
    &&& its.no_duplicates()
    &&& forall|it: InternalItinerary| #[trigger]
        its.contains(it) <==> exists|r: int, w: int, l: int| #[trigger]
            worth_showing(dir, end, end.query.targets, it, r, w, l)
    &&& forall|j: int|
        0 <= j < its.len() ==> shows(dir, end, its[j], #[trigger] itineraries[j])
}

/// Every leg of an itinerary is true to the timetable, and every walk leads straight on.
pub open spec fn true_legs(
    dir: Direction,
    tt: &MmapTimetable,
    itinerary: SolariItinerary,
) -> bool {
    &&& forall|k: int|
        0 <= k < itinerary.legs@.len() ==> true_leg(dir, tt, #[trigger] itinerary.legs@[k])
    &&& walks_lead_on(dir, tt, itinerary.legs@)
}

proof fn lemma_cost_from(costs: Seq<(usize, u32)>, stop: usize, k: int, at: int)
    requires
        0 <= k <= at < costs.len(),
        costs[at].0 == stop,
    ensures
        cost_from(costs, stop, k) is Some,
    decreases at - k,
{
    if costs[k].0 != stop {
        lemma_cost_from(costs, stop, k + 1, at);
    }
}

/// A picked itinerary ends at a target, with a step that is no start.
proof fn lemma_pick_ends_at_target(
    dir: Direction,
    context: &RouterContext,
    it: InternalItinerary,
) -> (k: int)
    requires
        context.running(dir),
        stops_exist(context.timetable.stops@.len(), context.targets@),
        picks(dir, context.state(), context.targets@).contains(it),
    ensures
        0 < it.last_step < context.step_log@.len(),
        context.step_log@[it.last_step as int].previous_step != 0,
        it.final_time == step_time(dir, context.step_log@[it.last_step as int]),
        0 <= k < context.targets@.len(),
        context.step_log@[it.last_step as int].to == InternalStepLocation::Stop(
            context.targets@[k].0,
        ),
        cost_from(
            context.targets@,
            context.step_log@[it.last_step as int].to->Stop_0,
            0,
        ) is Some,
{
    let s = context.state();
    let query = context.query();
    let fewest = fewest_rounds(s.best, query.targets);
    lemma_fewest_rounds(s.best, query.targets, 0);
    let rounds = picked_rounds(s, fewest->0);
    lemma_picked_from_table(dir, s, context.targets@, rounds, it);
    let (row, k) = choose|row: int, k: int|
        0 <= row < rounds && 0 <= k < context.targets@.len() && #[trigger] candidate(
            s,
            context.targets@,
            row,
            k,
        ) == Some(it);
    assert(candidate(s, context.targets@, row, k) == Some(it));
    let stop = context.targets@[k].0;
    assert(entry_ok(dir, s, row, stop as int));
    lemma_cost_from(context.targets@, stop, 0, k);
    assert(well_shaped(context.timetable, s.steps[it.last_step as int]));
    k
}

impl<'a> Router<'a> {
    pub fn new(timetable: &'a MmapTimetable) -> (router: Router<'a>)
        ensures
            router.timetable == timetable,
    {
        Router { timetable }
    }

    /// The timetable that queries are answered over.
    pub fn timetable(&self) -> (timetable: &'a MmapTimetable)
        ensures
            timetable == self.timetable,
    {
        self.timetable
    }

    /// The stops to start from or end at: of those that were found, the nearest first, as many as
    /// the limits allow, of which there is at least one.
    pub fn nearest_stops(
        &self,
        found: &[(usize, Distance)],
        max_stops: Option<usize>,
        max_distance: Option<Distance>,
    ) -> (stops: Vec<Stop>)
        requires
            max_stops is Some || max_distance is Some,
            forall|k: int|
                0 <= k < found@.len() ==> (#[trigger] found@[k]).0 < self.timetable.stops@.len(),
        ensures
            stops@.len() == taken(found@, max_stops, max_distance, 0),
            stops@.len() <= found@.len(),
            max_stops matches Some(max_stops) ==> stops@.len() <= max_stops,
            forall|k: int|
                0 <= k < stops@.len() ==> !beyond((#[trigger] found@[k]).1, max_distance),
            stops@.len() < found@.len() ==> {
                ||| max_stops is Some && max_stops->0 == stops@.len()
                ||| beyond(found@[stops@.len() as int].1, max_distance)
            },
            forall|k: int|
                0 <= k < stops@.len() ==> #[trigger] stops@[k] == self.timetable.stops@[
                    found@[k].0 as int
                ],
    {
        proof {
            lemma_taken(found@, max_stops, max_distance, 0);
        }
        let mut stops: Vec<Stop> = Vec::new();
        let mut k: usize = 0;
        while k < found.len()
            invariant
                k <= found@.len(),
                stops@.len() == k,
                forall|k: int|
                    0 <= k < found@.len() ==> (#[trigger] found@[k]).0
                        < self.timetable.stops@.len(),
                taken(found@, max_stops, max_distance, 0) == taken(
                    found@,
                    max_stops,
                    max_distance,
                    k as int,
                ),
                forall|j: int|
                    0 <= j < k ==> #[trigger] stops@[j] == self.timetable.stops@[
                        found@[j].0 as int
                    ],
            decreases found@.len() - k,
        {
            proof {
                lemma_taken(found@, max_stops, max_distance, 0);
            }
            if let Some(max_stops) = max_stops {
                if k >= max_stops {
                    return stops;
                }
            }
            if let Some(max_distance) = max_distance {
                if max_distance.is_below(&found[k].1) {
                    return stops;
                }
            }
            assert(found@[k as int].0 < self.timetable.stops@.len());
            stops.push(*self.timetable.stop(found[k].0));
            k = k + 1;
        }
        stops
    }

    /// The itineraries that start at `start_location` no earlier than `route_start_time`, given
    /// the stops near both places and how many seconds away on foot each is.
    pub fn route(
        &self,
        route_start_time: Time,
        start_location: LatLng,
        target_location: LatLng,
        near_start: &[(usize, u32)],
        near_target: Vec<(usize, u32)>,
        max_steps: Option<usize>,
        max_step_delta: Option<usize>,
    ) -> (itineraries: Vec<SolariItinerary>)
        requires
            self.timetable.wf(),
            stops_exist(self.timetable.stops@.len(), near_start@),
            stops_exist(self.timetable.stops@.len(), near_target@),
        ensures
            exists|k: int, its: Seq<InternalItinerary>| #[trigger]
                answers(
                    self.timetable,
                    route_start_time,
                    start_location,
                    target_location,
                    near_start@,
                    (Query { targets: near_target@, max_steps, max_step_delta }),
                    k,
                    its,
                    itineraries@,
                ),
            forall|j: int|
                0 <= j < itineraries@.len() ==> ends_at_target(
                    #[trigger] itineraries@[j],
                    near_target@,
                ),
            forall|j: int|
                0 <= j < itineraries@.len() ==> caught_from(
                    #[trigger] itineraries@[j],
                    route_start_time,
                    near_start@,
                ),
            forward_in_time(self.timetable) ==> forall|j: int|
                0 <= j < itineraries@.len() ==> travels(#[trigger] itineraries@[j]),
            exists|k: int, its: Seq<InternalItinerary>| #[trigger]
                shows_all(
                    Direction::Forward,
                    self.timetable,
                    started(
                        Direction::Forward,
                        self.timetable.stops@.len(),
                        (Query { targets: near_target@, max_steps, max_step_delta }),
                        route_start_time,
                        start_location,
                        near_start@,
                        near_start@.len() as int,
                    ),
                    k,
                    its,
                    itineraries@,
                ),
            forall|j: int|
                0 <= j < itineraries@.len() ==> {
                    let told = #[trigger] itineraries@[j];
                    &&& told.start_location == start_location
                    &&& told.end_location == target_location
                    &&& told.start_time.seconds == route_start_time.epoch_seconds
                    &&& told.start_time.nanos == 0
                    &&& ends_after_walk(told, near_target@)
                    &&& true_legs(Direction::Forward, self.timetable, told)
                },
            forall|i: int, j: int|
                0 <= i < j < itineraries@.len() ==> (
                #[trigger] itineraries@[i]).legs@.last().ends_at().seconds <= (
                #[trigger] itineraries@[j]).legs@.last().ends_at().seconds,
    {
        let mut context: RouterContext = RouterContext::new(
            self.timetable,
            near_target,
            max_steps,
            max_step_delta,
        );
        context.init(route_start_time, start_location, near_start);
        let ghost s = context.state();
        let ghost query = context.query();
        context.route();
        let ghost k = choose|k: int| #[trigger]
            runs(Direction::Forward, self.timetable, s, k) && context.state()
                == after_rounds(Direction::Forward, self.timetable, s, k) && ended(
                Direction::Forward,
                self.timetable,
                s,
                context.state(),
                k,
            );
        let its: Vec<InternalItinerary> = pick_best_itineraries(
            &context,
            context.targets.as_slice(),
        );
        let mut itineraries: Vec<SolariItinerary> = Vec::new();
        let mut j: usize = 0;
        while j < its.len()
            invariant
                context.running(Direction::Forward),
                context.timetable == self.timetable,
                stops_exist(self.timetable.stops@.len(), context.targets@),
                forall|it: InternalItinerary| #[trigger]
                    its@.contains(it) <==> picks(
                        Direction::Forward,
                        context.state(),
                        context.targets@,
                    ).contains(it),
                j <= its@.len(),
                itineraries@.len() == j,
                forall|i: int|
                    0 <= i < j ==> tells(
                        context.step_log@,
                        its@[i],
                        route_start_time,
                        context.targets@,
                        start_location,
                        target_location,
                        #[trigger] itineraries@[i],
                    ),
                forall|i: int|
                    0 < i < context.step_log@.len() && (
                    #[trigger] context.step_log@[i]).previous_step == 0 ==> begins(
                        Direction::Forward,
                        route_start_time,
                        start_location,
                        near_start@,
                        context.step_log@[i],
                    ),
                forall|i: int|
                    0 <= i < j ==> ends_at_target(#[trigger] itineraries@[i], context.targets@),
                forall|i: int|
                    0 <= i < j ==> caught_from(
                        #[trigger] itineraries@[i],
                        route_start_time,
                        near_start@,
                    ),
                forward_in_time(self.timetable) ==> forall|i: int|
                    0 <= i < j ==> travels(#[trigger] itineraries@[i]),
                forall|i: int|
                    0 <= i < j ==> ends_after_walk(#[trigger] itineraries@[i], context.targets@)
                        && true_legs(Direction::Forward, self.timetable, itineraries@[i])
                        && itineraries@[i].legs@.last().ends_at().seconds
                        == its@[i].final_time.epoch_seconds && shows(
                        Direction::Forward,
                        context.state(),
                        its@[i],
                        itineraries@[i],
                    ),
            decreases its@.len() - j,
        {
            let it: InternalItinerary = its[j];
            proof {
                assert(its@.contains(it));
                let k = lemma_pick_ends_at_target(Direction::Forward, &context, it);
                lemma_told_ends(Direction::Forward, &context, it, context.targets@, k);
            }
            let itinerary: SolariItinerary = unwind_itinerary(
                &context,
                &it,
                route_start_time,
                context.targets.as_slice(),
                start_location,
                target_location,
            );
            proof {
                lemma_told_travels(
                    self.timetable,
                    context.state(),
                    it,
                    route_start_time,
                    context.targets@,
                    near_start@,
                    start_location,
                    target_location,
                    itinerary,
                );
                lemma_legs_true(
                    Direction::Forward,
                    self.timetable,
                    context.state(),
                    it.last_step as int,
                );
                lemma_walks_lead_on(
                    Direction::Forward,
                    self.timetable,
                    context.state(),
                    it.last_step as int,
                );
                let k = lemma_cost_is_first(
                    context.targets@,
                    context.step_log@[it.last_step as int].to->Stop_0,
                    0,
                );
                assert(first_near(context.targets@, itinerary.legs@.last().to_stop(), k));
            }
            itineraries.push(itinerary);
            j = j + 1;
        }
        assert(found(Direction::Forward, self.timetable, s, k, its@));
        assert(shows_all(Direction::Forward, self.timetable, s, k, its@, itineraries@));
        assert(answers(
            self.timetable,
            route_start_time,
            start_location,
            target_location,
            near_start@,
            query,
            k,
            its@,
            itineraries@,
        ));
        itineraries
    }

    /// The itineraries that end at `target_location` no later than `end_at`, given the stops near
    /// both places and how many seconds away on foot each is.
    pub fn route_arrive_by(
        &self,
        end_at: Time,
        start_location: LatLng,
        target_location: LatLng,
        near_start: Vec<(usize, u32)>,
        near_target: &[(usize, u32)],
        max_steps: Option<usize>,
        max_step_delta: Option<usize>,
    ) -> (itineraries: Vec<SolariItinerary>)
        requires
            self.timetable.wf(),
            stops_exist(self.timetable.stops@.len(), near_start@),
            stops_exist(self.timetable.stops@.len(), near_target@),
        ensures
            exists|k: int, its: Seq<InternalItinerary>| #[trigger]
                answers_back(
                    self.timetable,
                    end_at,
                    start_location,
                    target_location,
                    near_target@,
                    (Query { targets: near_start@, max_steps, max_step_delta }),
                    k,
                    its,
                    itineraries@,
                ),
            forall|j: int|
                0 <= j < itineraries@.len() ==> starts_at_target(
                    #[trigger] itineraries@[j],
                    near_start@,
                ),
            forward_in_time(self.timetable) ==> forall|j: int|
                0 <= j < itineraries@.len() ==> travels(#[trigger] itineraries@[j]) && in_time_for(
                    itineraries@[j],
                    end_at,
                    near_target@,
                ),
            exists|k: int, its: Seq<InternalItinerary>| #[trigger]
                shows_all(
                    Direction::Backward,
                    self.timetable,
                    started(
                        Direction::Backward,
                        self.timetable.stops@.len(),
                        (Query { targets: near_start@, max_steps, max_step_delta }),
                        end_at,
                        target_location,
                        near_target@,
                        near_target@.len() as int,
                    ),
                    k,
                    its,
                    itineraries@,
                ),
            forall|j: int|
                0 <= j < itineraries@.len() ==> {
                    let told = #[trigger] itineraries@[j];
                    &&& told.start_location == start_location
                    &&& told.end_location == target_location
                    &&& told.start_time == told.legs@[0].starts_at()
                    &&& told.end_time.seconds == end_at.epoch_seconds
                    &&& told.end_time.nanos == 0
                    &&& true_legs(Direction::Backward, self.timetable, told)
                },
            forall|i: int, j: int|
                0 <= i < j < itineraries@.len() ==> (
                #[trigger] itineraries@[i]).start_time.seconds >= (
                #[trigger] itineraries@[j]).start_time.seconds,
    {
        let mut context: RouterContext = RouterContext::new(
            self.timetable,
            near_start,
            max_steps,
            max_step_delta,
        );
        context.init_backward(end_at, target_location, near_target);
        let ghost s = context.state();
        let ghost query = context.query();
        context.route_backward();
        let ghost k = choose|k: int| #[trigger]
            runs(Direction::Backward, self.timetable, s, k) && context.state()
                == after_rounds(Direction::Backward, self.timetable, s, k) && ended(
                Direction::Backward,
                self.timetable,
                s,
                context.state(),
                k,
            );
        let its: Vec<InternalItinerary> = pick_best_itineraries_backward(
            &context,
            context.targets.as_slice(),
        );
        let mut itineraries: Vec<SolariItinerary> = Vec::new();
        let mut j: usize = 0;
        while j < its.len()
            invariant
                context.running(Direction::Backward),
                context.timetable == self.timetable,
                stops_exist(self.timetable.stops@.len(), context.targets@),
                forall|it: InternalItinerary| #[trigger]
                    its@.contains(it) <==> picks(
                        Direction::Backward,
                        context.state(),
                        context.targets@,
                    ).contains(it),
                j <= its@.len(),
                itineraries@.len() == j,
                forall|i: int|
                    0 <= i < j ==> tells_back(
                        self.timetable,
                        context.step_log@,
                        its@[i],
                        end_at,
                        start_location,
                        target_location,
                        #[trigger] itineraries@[i],
                    ),
                forall|i: int|
                    0 < i < context.step_log@.len() && (
                    #[trigger] context.step_log@[i]).previous_step == 0 ==> begins(
                        Direction::Backward,
                        end_at,
                        target_location,
                        near_target@,
                        context.step_log@[i],
                    ),
                forall|i: int|
                    0 <= i < j ==> starts_at_target(#[trigger] itineraries@[i], context.targets@),
                forward_in_time(self.timetable) ==> forall|i: int|
                    0 <= i < j ==> travels(#[trigger] itineraries@[i]) && in_time_for(
                        itineraries@[i],
                        end_at,
                        near_target@,
                    ),
                forall|i: int|
                    0 <= i < j ==> true_legs(
                        Direction::Backward,
                        self.timetable,
                        #[trigger] itineraries@[i],
                    ) && itineraries@[i].legs@[0].starts_at().seconds
                        == its@[i].final_time.epoch_seconds && shows(
                        Direction::Backward,
                        context.state(),
                        its@[i],
                        itineraries@[i],
                    ),
            decreases its@.len() - j,
        {
            let it: InternalItinerary = its[j];
            proof {
                assert(its@.contains(it));
                let k = lemma_pick_ends_at_target(Direction::Backward, &context, it);
                lemma_told_ends(Direction::Backward, &context, it, context.targets@, k);
            }
            let itinerary: SolariItinerary = unwind_itinerary_backward(
                &context,
                &it,
                end_at,
                start_location,
                target_location,
            );
            proof {
                if forward_in_time(self.timetable) {
                    lemma_told_back_travels(
                        self.timetable,
                        context.state(),
                        it,
                        end_at,
                        near_target@,
                        start_location,
                        target_location,
                        itinerary,
                    );
                }
                lemma_legs_true(
                    Direction::Backward,
                    self.timetable,
                    context.state(),
                    it.last_step as int,
                );
                lemma_walks_lead_on(
                    Direction::Backward,
                    self.timetable,
                    context.state(),
                    it.last_step as int,
                );
            }
            itineraries.push(itinerary);
            j = j + 1;
        }
        assert(found(Direction::Backward, self.timetable, s, k, its@));
        assert(shows_all(Direction::Backward, self.timetable, s, k, its@, itineraries@));
        assert(answers_back(
            self.timetable,
            end_at,
            start_location,
            target_location,
            near_target@,
            query,
            k,
            its@,
            itineraries@,
        ));
        itineraries
    }
}

} // verus!
