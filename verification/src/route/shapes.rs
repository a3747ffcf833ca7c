//! Which part of a route's shape a ride covers.

use crate::route::context::{InternalStep, InternalStepLocation, LatLng};
use crate::route::itineraries::{first_call, SolariLeg};
use crate::timetable::distance::Distance;
use crate::timetable::{MmapTimetable, RouteStop};
use vstd::prelude::*;

verus! {

/// Whether a point of a shape lies before `bound`, or it is not known where it lies.
pub open spec fn before(point: Option<Distance>, bound: Distance) -> bool {
    match point {
        None => true,
        Some(d) => d.rank is None || d.below(bound),
    }
}

/// The first point, from point `i` on, that is known not to lie before `bound`.
pub open spec fn first_at(shape: Seq<Option<Distance>>, bound: Distance, i: int) -> int
    decreases shape.len() - i,
{
    if i >= shape.len() || !before(shape[i], bound) {
        i
    } else {
        first_at(shape, bound, i + 1)
    }
}

/// The points of a shape between two distances.
pub open spec fn clipped(
    shape: Seq<Option<Distance>>,
    departure: Distance,
    arrival: Distance,
) -> (int, int) {
    let begin = first_at(shape, departure, 0);
    (begin, first_at(shape, arrival, begin))
}

/// The points of its route's shape that a ride from one stop to another covers, if the route has
/// a shape and calls at both stops.
pub open spec fn ride_clip(
    tt: &MmapTimetable,
    r: int,
    from: usize,
    to: usize,
    shape: Option<Seq<Option<Distance>>>,
) -> Option<(int, int)> {
    let a = first_call(tt, r, from, 0);
    let b = first_call(tt, r, to, 0);
    if shape is Some && a < tt.n_stops(r) && b < tt.n_stops(r) {
        Some(
            clipped(
                shape->0,
                tt.stop_at(r, a).distance_along_route,
                tt.stop_at(r, b).distance_along_route,
            ),
        )
    } else {
        None
    }
}

/// A point of a shape that is known to lie at `bound` or beyond it.
pub open spec fn lies_at(point: Option<Distance>, bound: Distance) -> bool {
    point is Some && point->0.rank is Some && !(bound.rank is Some && point->0.rank->0
        < bound.rank->0)
}

/// From point `a` up to point `b` the shape runs between the two distances: `a` is the first point
/// known to lie at the first or beyond, and `b`, from there on, the first at the second or beyond.
pub open spec fn runs_between(
    shape: Seq<Option<Distance>>,
    departure: Distance,
    arrival: Distance,
    a: int,
    b: int,
) -> bool {
    &&& 0 <= a <= b <= shape.len()
    &&& forall|i: int| 0 <= i < a ==> !lies_at(#[trigger] shape[i], departure)
    &&& a < shape.len() ==> lies_at(shape[a], departure)
    &&& forall|i: int| a <= i < b ==> !lies_at(#[trigger] shape[i], arrival)
    &&& b < shape.len() ==> lies_at(shape[b], arrival)
}

proof fn lemma_first_at(shape: Seq<Option<Distance>>, bound: Distance, i: int)
    requires
        0 <= i <= shape.len(),
    ensures
        i <= first_at(shape, bound, i) <= shape.len(),
        forall|k: int| i <= k < first_at(shape, bound, i) ==> !lies_at(#[trigger] shape[k], bound),
        first_at(shape, bound, i) < shape.len() ==> lies_at(
            shape[first_at(shape, bound, i)],
            bound,
        ),
    decreases shape.len() - i,
{
    if i < shape.len() && before(shape[i], bound) {
        lemma_first_at(shape, bound, i + 1);
    }
}

/// Position `q` is the first at which route `r` calls at `stop`.
pub open spec fn calls_first(tt: &MmapTimetable, r: int, stop: usize, q: int) -> bool {
    &&& 0 <= q < tt.n_stops(r)
    &&& tt.stop_at(r, q).stop_index == stop
    &&& forall|p: int| 0 <= p < q ==> (#[trigger] tt.stop_at(r, p)).stop_index != stop
}

proof fn lemma_calls_first(tt: &MmapTimetable, r: int, stop: usize, q: int)
    requires
        0 <= q,
        forall|p: int| 0 <= p < q ==> (#[trigger] tt.stop_at(r, p)).stop_index != stop,
    ensures
        first_call(tt, r, stop, q) < tt.n_stops(r) ==> calls_first(
            tt,
            r,
            stop,
            first_call(tt, r, stop, q),
        ),
        first_call(tt, r, stop, q) >= tt.n_stops(r) ==> forall|p: int|
            0 <= p < tt.n_stops(r) ==> (#[trigger] tt.stop_at(r, p)).stop_index != stop,
    decreases tt.n_stops(r) - q,
{
    if q < tt.n_stops(r) && tt.stop_at(r, q).stop_index != stop {
        lemma_calls_first(tt, r, stop, q + 1);
    }
}

/// `clip` is the part of a route's shape between where it first calls at the one stop and where it
/// first calls at the other; there is one exactly if there is a shape and it calls at both.
pub open spec fn clips_between(
    tt: &MmapTimetable,
    r: int,
    from: usize,
    to: usize,
    shape: Option<Seq<Option<Distance>>>,
    clip: Option<(usize, usize)>,
) -> bool {
    &&& clip is Some <==> shape is Some && (exists|q: int| #[trigger]
        calls_first(tt, r, from, q)) && (exists|q: int| #[trigger] calls_first(tt, r, to, q))
    &&& clip matches Some((a, b)) ==> forall|p: int, q: int| #[trigger]
        calls_first(tt, r, from, p) && #[trigger] calls_first(tt, r, to, q) ==> runs_between(
            shape->0,
            tt.stop_at(r, p).distance_along_route,
            tt.stop_at(r, q).distance_along_route,
            a as int,
            b as int,
        )
}

/// What a ride covers of its route's shape runs between the two stops.
pub proof fn lemma_clips_between(
    tt: &MmapTimetable,
    r: int,
    from: usize,
    to: usize,
    shape: Option<Seq<Option<Distance>>>,
    clip: Option<(usize, usize)>,
)
    requires
        same_clip(clip, ride_clip(tt, r, from, to, shape)),
    ensures
        clips_between(tt, r, from, to, shape, clip),
{
    lemma_calls_first(tt, r, from, 0);
    lemma_calls_first(tt, r, to, 0);
    let a = first_call(tt, r, from, 0);
    let b = first_call(tt, r, to, 0);
    if clip is Some {
        assert(calls_first(tt, r, from, a));
        assert(calls_first(tt, r, to, b));
        let departure = tt.stop_at(r, a).distance_along_route;
        let arrival = tt.stop_at(r, b).distance_along_route;
        lemma_first_at(shape->0, departure, 0);
        lemma_first_at(shape->0, arrival, first_at(shape->0, departure, 0));
        assert forall|p: int, q: int| #[trigger]
            calls_first(tt, r, from, p) && #[trigger] calls_first(tt, r, to, q) implies p == a
            && q == b by {}
    }
}

pub open spec fn shape_view(shape: Option<&Vec<Option<Distance>>>) -> Option<
    Seq<Option<Distance>>,
> {
    match shape {
        Some(shape) => Some(shape@),
        None => None,
    }
}

/// What a step covers of its route's shape: nothing, unless it is a ride between stops.
pub open spec fn step_clip(
    tt: &MmapTimetable,
    step: InternalStep,
    shape: Option<Seq<Option<Distance>>>,
) -> Option<(int, int)> {
    match (step.route, step.from, step.to) {
        (
            Some(route),
            InternalStepLocation::Stop(from),
            InternalStepLocation::Stop(to),
        ) => ride_clip(tt, route.route_index as int, from, to, shape),
        _ => None,
    }
}

/// The same points, in machine integers.
pub open spec fn same_clip(clip: Option<(usize, usize)>, covered: Option<(int, int)>) -> bool {
    match (clip, covered) {
        (Some((a, b)), Some((c, d))) => a == c && b == d,
        (None, None) => true,
        _ => false,
    }
}

fn find_first_at(shape: &Vec<Option<Distance>>, bound: &Distance, from: usize) -> (i: usize)
    requires
        from <= shape@.len(),
    ensures
        i == first_at(shape@, *bound, from as int),
        from <= i <= shape@.len(),
{
    let mut i: usize = from;
    while i < shape.len()
        invariant
            from <= i <= shape@.len(),
            first_at(shape@, *bound, from as int) == first_at(shape@, *bound, i as int),
        decreases shape@.len() - i,
    {
        let skipped: bool = match shape[i] {
            None => true,
            Some(d) => d.rank.is_none() || d.is_below(bound),
        };
        if !skipped {
            return i;
        }
        i = i + 1;
    }
    i
}

/// How far along its route a stop lies, where the route calls there first.
fn distance_of_stop(tt: &MmapTimetable, r: usize, stop: usize) -> (d: Option<Distance>)
    requires
        tt.core_wf(),
        r < tt.routes@.len(),
    ensures
        d is Some <==> first_call(tt, r as int, stop, 0) < tt.n_stops(r as int),
        d matches Some(d) ==> d == tt.stop_at(
            r as int,
            first_call(tt, r as int, stop, 0),
        ).distance_along_route,
{
    assert(tt.route_ok(r as int));
    let stops: &[RouteStop] = tt.stops_of_route(r);
    let mut q: usize = 0;
    while q < stops.len()
        invariant
            tt.core_wf(),
            tt.route_ok(r as int),
            stops@ == tt.stops_of(r as int),
            stops@.len() == tt.n_stops(r as int),
            q <= stops@.len(),
            first_call(tt, r as int, stop, 0) == first_call(tt, r as int, stop, q as int),
        decreases stops@.len() - q,
    {
        assert(stops@[q as int] == tt.stop_at(r as int, q as int));
        if stops[q].id() == stop {
            return Some(stops[q].distance_along_route);
        }
        q = q + 1;
    }
    None
}

fn clip_ride(
    tt: &MmapTimetable,
    r: usize,
    from: usize,
    to: usize,
    shape: Option<&Vec<Option<Distance>>>,
) -> (clip: Option<(usize, usize)>)
    requires
        tt.core_wf(),
        r < tt.routes@.len(),
    ensures
        same_clip(clip, ride_clip(tt, r as int, from, to, shape_view(shape))),
        clip matches Some((a, b)) ==> shape is Some && a <= b <= shape->0@.len(),
        clips_between(tt, r as int, from, to, shape_view(shape), clip),
{
    let clip: Option<(usize, usize)> = match shape {
        None => None,
        Some(shape) => match (distance_of_stop(tt, r, from), distance_of_stop(tt, r, to)) {
            (Some(departure), Some(arrival)) => {
                let begin: usize = find_first_at(shape, &departure, 0);
                let end: usize = find_first_at(shape, &arrival, begin);
                Some((begin, end))
            },
            _ => None,
        },
    };
    proof {
        lemma_clips_between(tt, r as int, from, to, shape_view(shape), clip);
    }
    clip
}

/// The points of its route's shape that a step covers.
pub fn clip_shape(
    tt: &MmapTimetable,
    step: &InternalStep,
    shape: Option<&Vec<Option<Distance>>>,
) -> (clip: Option<(usize, usize)>)
    requires
        tt.core_wf(),
        step.route matches Some(route) ==> route.route_index < tt.routes@.len(),
    ensures
        same_clip(clip, step_clip(tt, *step, shape_view(shape))),
        match (step.route, step.from, step.to) {
            (
                Some(route),
                InternalStepLocation::Stop(from),
                InternalStepLocation::Stop(to),
            ) => clips_between(
                tt,
                route.route_index as int,
                from,
                to,
                shape_view(shape),
                clip,
            ),
            _ => clip is None,
        },
        clip matches Some((a, b)) ==> shape is Some && a <= b <= shape->0@.len(),
{
    match (step.route, step.from, step.to) {
        (
            Some(route),
            InternalStepLocation::Stop(from),
            InternalStepLocation::Stop(to),
        ) => clip_ride(tt, route.id(), from, to, shape),
        _ => None,
    }
}

/// The points of its route's shape that a step of a search from a deadline back covers: it leads
/// from where one alights to where one boards.
pub fn clip_shape_backward(
    tt: &MmapTimetable,
    step: &InternalStep,
    shape: Option<&Vec<Option<Distance>>>,
) -> (clip: Option<(usize, usize)>)
    requires
        tt.core_wf(),
        step.route matches Some(route) ==> route.route_index < tt.routes@.len(),
    ensures
        same_clip(
            clip,
            step_clip(
                tt,
                (InternalStep { from: step.to, to: step.from, ..*step }),
                shape_view(shape),
            ),
        ),
        match (step.route, step.to, step.from) {
            (
                Some(route),
                InternalStepLocation::Stop(from),
                InternalStepLocation::Stop(to),
            ) => clips_between(
                tt,
                route.route_index as int,
                from,
                to,
                shape_view(shape),
                clip,
            ),
            _ => clip is None,
        },
        clip matches Some((a, b)) ==> shape is Some && a <= b <= shape->0@.len(),
{
    let flipped: InternalStep = InternalStep {
        previous_step: step.previous_step,
        round: step.round,
        from: step.to,
        to: step.from,
        route: step.route,
        departure: step.departure,
        arrival: step.arrival,
        trip: step.trip,
    };
    clip_shape(tt, &flipped, shape)
}

impl SolariLeg {
    /// The points of its route's shape that a leg covers: none, if it is a walk.
    pub fn clip(&self, tt: &MmapTimetable, shape: Option<&Vec<Option<Distance>>>) -> (clip: Option<
        (usize, usize),
    >)
        requires
            tt.core_wf(),
            self matches SolariLeg::Transit { route, .. } ==> route.route_index < tt.routes@.len(),
        ensures
            same_clip(
                clip,
                match self {
                    SolariLeg::Transit { start_stop, end_stop, route, .. } => ride_clip(
                        tt,
                        route.route_index as int,
                        *start_stop,
                        *end_stop,
                        shape_view(shape),
                    ),
                    SolariLeg::Transfer { .. } => None,
                },
            ),
            match self {
                SolariLeg::Transit { start_stop, end_stop, route, .. } => clips_between(
                    tt,
                    route.route_index as int,
                    *start_stop,
                    *end_stop,
                    shape_view(shape),
                    clip,
                ),
                SolariLeg::Transfer { .. } => clip is None,
            },
            clip matches Some((a, b)) ==> shape is Some && a <= b <= shape->0@.len(),
    {
        match self {
            SolariLeg::Transit { start_stop, end_stop, route, .. } => clip_ride(
                tt,
                route.id(),
                *start_stop,
                *end_stop,
                shape,
            ),
            SolariLeg::Transfer { .. } => None,
        }
    }
}

/// The points of a shape of `len` points to show between the segments that two stops are closest
/// to, where no point lies between the stops' distances: those after the first segment's start,
/// up to the second's.
pub fn between_segments(len: usize, start: usize, end: usize) -> (clip: (usize, usize))
    requires
        start <= end,
        end < usize::MAX,
    ensures
        clip.0 == (if start + 1 < len {
            start + 1
        } else {
            len as int
        }),
        clip.1 == (if end + 1 < len {
            end + 1
        } else {
            len as int
        }),
        clip.0 <= clip.1 <= len,
{
    let first: usize = if start + 1 < len {
        start + 1
    } else {
        len
    };
    let last: usize = if end + 1 < len {
        end + 1
    } else {
        len
    };
    (first, last)
}

impl InternalStepLocation {
    /// Where this is, given the position of every stop.
    pub fn latlng(&self, stop_locations: &[LatLng]) -> (position: LatLng)
        requires
            self matches InternalStepLocation::Stop(stop) ==> stop < stop_locations@.len(),
        ensures
            position == match self {
                InternalStepLocation::Stop(stop) => stop_locations@[*stop as int],
                InternalStepLocation::Location(latlng) => *latlng,
            },
    {
        match self {
            InternalStepLocation::Stop(stop) => stop_locations[*stop],
            InternalStepLocation::Location(latlng) => *latlng,
        }
    }
}

} // verus!
