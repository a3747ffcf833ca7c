//! Joining several timetables into one.

use crate::route::journeys::{forward_in_time, trip_runs};
use crate::timetable::{
    MmapTimetable, Route, RouteStop, Stop, StopRoute, Trip, TripStopTime,
};
use vstd::prelude::*;

verus! {

/// Where the next timetable's entries go: the lengths of the arrays so far.
pub struct Cursor {
    pub routes: int,
    pub route_stops: int,
    pub route_trips: int,
    pub stops: int,
    pub stop_routes: int,
    pub trip_stop_times: int,
}

/// Behind the entries of `tt`.
pub open spec fn cursor(tt: &MmapTimetable) -> Cursor {
    Cursor {
        routes: tt.routes@.len() as int,
        route_stops: tt.route_stops@.len() as int,
        route_trips: tt.route_trips@.len() as int,
        stops: tt.stops@.len() as int,
        stop_routes: tt.stop_routes@.len() as int,
        trip_stop_times: tt.trip_stop_times@.len() as int,
    }
}

/// A route that stands behind what `c` counts.
pub open spec fn shifted_route(c: Cursor, route: Route) -> Route {
    Route {
        route_index: (route.route_index + c.routes) as usize,
        first_route_stop: (route.first_route_stop + c.route_stops) as usize,
        first_route_trip: (route.first_route_trip + c.route_trips) as usize,
    }
}

/// A stop of a route that stands behind what `c` counts.
pub open spec fn shifted_route_stop(c: Cursor, route_stop: RouteStop) -> RouteStop {
    RouteStop {
        route_index: (route_stop.route_index + c.routes) as usize,
        stop_index: (route_stop.stop_index + c.stops) as usize,
        ..route_stop
    }
}

/// A trip that stands behind what `c` counts.
pub open spec fn shifted_trip(c: Cursor, trip: Trip) -> Trip {
    Trip {
        trip_index: (trip.trip_index + c.route_trips) as usize,
        route_index: (trip.route_index + c.routes) as usize,
        first_trip_stop_time: (trip.first_trip_stop_time + c.trip_stop_times) as usize,
        last_trip_stop_time: (trip.last_trip_stop_time + c.trip_stop_times) as usize,
    }
}

/// A stop that stands behind what `c` counts.
pub open spec fn shifted_stop(c: Cursor, stop: Stop) -> Stop {
    Stop {
        stop_index: (stop.stop_index + c.stops) as usize,
        first_stop_route_index: (stop.first_stop_route_index + c.stop_routes) as usize,
        ..stop
    }
}

/// A call at a stop that stands behind what `c` counts.
pub open spec fn shifted_stop_route(c: Cursor, stop_route: StopRoute) -> StopRoute {
    StopRoute { route_index: (stop_route.route_index + c.routes) as usize, ..stop_route }
}

/// A time that stands behind what `c` counts.
pub open spec fn shifted_time(c: Cursor, time: TripStopTime) -> TripStopTime {
    TripStopTime { trip_index: (time.trip_index + c.route_trips) as usize, ..time }
}

/// `c` is `a` followed by `b`, whose entries refer to where they stand now.
pub open spec fn joins(a: &MmapTimetable, b: &MmapTimetable, c: &MmapTimetable) -> bool {
    let at = cursor(a);
    &&& c.routes@ == a.routes@ + b.routes@.map_values(|x: Route| shifted_route(at, x))
    &&& c.route_stops@ == a.route_stops@ + b.route_stops@.map_values(
        |x: RouteStop| shifted_route_stop(at, x),
    )
    &&& c.route_trips@ == a.route_trips@ + b.route_trips@.map_values(
        |x: Trip| shifted_trip(at, x),
    )
    &&& c.stops@ == a.stops@ + b.stops@.map_values(|x: Stop| shifted_stop(at, x))
    &&& c.stop_routes@ == a.stop_routes@ + b.stop_routes@.map_values(
        |x: StopRoute| shifted_stop_route(at, x),
    )
    &&& c.trip_stop_times@ == a.trip_stop_times@ + b.trip_stop_times@.map_values(
        |x: TripStopTime| shifted_time(at, x),
    )
}

/// The start of every array.
pub open spec fn origin() -> Cursor {
    Cursor {
        routes: 0,
        route_stops: 0,
        route_trips: 0,
        stops: 0,
        stop_routes: 0,
        trip_stop_times: 0,
    }
}

/// `a` and `b` together.
pub open spec fn plus(a: Cursor, b: Cursor) -> Cursor {
    Cursor {
        routes: a.routes + b.routes,
        route_stops: a.route_stops + b.route_stops,
        route_trips: a.route_trips + b.route_trips,
        stops: a.stops + b.stops,
        stop_routes: a.stop_routes + b.stop_routes,
        trip_stop_times: a.trip_stop_times + b.trip_stop_times,
    }
}

/// How many entries the first `k` timetables have together.
pub open spec fn total(tts: Seq<MmapTimetable>, k: int) -> Cursor
    decreases k,
{
    if k <= 0 {
        origin()
    } else {
        plus(total(tts, k - 1), cursor(&tts[k - 1]))
    }
}

/// The entries up to `c` can be counted.
pub open spec fn countable(c: Cursor) -> bool {
    &&& c.routes <= usize::MAX
    &&& c.route_stops <= usize::MAX
    &&& c.route_trips <= usize::MAX
    &&& c.stops <= usize::MAX
    &&& c.stop_routes <= usize::MAX
    &&& c.trip_stop_times <= usize::MAX
}

/// The entries of `tt` stand in `c` from `at` on, and refer to where they stand there.
pub open spec fn placed(c: &MmapTimetable, tt: &MmapTimetable, at: Cursor) -> bool {
    &&& forall|i: int|
        at.routes <= i < at.routes + tt.routes@.len() ==> #[trigger] c.routes@[i] == shifted_route(
            at,
            tt.routes@[i - at.routes],
        )
    &&& forall|i: int|
        at.route_stops <= i < at.route_stops + tt.route_stops@.len()
            ==> #[trigger] c.route_stops@[i] == shifted_route_stop(
            at,
            tt.route_stops@[i - at.route_stops],
        )
    &&& forall|i: int|
        at.route_trips <= i < at.route_trips + tt.route_trips@.len()
            ==> #[trigger] c.route_trips@[i] == shifted_trip(
            at,
            tt.route_trips@[i - at.route_trips],
        )
    &&& forall|i: int|
        at.stops <= i < at.stops + tt.stops@.len() ==> #[trigger] c.stops@[i] == shifted_stop(
            at,
            tt.stops@[i - at.stops],
        )
    &&& forall|i: int|
        at.stop_routes <= i < at.stop_routes + tt.stop_routes@.len()
            ==> #[trigger] c.stop_routes@[i] == shifted_stop_route(
            at,
            tt.stop_routes@[i - at.stop_routes],
        )
    &&& forall|i: int|
        at.trip_stop_times <= i < at.trip_stop_times + tt.trip_stop_times@.len()
            ==> #[trigger] c.trip_stop_times@[i] == shifted_time(
            at,
            tt.trip_stop_times@[i - at.trip_stop_times],
        )
}

/// Route `r` of `tt` is a route of `c`, with as many stops and trips.
pub open spec fn keeps_route(c: &MmapTimetable, tt: &MmapTimetable, at: Cursor, r: int) -> bool {
    &&& c.n_stops(at.routes + r) == tt.n_stops(r)
    &&& c.n_trips(at.routes + r) == tt.n_trips(r)
}

/// Position `q` of route `r` is the same stop as before.
pub open spec fn keeps_route_stop(
    c: &MmapTimetable,
    tt: &MmapTimetable,
    at: Cursor,
    r: int,
    q: int,
) -> bool {
    c.stop_at(at.routes + r, q) == shifted_route_stop(at, tt.stop_at(r, q))
}

/// Trip `i` of route `r` is the same trip as before.
pub open spec fn keeps_trip(
    c: &MmapTimetable,
    tt: &MmapTimetable,
    at: Cursor,
    r: int,
    i: int,
) -> bool {
    c.trip_at(at.routes + r, i) == shifted_trip(at, tt.trip_at(r, i))
}

/// Trip `i` of route `r` calls at position `q` when it did before.
pub open spec fn keeps_time(
    c: &MmapTimetable,
    tt: &MmapTimetable,
    at: Cursor,
    r: int,
    i: int,
    q: int,
) -> bool {
    c.time_at(at.routes + r, i, q) == shifted_time(at, tt.time_at(r, i, q))
}

/// As many routes call at stop `s` as before.
pub open spec fn keeps_stop(c: &MmapTimetable, tt: &MmapTimetable, at: Cursor, s: int) -> bool {
    c.n_stop_routes(at.stops + s) == tt.n_stop_routes(s)
}

/// Call `j` of a route at stop `s` is the same as before.
pub open spec fn keeps_stop_route(
    c: &MmapTimetable,
    tt: &MmapTimetable,
    at: Cursor,
    s: int,
    j: int,
) -> bool {
    c.stop_route_at(at.stops + s, j) == shifted_stop_route(at, tt.stop_route_at(s, j))
}

/// `c` holds the routes, trips and stops of `tt`, from `at` on.
pub open spec fn keeps(c: &MmapTimetable, tt: &MmapTimetable, at: Cursor) -> bool {
    &&& at.routes + tt.routes@.len() <= c.routes@.len()
    &&& at.stops + tt.stops@.len() <= c.stops@.len()
    &&& forall|r: int| 0 <= r < tt.routes@.len() ==> #[trigger] keeps_route(c, tt, at, r)
    &&& forall|r: int, q: int|
        0 <= r < tt.routes@.len() && 0 <= q < tt.n_stops(r) ==> #[trigger] keeps_route_stop(
            c,
            tt,
            at,
            r,
            q,
        )
    &&& forall|r: int, i: int|
        0 <= r < tt.routes@.len() && 0 <= i < tt.n_trips(r) ==> #[trigger] keeps_trip(
            c,
            tt,
            at,
            r,
            i,
        )
    &&& forall|r: int, i: int, q: int|
        0 <= r < tt.routes@.len() && 0 <= i < tt.n_trips(r) && 0 <= q < tt.n_stops(r)
            ==> #[trigger] keeps_time(c, tt, at, r, i, q)
    &&& forall|s: int| 0 <= s < tt.stops@.len() ==> #[trigger] keeps_stop(c, tt, at, s)
    &&& forall|s: int, j: int|
        0 <= s < tt.stops@.len() && 0 <= j < tt.n_stop_routes(s) ==> #[trigger] keeps_stop_route(
            c,
            tt,
            at,
            s,
            j,
        )
}

/// Everything that `tt` tells is told in `all` from `at` on, with the numbers of its stops, routes
/// and trips moved up: when its trips arrive and leave, which stops its routes call at and how far
/// along they lie, where its stops are, and which routes call there.
pub open spec fn told_alike(all: &MmapTimetable, tt: &MmapTimetable, at: Cursor) -> bool {
    &&& forall|r: int, i: int, q: int|
        0 <= r < tt.routes@.len() && 0 <= i < tt.n_trips(r) && 0 <= q < tt.n_stops(r) ==> {
            let there = all.time_at(at.routes + r, i, q);
            &&& there.arrival_time == (#[trigger] tt.time_at(r, i, q)).arrival_time
            &&& there.departure_time == tt.time_at(r, i, q).departure_time
            &&& there.trip_index == tt.time_at(r, i, q).trip_index + at.route_trips
            &&& there.route_stop_seq == tt.time_at(r, i, q).route_stop_seq
        }
    &&& forall|r: int, q: int|
        0 <= r < tt.routes@.len() && 0 <= q < tt.n_stops(r) ==> {
            let there = all.stop_at(at.routes + r, q);
            &&& there.stop_index == (#[trigger] tt.stop_at(r, q)).stop_index + at.stops
            &&& there.route_index == tt.stop_at(r, q).route_index + at.routes
            &&& there.stop_seq == tt.stop_at(r, q).stop_seq
            &&& there.distance_along_route == tt.stop_at(r, q).distance_along_route
        }
    &&& forall|s: int|
        0 <= s < tt.stops@.len() ==> {
            let there = all.stops@[at.stops + s];
            &&& there.s2cell == (#[trigger] tt.stops@[s]).s2cell
            &&& there.stop_index == tt.stops@[s].stop_index + at.stops
        }
    &&& forall|s: int, j: int|
        0 <= s < tt.stops@.len() && 0 <= j < tt.n_stop_routes(s) ==> {
            let there = all.stop_route_at(at.stops + s, j);
            &&& there.route_index == (#[trigger] tt.stop_route_at(s, j)).route_index + at.routes
            &&& there.stop_seq == tt.stop_route_at(s, j).stop_seq
        }
    &&& forall|r: int, i: int|
        0 <= r < tt.routes@.len() && 0 <= i < tt.n_trips(r) ==> {
            let there = all.trip_at(at.routes + r, i);
            &&& there.trip_index == (#[trigger] tt.trip_at(r, i)).trip_index + at.route_trips
            &&& there.route_index == tt.trip_at(r, i).route_index + at.routes
        }
}

/// What a joined timetable keeps of another, it tells alike.
pub proof fn lemma_told_alike(all: &MmapTimetable, tt: &MmapTimetable, at: Cursor)
    requires
        tt.core_wf(),
        no_further(origin(), at),
        countable(plus(at, cursor(tt))),
        keeps(all, tt, at),
        placed(all, tt, at),
    ensures
        told_alike(all, tt, at),
{
    assert forall|r: int, i: int, q: int|
        0 <= r < tt.routes@.len() && 0 <= i < tt.n_trips(r) && 0 <= q < tt.n_stops(r) implies {
        let there = all.time_at(at.routes + r, i, q);
        &&& there.arrival_time == (#[trigger] tt.time_at(r, i, q)).arrival_time
        &&& there.departure_time == tt.time_at(r, i, q).departure_time
        &&& there.trip_index == tt.time_at(r, i, q).trip_index + at.route_trips
        &&& there.route_stop_seq == tt.time_at(r, i, q).route_stop_seq
    } by {
        assert(keeps_time(all, tt, at, r, i, q));
        assert(tt.time_ok(r, i, q));
        assert(tt.route_ok(r));
    }
    assert forall|r: int, q: int| 0 <= r < tt.routes@.len() && 0 <= q < tt.n_stops(r) implies {
        let there = all.stop_at(at.routes + r, q);
        &&& there.stop_index == (#[trigger] tt.stop_at(r, q)).stop_index + at.stops
        &&& there.route_index == tt.stop_at(r, q).route_index + at.routes
        &&& there.stop_seq == tt.stop_at(r, q).stop_seq
        &&& there.distance_along_route == tt.stop_at(r, q).distance_along_route
    } by {
        assert(keeps_route_stop(all, tt, at, r, q));
        assert(tt.route_stop_ok(r, q));
    }
    assert forall|s: int| 0 <= s < tt.stops@.len() implies {
        let there = all.stops@[at.stops + s];
        &&& there.s2cell == (#[trigger] tt.stops@[s]).s2cell
        &&& there.stop_index == tt.stops@[s].stop_index + at.stops
    } by {
        assert(tt.stop_ok(s));
        assert(all.stops@[at.stops + s] == shifted_stop(at, tt.stops@[s]));
    }
    assert forall|s: int, j: int|
        0 <= s < tt.stops@.len() && 0 <= j < tt.n_stop_routes(s) implies {
        let there = all.stop_route_at(at.stops + s, j);
        &&& there.route_index == (#[trigger] tt.stop_route_at(s, j)).route_index + at.routes
        &&& there.stop_seq == tt.stop_route_at(s, j).stop_seq
    } by {
        assert(keeps_stop_route(all, tt, at, s, j));
        assert(tt.stop_route_ok(s, j));
    }
    assert forall|r: int, i: int| 0 <= r < tt.routes@.len() && 0 <= i < tt.n_trips(r) implies {
        let there = all.trip_at(at.routes + r, i);
        &&& there.trip_index == (#[trigger] tt.trip_at(r, i)).trip_index + at.route_trips
        &&& there.route_index == tt.trip_at(r, i).route_index + at.routes
    } by {
        assert(keeps_trip(all, tt, at, r, i));
        assert(tt.trip_ok(r, i));
        assert(tt.route_ok(r));
    }
}

/// Two timetables joined keep what both held.
proof fn lemma_joins_keeps(a: &MmapTimetable, b: &MmapTimetable, c: &MmapTimetable)
    requires
        a.core_wf(),
        b.core_wf(),
        joins(a, b, c),
        countable(cursor(c)),
    ensures
        keeps(c, a, origin()),
        keeps(c, b, cursor(a)),
        placed(c, a, origin()),
        placed(c, b, cursor(a)),
{
    let at = cursor(a);
    assert forall|r: int| 0 <= r < a.routes@.len() implies #[trigger] keeps_route(
        c,
        a,
        origin(),
        r,
    ) by {
        assert(a.route_ok(r));
        if r + 1 < a.routes@.len() {
            assert(c.routes@[r + 1] == a.routes@[r + 1]);
        } else if b.routes@.len() > 0 {
            assert(c.routes@[r + 1] == shifted_route(at, b.routes@[0]));
        }
    }
    assert forall|r: int| 0 <= r < b.routes@.len() implies #[trigger] keeps_route(c, b, at, r) by {
        assert(b.route_ok(r));
        assert(c.routes@[at.routes + r] == shifted_route(at, b.routes@[r]));
        if r + 1 < b.routes@.len() {
            assert(b.route_ok(r + 1));
            assert(c.routes@[at.routes + r + 1] == shifted_route(at, b.routes@[r + 1]));
        }
    }
    assert forall|r: int, q: int| 0 <= r < a.routes@.len() && 0 <= q < a.n_stops(r) implies
        #[trigger] keeps_route_stop(c, a, origin(), r, q) by {
        assert(a.route_ok(r));
    }
    assert forall|r: int, q: int| 0 <= r < b.routes@.len() && 0 <= q < b.n_stops(r) implies
        #[trigger] keeps_route_stop(c, b, at, r, q) by {
        assert(b.route_ok(r));
        assert(c.routes@[at.routes + r] == shifted_route(at, b.routes@[r]));
    }
    assert forall|r: int, i: int| 0 <= r < a.routes@.len() && 0 <= i < a.n_trips(r) implies
        #[trigger] keeps_trip(c, a, origin(), r, i) by {
        assert(a.route_ok(r));
    }
    assert forall|r: int, i: int| 0 <= r < b.routes@.len() && 0 <= i < b.n_trips(r) implies
        #[trigger] keeps_trip(c, b, at, r, i) by {
        assert(b.route_ok(r));
        assert(c.routes@[at.routes + r] == shifted_route(at, b.routes@[r]));
    }
    assert forall|r: int, i: int, q: int|
        0 <= r < a.routes@.len() && 0 <= i < a.n_trips(r) && 0 <= q < a.n_stops(r) implies
        #[trigger] keeps_time(c, a, origin(), r, i, q) by {
        assert(a.trip_ok(r, i));
        assert(keeps_trip(c, a, origin(), r, i));
    }
    assert forall|r: int, i: int, q: int|
        0 <= r < b.routes@.len() && 0 <= i < b.n_trips(r) && 0 <= q < b.n_stops(r) implies
        #[trigger] keeps_time(c, b, at, r, i, q) by {
        assert(b.route_ok(r));
        assert(b.trip_ok(r, i));
        assert(keeps_trip(c, b, at, r, i));
    }
    assert forall|s: int| 0 <= s < a.stops@.len() implies #[trigger] keeps_stop(
        c,
        a,
        origin(),
        s,
    ) by {
        assert(a.stop_ok(s));
        if s + 1 < a.stops@.len() {
            assert(c.stops@[s + 1] == a.stops@[s + 1]);
        } else if b.stops@.len() > 0 {
            assert(c.stops@[s + 1] == shifted_stop(at, b.stops@[0]));
        }
    }
    assert forall|s: int| 0 <= s < b.stops@.len() implies #[trigger] keeps_stop(c, b, at, s) by {
        assert(b.stop_ok(s));
        assert(c.stops@[at.stops + s] == shifted_stop(at, b.stops@[s]));
        if s + 1 < b.stops@.len() {
            assert(b.stop_ok(s + 1));
            assert(c.stops@[at.stops + s + 1] == shifted_stop(at, b.stops@[s + 1]));
        }
    }
    assert forall|s: int, j: int| 0 <= s < a.stops@.len() && 0 <= j < a.n_stop_routes(s) implies
        #[trigger] keeps_stop_route(c, a, origin(), s, j) by {
        assert(a.stop_ok(s));
    }
    assert forall|s: int, j: int| 0 <= s < b.stops@.len() && 0 <= j < b.n_stop_routes(s) implies
        #[trigger] keeps_stop_route(c, b, at, s, j) by {
        assert(b.stop_ok(s));
        assert(c.stops@[at.stops + s] == shifted_stop(at, b.stops@[s]));
    }
}

/// Joining two timetables gives a timetable.
proof fn lemma_joins_wf(a: &MmapTimetable, b: &MmapTimetable, c: &MmapTimetable)
    requires
        a.core_wf(),
        b.core_wf(),
        joins(a, b, c),
        countable(cursor(c)),
    ensures
        c.core_wf(),
{
    let at = cursor(a);
    let nr = a.routes@.len() as int;
    let ns = a.stops@.len() as int;
    lemma_joins_keeps(a, b, c);
    assert(c.indices_fit());
    assert(c.covered());
    assert forall|r: int| 0 <= r < c.routes@.len() implies #[trigger] c.route_ok(r) by {
        if r < nr {
            assert(a.route_ok(r));
            assert(keeps_route(c, a, origin(), r));
        } else {
            assert(b.route_ok(r - nr));
            assert(keeps_route(c, b, at, r - nr));
            assert(c.routes@[r] == shifted_route(at, b.routes@[r - nr]));
        }
    }
    assert forall|r: int, q: int| 0 <= r < c.routes@.len() && 0 <= q < c.n_stops(r) implies
        #[trigger] c.route_stop_ok(r, q) by {
        if r < nr {
            assert(a.route_stop_ok(r, q) && keeps_route(c, a, origin(), r));
            assert(keeps_route_stop(c, a, origin(), r, q));
        } else {
            assert(b.route_stop_ok(r - nr, q) && keeps_route(c, b, at, r - nr));
            assert(keeps_route_stop(c, b, at, r - nr, q));
        }
    }
    assert forall|r: int, i: int| 0 <= r < c.routes@.len() && 0 <= i < c.n_trips(r) implies
        #[trigger] c.trip_ok(r, i) by {
        if r < nr {
            assert(keeps_route(c, a, origin(), r));
            assert(a.trip_ok(r, i));
            assert(keeps_trip(c, a, origin(), r, i));
        } else {
            assert(keeps_route(c, b, at, r - nr));
            assert(b.trip_ok(r - nr, i));
            assert(b.route_ok(r - nr));
            assert(keeps_trip(c, b, at, r - nr, i));
            assert(c.routes@[r] == shifted_route(at, b.routes@[r - nr]));
        }
    }
    assert forall|r: int, i: int, q: int|
        0 <= r < c.routes@.len() && 0 <= i < c.n_trips(r) && 0 <= q < c.n_stops(r) implies
        #[trigger] c.time_ok(r, i, q) by {
        if r < nr {
            assert(keeps_route(c, a, origin(), r));
            assert(a.time_ok(r, i, q));
            assert(keeps_time(c, a, origin(), r, i, q));
        } else {
            assert(keeps_route(c, b, at, r - nr));
            assert(b.route_ok(r - nr));
            assert(b.time_ok(r - nr, i, q));
            assert(keeps_time(c, b, at, r - nr, i, q));
            assert(c.routes@[r] == shifted_route(at, b.routes@[r - nr]));
        }
    }
    assert forall|s: int| 0 <= s < c.stops@.len() implies #[trigger] c.stop_ok(s) by {
        if s < ns {
            assert(a.stop_ok(s));
            assert(keeps_stop(c, a, origin(), s));
        } else {
            assert(b.stop_ok(s - ns));
            assert(keeps_stop(c, b, at, s - ns));
            assert(c.stops@[s] == shifted_stop(at, b.stops@[s - ns]));
        }
    }
    assert forall|s: int, j: int| 0 <= s < c.stops@.len() && 0 <= j < c.n_stop_routes(s) implies
        #[trigger] c.stop_route_ok(s, j) by {
        if s < ns {
            assert(keeps_stop(c, a, origin(), s));
            assert(a.stop_route_ok(s, j));
            assert(keeps_stop_route(c, a, origin(), s, j));
            let sr = a.stop_route_at(s, j);
            assert(keeps_route(c, a, origin(), sr.route_index as int));
            assert(keeps_route_stop(
                c,
                a,
                origin(),
                sr.route_index as int,
                sr.stop_seq as int,
            ));
        } else {
            assert(keeps_stop(c, b, at, s - ns));
            assert(b.stop_route_ok(s - ns, j));
            assert(keeps_stop_route(c, b, at, s - ns, j));
            let sr = b.stop_route_at(s - ns, j);
            assert(keeps_route(c, b, at, sr.route_index as int));
            assert(keeps_route_stop(c, b, at, sr.route_index as int, sr.stop_seq as int));
        }
    }
}

/// What a timetable keeps of another, it still keeps after a third was joined to it.
proof fn lemma_joins_keeps_more(
    a: &MmapTimetable,
    b: &MmapTimetable,
    c: &MmapTimetable,
    tt: &MmapTimetable,
    at: Cursor,
)
    requires
        a.core_wf(),
        b.core_wf(),
        tt.core_wf(),
        joins(a, b, c),
        countable(cursor(c)),
        keeps(a, tt, at),
        placed(a, tt, at),
        0 <= at.routes,
        0 <= at.route_stops,
        0 <= at.route_trips,
        0 <= at.stops,
        0 <= at.stop_routes,
        0 <= at.trip_stop_times,
        at.route_stops + tt.route_stops@.len() <= a.route_stops@.len(),
        at.route_trips + tt.route_trips@.len() <= a.route_trips@.len(),
        at.stop_routes + tt.stop_routes@.len() <= a.stop_routes@.len(),
        at.trip_stop_times + tt.trip_stop_times@.len() <= a.trip_stop_times@.len(),
    ensures
        keeps(c, tt, at),
        placed(c, tt, at),
{
    lemma_joins_keeps(a, b, c);
    let o = origin();
    assert forall|r: int| 0 <= r < tt.routes@.len() implies #[trigger] keeps_route(
        c,
        tt,
        at,
        r,
    ) by {
        assert(keeps_route(a, tt, at, r));
        assert(keeps_route(c, a, o, at.routes + r));
    }
    assert forall|r: int, q: int| 0 <= r < tt.routes@.len() && 0 <= q < tt.n_stops(r) implies
        #[trigger] keeps_route_stop(c, tt, at, r, q) by {
        assert(keeps_route(a, tt, at, r));
        assert(keeps_route_stop(a, tt, at, r, q));
        assert(keeps_route_stop(c, a, o, at.routes + r, q));
    }
    assert forall|r: int, i: int| 0 <= r < tt.routes@.len() && 0 <= i < tt.n_trips(r) implies
        #[trigger] keeps_trip(c, tt, at, r, i) by {
        assert(keeps_route(a, tt, at, r));
        assert(keeps_trip(a, tt, at, r, i));
        assert(keeps_trip(c, a, o, at.routes + r, i));
    }
    assert forall|r: int, i: int, q: int|
        0 <= r < tt.routes@.len() && 0 <= i < tt.n_trips(r) && 0 <= q < tt.n_stops(r) implies
        #[trigger] keeps_time(c, tt, at, r, i, q) by {
        assert(keeps_route(a, tt, at, r));
        assert(keeps_time(a, tt, at, r, i, q));
        assert(keeps_time(c, a, o, at.routes + r, i, q));
    }
    assert forall|s: int| 0 <= s < tt.stops@.len() implies #[trigger] keeps_stop(
        c,
        tt,
        at,
        s,
    ) by {
        assert(keeps_stop(a, tt, at, s));
        assert(keeps_stop(c, a, o, at.stops + s));
    }
    assert forall|s: int, j: int| 0 <= s < tt.stops@.len() && 0 <= j < tt.n_stop_routes(s) implies
        #[trigger] keeps_stop_route(c, tt, at, s, j) by {
        assert(keeps_stop(a, tt, at, s));
        assert(keeps_stop_route(a, tt, at, s, j));
        assert(keeps_stop_route(c, a, o, at.stops + s, j));
    }
}

/// Joining keeps the order of trips, and that trips run forward in time.
proof fn lemma_joins_order(a: &MmapTimetable, b: &MmapTimetable, c: &MmapTimetable)
    requires
        a.core_wf(),
        b.core_wf(),
        joins(a, b, c),
        countable(cursor(c)),
    ensures
        a.trips_in_order() && b.trips_in_order() ==> c.trips_in_order(),
        forward_in_time(a) && forward_in_time(b) ==> forward_in_time(c),
{
    let at = cursor(a);
    let o = origin();
    let nr = a.routes@.len() as int;
    lemma_joins_keeps(a, b, c);
    if a.trips_in_order() && b.trips_in_order() {
        assert forall|r: int, i: int, k: int, q: int|
            0 <= r < c.routes@.len() && 0 <= i <= k < c.n_trips(r) && 0 <= q < c.n_stops(
                r,
            ) implies #[trigger] c.in_order(r, i, k, q) by {
            if r < nr {
                assert(keeps_route(c, a, o, r));
                assert(a.in_order(r, i, k, q));
                assert(keeps_time(c, a, o, r, i, q) && keeps_time(c, a, o, r, k, q));
            } else {
                assert(keeps_route(c, b, at, r - nr));
                assert(b.in_order(r - nr, i, k, q));
                assert(keeps_time(c, b, at, r - nr, i, q) && keeps_time(c, b, at, r - nr, k, q));
            }
        }
    }
    if forward_in_time(a) && forward_in_time(b) {
        assert forall|r: int, i: int, p: int, q: int|
            0 <= r < c.routes@.len() && 0 <= i < c.n_trips(r) && 0 <= p < c.n_stops(r) && 0 <= q
                < c.n_stops(r) implies #[trigger] trip_runs(c, r, i, p, q) by {
            if r < nr {
                assert(keeps_route(c, a, o, r));
                assert(trip_runs(a, r, i, p, q));
                assert(keeps_time(c, a, o, r, i, p) && keeps_time(c, a, o, r, i, q));
            } else {
                assert(keeps_route(c, b, at, r - nr));
                assert(trip_runs(b, r - nr, i, p, q));
                assert(keeps_time(c, b, at, r - nr, i, p) && keeps_time(c, b, at, r - nr, i, q));
            }
        }
    }
}

/// Copies routes behind others, shifted.
fn append_routes(
    into: &mut Vec<Route>,
    from: &Vec<Route>,
    routes: usize,
    route_stops: usize,
    route_trips: usize,
    Ghost(c): Ghost<Cursor>,
)
    requires
        c.routes == routes && c.route_stops == route_stops && c.route_trips == route_trips,
        forall|k: int|
            0 <= k < from@.len() ==> {
                let x = #[trigger] from@[k];
                &&& x.route_index + routes <= usize::MAX
                &&& x.first_route_stop + route_stops <= usize::MAX
                &&& x.first_route_trip + route_trips <= usize::MAX
            },
    ensures
        final(into)@ == old(into)@ + from@.map_values(|x: Route| shifted_route(c, x)),
{
    let ghost before = into@;
    let mut i: usize = 0;
    while i < from.len()
        invariant
            i <= from@.len(),
            c.routes == routes && c.route_stops == route_stops && c.route_trips == route_trips,
            forall|k: int|
                0 <= k < from@.len() ==> {
                    let x = #[trigger] from@[k];
                    &&& x.route_index + routes <= usize::MAX
                    &&& x.first_route_stop + route_stops <= usize::MAX
                    &&& x.first_route_trip + route_trips <= usize::MAX
                },
            into@ == before + from@.take(i as int).map_values(|x: Route| shifted_route(c, x)),
        decreases from@.len() - i,
    {
        let x: Route = from[i];
        assert(from@[i as int] == x);
        into.push(
            Route {
                route_index: x.route_index + routes,
                first_route_stop: x.first_route_stop + route_stops,
                first_route_trip: x.first_route_trip + route_trips,
            },
        );
        assert(from@.take(i + 1) =~= from@.take(i as int).push(x));
        assert(from@.take(i + 1).map_values(|x: Route| shifted_route(c, x)) =~= from@.take(
            i as int,
        ).map_values(|x: Route| shifted_route(c, x)).push(shifted_route(c, x)));
        i = i + 1;
    }
    assert(from@.take(from@.len() as int) =~= from@);
}

/// Copies the stops of routes behind others, shifted.
fn append_route_stops(
    into: &mut Vec<RouteStop>,
    from: &Vec<RouteStop>,
    routes: usize,
    stops: usize,
    Ghost(c): Ghost<Cursor>,
)
    requires
        c.routes == routes && c.stops == stops,
        forall|k: int|
            0 <= k < from@.len() ==> {
                let x = #[trigger] from@[k];
                &&& x.route_index + routes <= usize::MAX
                &&& x.stop_index + stops <= usize::MAX
            },
    ensures
        final(into)@ == old(into)@ + from@.map_values(|x: RouteStop| shifted_route_stop(c, x)),
{
    let ghost before = into@;
    let mut i: usize = 0;
    while i < from.len()
        invariant
            i <= from@.len(),
            c.routes == routes && c.stops == stops,
            forall|k: int|
                0 <= k < from@.len() ==> {
                    let x = #[trigger] from@[k];
                    &&& x.route_index + routes <= usize::MAX
                    &&& x.stop_index + stops <= usize::MAX
                },
            into@ == before + from@.take(i as int).map_values(
                |x: RouteStop| shifted_route_stop(c, x),
            ),
        decreases from@.len() - i,
    {
        let x: RouteStop = from[i];
        assert(from@[i as int] == x);
        into.push(
            RouteStop {
                route_index: x.route_index + routes,
                stop_index: x.stop_index + stops,
                stop_seq: x.stop_seq,
                distance_along_route: x.distance_along_route,
            },
        );
        assert(from@.take(i + 1) =~= from@.take(i as int).push(x));
        assert(from@.take(i + 1).map_values(|x: RouteStop| shifted_route_stop(c, x)) =~= from@.take(
            i as int,
        ).map_values(|x: RouteStop| shifted_route_stop(c, x)).push(shifted_route_stop(c, x)));
        i = i + 1;
    }
    assert(from@.take(from@.len() as int) =~= from@);
}

/// Copies trips behind others, shifted.
fn append_trips(
    into: &mut Vec<Trip>,
    from: &Vec<Trip>,
    routes: usize,
    route_trips: usize,
    times: usize,
    Ghost(c): Ghost<Cursor>,
)
    requires
        c.routes == routes && c.route_trips == route_trips && c.trip_stop_times == times,
        forall|k: int|
            0 <= k < from@.len() ==> {
                let x = #[trigger] from@[k];
                &&& x.trip_index + route_trips <= usize::MAX
                &&& x.route_index + routes <= usize::MAX
                &&& x.first_trip_stop_time + times <= usize::MAX
                &&& x.last_trip_stop_time + times <= usize::MAX
            },
    ensures
        final(into)@ == old(into)@ + from@.map_values(|x: Trip| shifted_trip(c, x)),
{
    let ghost before = into@;
    let mut i: usize = 0;
    while i < from.len()
        invariant
            i <= from@.len(),
            c.routes == routes && c.route_trips == route_trips && c.trip_stop_times == times,
            forall|k: int|
                0 <= k < from@.len() ==> {
                    let x = #[trigger] from@[k];
                    &&& x.trip_index + route_trips <= usize::MAX
                    &&& x.route_index + routes <= usize::MAX
                    &&& x.first_trip_stop_time + times <= usize::MAX
                    &&& x.last_trip_stop_time + times <= usize::MAX
                },
            into@ == before + from@.take(i as int).map_values(|x: Trip| shifted_trip(c, x)),
        decreases from@.len() - i,
    {
        let x: Trip = from[i];
        assert(from@[i as int] == x);
        into.push(
            Trip {
                trip_index: x.trip_index + route_trips,
                route_index: x.route_index + routes,
                first_trip_stop_time: x.first_trip_stop_time + times,
                last_trip_stop_time: x.last_trip_stop_time + times,
            },
        );
        assert(from@.take(i + 1) =~= from@.take(i as int).push(x));
        assert(from@.take(i + 1).map_values(|x: Trip| shifted_trip(c, x)) =~= from@.take(
            i as int,
        ).map_values(|x: Trip| shifted_trip(c, x)).push(shifted_trip(c, x)));
        i = i + 1;
    }
    assert(from@.take(from@.len() as int) =~= from@);
}

/// Copies stops behind others, shifted.
fn append_stops(
    into: &mut Vec<Stop>,
    from: &Vec<Stop>,
    stops: usize,
    stop_routes: usize,
    Ghost(c): Ghost<Cursor>,
)
    requires
        c.stops == stops && c.stop_routes == stop_routes,
        forall|k: int|
            0 <= k < from@.len() ==> {
                let x = #[trigger] from@[k];
                &&& x.stop_index + stops <= usize::MAX
                &&& x.first_stop_route_index + stop_routes <= usize::MAX
            },
    ensures
        final(into)@ == old(into)@ + from@.map_values(|x: Stop| shifted_stop(c, x)),
{
    let ghost before = into@;
    let mut i: usize = 0;
    while i < from.len()
        invariant
            i <= from@.len(),
            c.stops == stops && c.stop_routes == stop_routes,
            forall|k: int|
                0 <= k < from@.len() ==> {
                    let x = #[trigger] from@[k];
                    &&& x.stop_index + stops <= usize::MAX
                    &&& x.first_stop_route_index + stop_routes <= usize::MAX
                },
            into@ == before + from@.take(i as int).map_values(|x: Stop| shifted_stop(c, x)),
        decreases from@.len() - i,
    {
        let x: Stop = from[i];
        assert(from@[i as int] == x);
        into.push(
            Stop {
                stop_index: x.stop_index + stops,
                s2cell: x.s2cell,
                first_stop_route_index: x.first_stop_route_index + stop_routes,
            },
        );
        assert(from@.take(i + 1) =~= from@.take(i as int).push(x));
        assert(from@.take(i + 1).map_values(|x: Stop| shifted_stop(c, x)) =~= from@.take(
            i as int,
        ).map_values(|x: Stop| shifted_stop(c, x)).push(shifted_stop(c, x)));
        i = i + 1;
    }
    assert(from@.take(from@.len() as int) =~= from@);
}

/// Copies the calls at stops behind others, shifted.
fn append_stop_routes(
    into: &mut Vec<StopRoute>,
    from: &Vec<StopRoute>,
    routes: usize,
    Ghost(c): Ghost<Cursor>,
)
    requires
        c.routes == routes,
        forall|k: int|
            0 <= k < from@.len() ==> (#[trigger] from@[k]).route_index + routes <= usize::MAX,
    ensures
        final(into)@ == old(into)@ + from@.map_values(|x: StopRoute| shifted_stop_route(c, x)),
{
    let ghost before = into@;
    let mut i: usize = 0;
    while i < from.len()
        invariant
            i <= from@.len(),
            c.routes == routes,
            forall|k: int|
                0 <= k < from@.len() ==> (#[trigger] from@[k]).route_index + routes <= usize::MAX,
            into@ == before + from@.take(i as int).map_values(
                |x: StopRoute| shifted_stop_route(c, x),
            ),
        decreases from@.len() - i,
    {
        let x: StopRoute = from[i];
        assert(from@[i as int] == x);
        into.push(StopRoute { route_index: x.route_index + routes, stop_seq: x.stop_seq });
        assert(from@.take(i + 1) =~= from@.take(i as int).push(x));
        assert(from@.take(i + 1).map_values(|x: StopRoute| shifted_stop_route(c, x)) =~= from@.take(
            i as int,
        ).map_values(|x: StopRoute| shifted_stop_route(c, x)).push(shifted_stop_route(c, x)));
        i = i + 1;
    }
    assert(from@.take(from@.len() as int) =~= from@);
}

/// Copies times behind others, shifted.
fn append_times(
    into: &mut Vec<TripStopTime>,
    from: &Vec<TripStopTime>,
    route_trips: usize,
    Ghost(c): Ghost<Cursor>,
)
    requires
        c.route_trips == route_trips,
        forall|k: int|
            0 <= k < from@.len() ==> (#[trigger] from@[k]).trip_index + route_trips <= usize::MAX,
    ensures
        final(into)@ == old(into)@ + from@.map_values(|x: TripStopTime| shifted_time(c, x)),
{
    let ghost before = into@;
    let mut i: usize = 0;
    while i < from.len()
        invariant
            i <= from@.len(),
            c.route_trips == route_trips,
            forall|k: int|
                0 <= k < from@.len() ==> (#[trigger] from@[k]).trip_index + route_trips
                    <= usize::MAX,
            into@ == before + from@.take(i as int).map_values(|x: TripStopTime| shifted_time(c, x)),
        decreases from@.len() - i,
    {
        let x: TripStopTime = from[i];
        assert(from@[i as int] == x);
        into.push(
            TripStopTime {
                trip_index: x.trip_index + route_trips,
                route_stop_seq: x.route_stop_seq,
                arrival_time: x.arrival_time,
                departure_time: x.departure_time,
            },
        );
        assert(from@.take(i + 1) =~= from@.take(i as int).push(x));
        assert(from@.take(i + 1).map_values(|x: TripStopTime| shifted_time(c, x)) =~= from@.take(
            i as int,
        ).map_values(|x: TripStopTime| shifted_time(c, x)).push(shifted_time(c, x)));
        i = i + 1;
    }
    assert(from@.take(from@.len() as int) =~= from@);
}

impl MmapTimetable {
    /// A timetable of nothing.
    pub fn empty() -> (tt: MmapTimetable)
        ensures
            tt.wf(),
            cursor(&tt) == origin(),
            tt.transfers@.len() == 0,
            tt.transfer_index@.len() == 0,
    {
        MmapTimetable::from_in_memory(
            Vec::new(),
            Vec::new(),
            Vec::new(),
            Vec::new(),
            Vec::new(),
            Vec::new(),
        )
    }

    /// Puts another timetable behind this one. What the two held stays as it was but for where it
    /// stands; the transfers are not touched.
    pub fn append(&mut self, tt: &MmapTimetable)
        requires
            old(self).core_wf(),
            tt.core_wf(),
            countable(plus(cursor(old(self)), cursor(tt))),
        ensures
            joins(old(self), tt, final(self)),
            final(self).core_wf(),
            final(self).transfer_index == old(self).transfer_index,
            final(self).transfers == old(self).transfers,
            keeps(final(self), old(self), origin()),
            keeps(final(self), tt, cursor(old(self))),
            cursor(final(self)) == plus(cursor(old(self)), cursor(tt)),
            told_alike(final(self), old(self), origin()),
            told_alike(final(self), tt, cursor(old(self))),
            old(self).trips_in_order() && tt.trips_in_order() ==> final(self).trips_in_order(),
            forward_in_time(old(self)) && forward_in_time(tt) ==> forward_in_time(final(self)),
    {
        let ghost before = *self;
        let ghost c = cursor(&before);
        let routes: usize = self.routes.len();
        let route_stops: usize = self.route_stops.len();
        let route_trips: usize = self.route_trips.len();
        let stops: usize = self.stops.len();
        let stop_routes: usize = self.stop_routes.len();
        let times: usize = self.trip_stop_times.len();
        append_routes(
            &mut self.routes,
            &tt.routes,
            routes,
            route_stops,
            route_trips,
            Ghost(c),
        );
        append_route_stops(&mut self.route_stops, &tt.route_stops, routes, stops, Ghost(c));
        append_trips(
            &mut self.route_trips,
            &tt.route_trips,
            routes,
            route_trips,
            times,
            Ghost(c),
        );
        append_stops(&mut self.stops, &tt.stops, stops, stop_routes, Ghost(c));
        append_stop_routes(&mut self.stop_routes, &tt.stop_routes, routes, Ghost(c));
        append_times(&mut self.trip_stop_times, &tt.trip_stop_times, route_trips, Ghost(c));
        proof {
            assert(joins(&before, tt, self));
            lemma_joins_keeps(&before, tt, self);
            lemma_joins_wf(&before, tt, self);
            lemma_joins_order(&before, tt, self);
            lemma_told_alike(self, &before, origin());
            lemma_told_alike(self, tt, c);
        }
    }
}

/// `a` lies no further than `b` in any array.
pub open spec fn no_further(a: Cursor, b: Cursor) -> bool {
    &&& 0 <= a.routes <= b.routes
    &&& 0 <= a.route_stops <= b.route_stops
    &&& 0 <= a.route_trips <= b.route_trips
    &&& 0 <= a.stops <= b.stops
    &&& 0 <= a.stop_routes <= b.stop_routes
    &&& 0 <= a.trip_stop_times <= b.trip_stop_times
}

proof fn lemma_totals(tts: Seq<MmapTimetable>, j: int, k: int)
    requires
        0 <= j <= k <= tts.len(),
    ensures
        no_further(total(tts, j), total(tts, k)),
    decreases k,
{
    if k > 0 {
        lemma_totals(tts, 0, k - 1);
        if j < k {
            lemma_totals(tts, j, k - 1);
        }
    }
}

/// What holds of every timetable of a list.
pub open spec fn all_core_wf(tts: Seq<MmapTimetable>) -> bool {
    forall|k: int| 0 <= k < tts.len() ==> (#[trigger] tts[k]).core_wf()
}

/// `c` holds timetable `k` of `tts` behind those before it.
pub open spec fn holds(c: &MmapTimetable, tts: Seq<MmapTimetable>, k: int) -> bool {
    keeps(c, &tts[k], total(tts, k)) && placed(c, &tts[k], total(tts, k))
}

impl MmapTimetable {
    /// All of the timetables as one, without transfers.
    ///
    /// Each stands behind the ones before it, and keeps its stops, its routes with their stops
    /// and trips, and their times. What is in order in each is so in all, and so is what runs
    /// forward in time.
    pub fn concatenate(timetables: &[MmapTimetable]) -> (all: MmapTimetable)
        requires
            all_core_wf(timetables@),
            countable(total(timetables@, timetables@.len() as int)),
        ensures
            all.core_wf(),
            cursor(&all) == total(timetables@, timetables@.len() as int),
            forall|k: int| 0 <= k < timetables@.len() ==> #[trigger] holds(&all, timetables@, k),
            forall|k: int|
                0 <= k < timetables@.len() ==> told_alike(
                    &all,
                    #[trigger] &timetables@[k],
                    total(timetables@, k),
                ),
            (forall|k: int|
                0 <= k < timetables@.len() ==> (#[trigger] timetables@[k]).trips_in_order())
                ==> all.trips_in_order(),
            (forall|k: int|
                0 <= k < timetables@.len() ==> forward_in_time(#[trigger] &timetables@[k]))
                ==> forward_in_time(&all),
            all.transfers@.len() == 0,
            all.transfer_index@.len() == 0,
    {
        let mut all: MmapTimetable = MmapTimetable::empty();
        let ghost tts = timetables@;
        let mut k: usize = 0;
        while k < timetables.len()
            invariant
                tts == timetables@,
                k <= tts.len(),
                all_core_wf(tts),
                countable(total(tts, tts.len() as int)),
                all.core_wf(),
                cursor(&all) == total(tts, k as int),
                forall|j: int| 0 <= j < k ==> #[trigger] holds(&all, tts, j),
                (forall|j: int| 0 <= j < k ==> (#[trigger] tts[j]).trips_in_order())
                    ==> all.trips_in_order(),
                (forall|j: int| 0 <= j < k ==> forward_in_time(#[trigger] &tts[j]))
                    ==> forward_in_time(&all),
                all.transfers@.len() == 0,
                all.transfer_index@.len() == 0,
            decreases tts.len() - k,
        {
            let ghost before = all;
            proof {
                assert(tts[k as int].core_wf());
                lemma_totals(tts, k + 1, tts.len() as int);
            }
            all.append(&timetables[k]);
            proof {
                lemma_joins_keeps(&before, &tts[k as int], &all);
                assert forall|j: int| 0 <= j < k + 1 implies #[trigger] holds(&all, tts, j) by {
                    if j < k {
                        assert(holds(&before, tts, j));
                        assert(tts[j].core_wf());
                        lemma_totals(tts, 0, j);
                        lemma_totals(tts, j + 1, k as int);
                        lemma_joins_keeps_more(
                            &before,
                            &tts[k as int],
                            &all,
                            &tts[j],
                            total(tts, j),
                        );
                    }
                }
            }
            k = k + 1;
        }
        proof {
            assert forall|j: int| 0 <= j < tts.len() implies told_alike(
                &all,
                #[trigger] &tts[j],
                total(tts, j),
            ) by {
                assert(holds(&all, tts, j));
                assert(tts[j].core_wf());
                lemma_totals(tts, 0, j);
                lemma_totals(tts, j + 1, tts.len() as int);
                lemma_told_alike(&all, &tts[j], total(tts, j));
            }
        }
        all
    }
}

/// What is left to do when timetables are joined into a directory.
#[derive(Clone, Copy, PartialEq, Eq, Structural, Debug)]
pub enum ConcatPhase {
    /// Everything.
    Core,
    /// Only the transfers.
    Transfers,
}

/// Where to resume: at the transfers, if that is asked for or if metadata and arrays are both
/// complete.
pub fn resume_at(
    skip_to_transfers: bool,
    metadata_complete: bool,
    core_arrays_complete: bool,
) -> (phase: ConcatPhase)
    ensures
        phase == ConcatPhase::Transfers <==> skip_to_transfers || (metadata_complete
            && core_arrays_complete),
{
    if skip_to_transfers || (metadata_complete && core_arrays_complete) {
        ConcatPhase::Transfers
    } else {
        ConcatPhase::Core
    }
}

/// The key under which the metadata of an entry is stored, whose number is `id` in a timetable
/// that stands behind `cursor` entries of its sort.
pub fn metadata_key(cursor: usize, id: usize) -> (key: u64)
    requires
        cursor + id <= usize::MAX,
    ensures
        key == cursor + id,
{
    (cursor + id) as u64
}

/// The metadata of every entry is found under the number that the entry has among all.
pub proof fn lemma_metadata_keys(all: &MmapTimetable, tts: Seq<MmapTimetable>, k: int, i: int)
    requires
        0 <= k < tts.len(),
        all_core_wf(tts),
        countable(total(tts, tts.len() as int)),
        holds(all, tts, k),
    ensures
        0 <= i < tts[k].stops@.len() ==> all.stops@[total(tts, k).stops + i].stop_index
            == total(tts, k).stops + tts[k].stops@[i].stop_index,
        0 <= i < tts[k].route_trips@.len() ==> all.route_trips@[total(tts, k).route_trips
            + i].trip_index == total(tts, k).route_trips + tts[k].route_trips@[i].trip_index,
        0 <= i < tts[k].routes@.len() ==> all.routes@[total(tts, k).routes + i].route_index
            == total(tts, k).routes + tts[k].routes@[i].route_index,
{
    lemma_totals(tts, 0, k);
    lemma_totals(tts, k + 1, tts.len() as int);
    assert(tts[k].core_wf());
}

} // verus!
