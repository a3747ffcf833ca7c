//! Whether arrays that were read make up a timetable that can be searched.

use crate::timetable::{
    MmapTimetable, Route, RouteStop, Stop, StopRoute, Transfer, Trip, TripStopTime,
};
use vstd::prelude::*;

verus! {

impl MmapTimetable {
    fn indices_are_fit(&self) -> (b: bool)
        ensures
            b == self.indices_fit(),
    {
        let routes: usize = self.routes.len();
        let route_stops: usize = self.route_stops.len();
        let route_trips: usize = self.route_trips.len();
        let stops: usize = self.stops.len();
        let stop_routes: usize = self.stop_routes.len();
        let times: usize = self.trip_stop_times.len();
        let mut k: usize = 0;
        while k < routes
            invariant
                k <= routes == self.routes@.len(),
                route_stops == self.route_stops@.len(),
                route_trips == self.route_trips@.len(),
                forall|j: int|
                    0 <= j < k ==> {
                        let route = #[trigger] self.routes@[j];
                        &&& route.route_index < routes
                        &&& route.first_route_stop <= route_stops
                        &&& route.first_route_trip <= route_trips
                    },
            decreases routes - k,
        {
            let route: Route = self.routes[k];
            assert(self.routes@[k as int] == route);
            if route.route_index >= routes || route.first_route_stop > route_stops
                || route.first_route_trip > route_trips {
                return false;
            }
            k = k + 1;
        }
        let mut k: usize = 0;
        while k < route_stops
            invariant
                k <= route_stops == self.route_stops@.len(),
                routes == self.routes@.len(),
                stops == self.stops@.len(),
                forall|j: int|
                    0 <= j < k ==> (#[trigger] self.route_stops@[j]).route_index < routes
                        && self.route_stops@[j].stop_index < stops,
            decreases route_stops - k,
        {
            let route_stop: RouteStop = self.route_stops[k];
            assert(self.route_stops@[k as int] == route_stop);
            if route_stop.route_index >= routes || route_stop.stop_index >= stops {
                return false;
            }
            k = k + 1;
        }
        let mut k: usize = 0;
        while k < route_trips
            invariant
                k <= route_trips == self.route_trips@.len(),
                routes == self.routes@.len(),
                times == self.trip_stop_times@.len(),
                forall|j: int|
                    0 <= j < k ==> {
                        let trip = #[trigger] self.route_trips@[j];
                        &&& trip.trip_index < route_trips
                        &&& trip.route_index < routes
                        &&& trip.first_trip_stop_time <= times
                        &&& trip.last_trip_stop_time <= times
                    },
            decreases route_trips - k,
        {
            let trip: Trip = self.route_trips[k];
            assert(self.route_trips@[k as int] == trip);
            if trip.trip_index >= route_trips || trip.route_index >= routes
                || trip.first_trip_stop_time > times || trip.last_trip_stop_time > times {
                return false;
            }
            k = k + 1;
        }
        let mut k: usize = 0;
        while k < stops
            invariant
                k <= stops == self.stops@.len(),
                stop_routes == self.stop_routes@.len(),
                forall|j: int|
                    0 <= j < k ==> (#[trigger] self.stops@[j]).stop_index < stops
                        && self.stops@[j].first_stop_route_index <= stop_routes,
            decreases stops - k,
        {
            let stop: Stop = self.stops[k];
            assert(self.stops@[k as int] == stop);
            if stop.stop_index >= stops || stop.first_stop_route_index > stop_routes {
                return false;
            }
            k = k + 1;
        }
        let mut k: usize = 0;
        while k < stop_routes
            invariant
                k <= stop_routes == self.stop_routes@.len(),
                routes == self.routes@.len(),
                forall|j: int|
                    0 <= j < k ==> (#[trigger] self.stop_routes@[j]).route_index < routes,
            decreases stop_routes - k,
        {
            let stop_route: StopRoute = self.stop_routes[k];
            assert(self.stop_routes@[k as int] == stop_route);
            if stop_route.route_index >= routes {
                return false;
            }
            k = k + 1;
        }
        let mut k: usize = 0;
        while k < times
            invariant
                k <= times == self.trip_stop_times@.len(),
                route_trips == self.route_trips@.len(),
                forall|j: int|
                    0 <= j < k ==> (#[trigger] self.trip_stop_times@[j]).trip_index < route_trips,
            decreases times - k,
        {
            let time: TripStopTime = self.trip_stop_times[k];
            assert(self.trip_stop_times@[k as int] == time);
            if time.trip_index >= route_trips {
                return false;
            }
            k = k + 1;
        }
        true
    }

    fn is_covered(&self) -> (b: bool)
        ensures
            b == self.covered(),
    {
        let routes_covered: bool = if self.routes.len() > 0 {
            self.routes[0].first_route_stop == 0 && self.routes[0].first_route_trip == 0
        } else {
            self.route_stops.len() == 0 && self.route_trips.len() == 0
        };
        let stops_covered: bool = if self.stops.len() > 0 {
            self.stops[0].first_stop_route_index == 0
        } else {
            self.stop_routes.len() == 0
        };
        routes_covered && stops_covered
    }

    /// What holds of route `r` in a timetable that can be searched.
    pub open spec fn route_valid(&self, r: int) -> bool {
        &&& self.route_ok(r)
        &&& forall|q: int| 0 <= q < self.n_stops(r) ==> #[trigger] self.route_stop_ok(r, q)
        &&& forall|i: int| 0 <= i < self.n_trips(r) ==> #[trigger] self.trip_ok(r, i)
        &&& forall|i: int, q: int|
            0 <= i < self.n_trips(r) && 0 <= q < self.n_stops(r) ==> #[trigger] self.time_ok(
                r,
                i,
                q,
            )
    }

    fn is_route_valid(&self, r: usize) -> (b: bool)
        requires
            r < self.routes@.len(),
        ensures
            b == self.route_valid(r as int),
    {
        let ghost ri = r as int;
        let route: Route = self.routes[r];
        let last: bool = r == self.routes.len() - 1;
        let stops_end: usize = if last {
            self.route_stops.len()
        } else {
            self.routes[r + 1].first_route_stop
        };
        let trips_end: usize = if last {
            self.route_trips.len()
        } else {
            self.routes[r + 1].first_route_trip
        };
        assert(stops_end == self.route_stops_end(ri));
        assert(trips_end == self.route_trips_end(ri));
        if route.route_index != r || route.first_route_stop > stops_end || stops_end
            > self.route_stops.len() || route.first_route_trip > trips_end || trips_end
            > self.route_trips.len() {
            return false;
        }
        let n_stops: usize = stops_end - route.first_route_stop;
        let n_trips: usize = trips_end - route.first_route_trip;
        let stops: usize = self.stops.len();
        let mut q: usize = 0;
        while q < n_stops
            invariant
                ri == r,
                r < self.routes@.len(),
                self.route_ok(ri),
                route == self.routes@[ri],
                n_stops == self.n_stops(ri),
                route.first_route_stop + n_stops == stops_end,
                stops == self.stops@.len(),
                q <= n_stops,
                forall|p: int| 0 <= p < q ==> #[trigger] self.route_stop_ok(ri, p),
            decreases n_stops - q,
        {
            let rs: RouteStop = self.route_stops[route.first_route_stop + q];
            if rs.route_index != r || rs.stop_seq != q || rs.stop_index >= stops {
                assert(!self.route_stop_ok(ri, q as int));
                return false;
            }
            assert(self.route_stop_ok(ri, q as int));
            q = q + 1;
        }
        let mut i: usize = 0;
        while i < n_trips
            invariant
                ri == r,
                r < self.routes@.len(),
                self.route_ok(ri),
                route == self.routes@[ri],
                n_stops == self.n_stops(ri),
                n_trips == self.n_trips(ri),
                route.first_route_trip + n_trips == trips_end,
                i <= n_trips,
                forall|p: int| 0 <= p < n_stops ==> #[trigger] self.route_stop_ok(ri, p),
                forall|j: int| 0 <= j < i ==> #[trigger] self.trip_ok(ri, j),
                forall|j: int, p: int|
                    0 <= j < i && 0 <= p < n_stops ==> #[trigger] self.time_ok(ri, j, p),
            decreases n_trips - i,
        {
            let trip: Trip = self.route_trips[route.first_route_trip + i];
            if trip.trip_index != route.first_route_trip + i || trip.route_index != r
                || trip.last_trip_stop_time < trip.first_trip_stop_time || trip.last_trip_stop_time
                - trip.first_trip_stop_time != n_stops || trip.last_trip_stop_time
                > self.trip_stop_times.len() {
                assert(!self.trip_ok(ri, i as int));
                return false;
            }
            assert(self.trip_ok(ri, i as int));
            let mut q: usize = 0;
            while q < n_stops
                invariant
                    ri == r,
                    r < self.routes@.len(),
                    self.route_ok(ri),
                    route == self.routes@[ri],
                    n_stops == self.n_stops(ri),
                    n_trips == self.n_trips(ri),
                    i < n_trips,
                    trip == self.trip_at(ri, i as int),
                    forall|p: int| 0 <= p < n_stops ==> #[trigger] self.route_stop_ok(ri, p),
                    forall|j: int| 0 <= j <= i ==> #[trigger] self.trip_ok(ri, j),
                    forall|j: int, p: int|
                        0 <= j < i && 0 <= p < n_stops ==> #[trigger] self.time_ok(ri, j, p),
                    q <= n_stops,
                    forall|p: int| 0 <= p < q ==> #[trigger] self.time_ok(ri, i as int, p),
                decreases n_stops - q,
            {
                assert(self.trip_ok(ri, i as int));
                let t: TripStopTime = self.trip_stop_times[trip.first_trip_stop_time + q];
                if t.trip_index != trip.trip_index || t.route_stop_seq != q {
                    assert(!self.time_ok(ri, i as int, q as int));
                    return false;
                }
                assert(self.time_ok(ri, i as int, q as int));
                q = q + 1;
            }
            i = i + 1;
        }
        true
    }

    /// What holds of stop `s` in a timetable that can be searched.
    pub open spec fn stop_valid(&self, s: int) -> bool {
        &&& self.stop_ok(s)
        &&& forall|j: int| 0 <= j < self.n_stop_routes(s) ==> #[trigger] self.stop_route_ok(s, j)
    }

    fn is_stop_valid(&self, s: usize) -> (b: bool)
        requires
            s < self.stops@.len(),
            forall|r: int| 0 <= r < self.routes@.len() ==> #[trigger] self.route_ok(r),
        ensures
            b == self.stop_valid(s as int),
    {
        let ghost si = s as int;
        let stop: Stop = self.stops[s];
        let end: usize = if s == self.stops.len() - 1 {
            self.stop_routes.len()
        } else {
            self.stops[s + 1].first_stop_route_index
        };
        assert(end == self.stop_routes_end(si));
        if stop.stop_index != s || stop.first_stop_route_index > end || end
            > self.stop_routes.len() {
            return false;
        }
        let n: usize = end - stop.first_stop_route_index;
        let routes: usize = self.routes.len();
        let mut j: usize = 0;
        while j < n
            invariant
                si == s,
                s < self.stops@.len(),
                self.stop_ok(si),
                stop == self.stops@[si],
                n == self.n_stop_routes(si),
                stop.first_stop_route_index + n == end,
                routes == self.routes@.len(),
                forall|r: int| 0 <= r < self.routes@.len() ==> #[trigger] self.route_ok(r),
                j <= n,
                forall|i: int| 0 <= i < j ==> #[trigger] self.stop_route_ok(si, i),
            decreases n - j,
        {
            let sr: StopRoute = self.stop_routes[stop.first_stop_route_index + j];
            assert(sr == self.stop_route_at(si, j as int));
            if sr.route_index >= routes {
                assert(!self.stop_route_ok(si, j as int));
                return false;
            }
            assert(self.route_ok(sr.route_index as int));
            let begin: usize = self.routes[sr.route_index].first_route_stop;
            let stops_end: usize = if sr.route_index == routes - 1 {
                self.route_stops.len()
            } else {
                self.routes[sr.route_index + 1].first_route_stop
            };
            if sr.stop_seq >= stops_end - begin || self.route_stops[begin + sr.stop_seq].stop_index
                != s {
                assert(!self.stop_route_ok(si, j as int));
                return false;
            }
            assert(self.stop_route_ok(si, j as int));
            j = j + 1;
        }
        true
    }

    fn are_transfers_valid(&self) -> (b: bool)
        ensures
            b == self.transfers_wf(),
    {
        let stops: usize = self.stops.len();
        if self.transfer_index.len() != stops {
            return false;
        }
        let mut s: usize = 0;
        while s < stops
            invariant
                stops == self.stops@.len() == self.transfer_index@.len(),
                s <= stops,
                forall|t: int| 0 <= t < s ==> #[trigger] self.transfer_run_ok(t),
                forall|t: int, j: int|
                    0 <= t < s && 0 <= j < self.n_transfers(t) ==> #[trigger] self.transfer_ok(
                        t,
                        j,
                    ),
            decreases stops - s,
        {
            let begin: usize = self.transfer_index[s];
            let end: usize = if s == stops - 1 {
                self.transfers.len()
            } else {
                self.transfer_index[s + 1]
            };
            assert(end == self.transfers_end(s as int));
            if begin > end || end > self.transfers.len() {
                assert(!self.transfer_run_ok(s as int));
                return false;
            }
            assert(self.transfer_run_ok(s as int));
            let mut j: usize = 0;
            while j < end - begin
                invariant
                    stops == self.stops@.len() == self.transfer_index@.len(),
                    s < stops,
                    begin == self.transfer_index@[s as int],
                    end == self.transfers_end(s as int),
                    begin <= end <= self.transfers@.len(),
                    j <= end - begin,
                    forall|i: int| 0 <= i < j ==> #[trigger] self.transfer_ok(s as int, i),
                decreases end - begin - j,
            {
                let t: Transfer = self.transfers[begin + j];
                assert(t == self.transfer_at(s as int, j as int));
                if t.from != s || t.to >= stops {
                    assert(!self.transfer_ok(s as int, j as int));
                    assert(j < self.n_transfers(s as int));
                    return false;
                }
                assert(self.transfer_ok(s as int, j as int));
                j = j + 1;
            }
            s = s + 1;
        }
        true
    }

    /// Tests whether the timetable can be searched, transfers aside.
    pub fn is_consistent(&self) -> (b: bool)
        ensures
            b == self.core_wf(),
    {
        if !self.indices_are_fit() || !self.is_covered() {
            return false;
        }
        let mut r: usize = 0;
        while r < self.routes.len()
            invariant
                r <= self.routes@.len(),
                forall|k: int| 0 <= k < r ==> #[trigger] self.route_valid(k),
            decreases self.routes@.len() - r,
        {
            if !self.is_route_valid(r) {
                assert(!self.route_valid(r as int));
                assert(!self.core_wf()) by {
                    if self.core_wf() {
                        assert(self.route_ok(r as int));
                        assert(self.route_valid(r as int));
                    }
                }
                return false;
            }
            r = r + 1;
        }
        assert forall|k: int| 0 <= k < self.routes@.len() implies #[trigger] self.route_ok(k) by {
            assert(self.route_valid(k));
        }
        let mut s: usize = 0;
        while s < self.stops.len()
            invariant
                s <= self.stops@.len(),
                forall|k: int| 0 <= k < self.routes@.len() ==> #[trigger] self.route_ok(k),
                forall|k: int| 0 <= k < s ==> #[trigger] self.stop_valid(k),
            decreases self.stops@.len() - s,
        {
            if !self.is_stop_valid(s) {
                assert(!self.stop_valid(s as int));
                assert(!self.core_wf()) by {
                    if self.core_wf() {
                        assert(self.stop_ok(s as int));
                        assert(self.stop_valid(s as int));
                    }
                }
                return false;
            }
            s = s + 1;
        }
        proof {
            assert forall|r: int, q: int|
                0 <= r < self.routes@.len() && 0 <= q < self.n_stops(r) implies
                #[trigger] self.route_stop_ok(r, q) by {
                assert(self.route_valid(r));
            }
            assert forall|r: int, i: int|
                0 <= r < self.routes@.len() && 0 <= i < self.n_trips(r) implies
                #[trigger] self.trip_ok(r, i) by {
                assert(self.route_valid(r));
            }
            assert forall|r: int, i: int, q: int|
                0 <= r < self.routes@.len() && 0 <= i < self.n_trips(r) && 0 <= q < self.n_stops(
                    r,
                ) implies #[trigger] self.time_ok(r, i, q) by {
                assert(self.route_valid(r));
            }
            assert forall|s: int| 0 <= s < self.stops@.len() implies #[trigger] self.stop_ok(
                s,
            ) by {
                assert(self.stop_valid(s));
            }
            assert forall|s: int, j: int|
                0 <= s < self.stops@.len() && 0 <= j < self.n_stop_routes(s) implies
                #[trigger] self.stop_route_ok(s, j) by {
                assert(self.stop_valid(s));
            }
        }
        true
    }

    /// Tests whether the timetable can be searched.
    pub fn is_searchable(&self) -> (b: bool)
        ensures
            b == self.wf(),
    {
        self.is_consistent() && self.are_transfers_valid()
    }
}

} // verus!
