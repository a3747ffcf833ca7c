//! The arrays that make up a timetable, and how they refer to one another.

pub mod concat;
pub mod distance;
pub mod heartbeat;
pub mod validity;
pub mod walks;

use crate::timetable::distance::Distance;
use vstd::prelude::*;

verus! {

/// A moment, in whole seconds since the Unix epoch.
#[derive(Clone, Copy, PartialEq, Eq, Structural, Debug, Hash)]
pub struct Time {
    pub epoch_seconds: u32,
}

impl Time {
    /// The first moment that can be expressed.
    pub fn epoch() -> (t: Time)
        ensures
            t.epoch_seconds == 0,
    {
        Time { epoch_seconds: 0 }
    }

    /// The moment `seconds` after the epoch.
    pub fn from_epoch_seconds(seconds: u32) -> (t: Time)
        ensures
            t.epoch_seconds == seconds,
    {
        Time { epoch_seconds: seconds }
    }

    pub fn epoch_seconds(&self) -> (s: u32)
        ensures
            s == self.epoch_seconds,
    {
        self.epoch_seconds
    }

    /// `seconds` later than `self`; the last expressible moment where that lies beyond it.
    pub open spec fn plus(self, seconds: u32) -> Time {
        if self.epoch_seconds + seconds <= u32::MAX {
            Time { epoch_seconds: (self.epoch_seconds + seconds) as u32 }
        } else {
            Time { epoch_seconds: u32::MAX }
        }
    }

    pub fn plus_seconds(&self, seconds: u32) -> (t: Time)
        ensures
            t == self.plus(seconds),
    {
        if seconds <= u32::MAX - self.epoch_seconds {
            Time { epoch_seconds: self.epoch_seconds + seconds }
        } else {
            Time { epoch_seconds: u32::MAX }
        }
    }

    /// `seconds` earlier than `self`; the epoch where that lies before it.
    pub open spec fn minus(self, seconds: u32) -> Time {
        if seconds <= self.epoch_seconds {
            Time { epoch_seconds: (self.epoch_seconds - seconds) as u32 }
        } else {
            Time { epoch_seconds: 0 }
        }
    }

    pub fn minus_seconds(&self, seconds: u32) -> (t: Time)
        ensures
            t == self.minus(seconds),
    {
        if seconds <= self.epoch_seconds {
            Time { epoch_seconds: self.epoch_seconds - seconds }
        } else {
            Time { epoch_seconds: 0 }
        }
    }
}

/// A route: the trips that serve one sequence of stops.
#[derive(Clone, Copy, PartialEq, Eq, Structural, Debug)]
pub struct Route {
    pub route_index: usize,
    pub first_route_stop: usize,
    pub first_route_trip: usize,
}

/// One stop in the sequence of a route.
#[derive(Clone, Copy, PartialEq, Eq, Structural, Debug)]
pub struct RouteStop {
    pub route_index: usize,
    pub stop_index: usize,
    pub stop_seq: usize,
    pub distance_along_route: Distance,
}

/// One vehicle run along a route.
#[derive(Clone, Copy, PartialEq, Eq, Structural, Debug)]
pub struct Trip {
    pub trip_index: usize,
    pub route_index: usize,
    pub first_trip_stop_time: usize,
    pub last_trip_stop_time: usize,
}

/// A place where vehicles halt; `s2cell` says where it is.
#[derive(Clone, Copy, PartialEq, Eq, Structural, Debug)]
pub struct Stop {
    pub stop_index: usize,
    pub s2cell: u64,
    pub first_stop_route_index: usize,
}

/// A route that serves a stop, and where in its sequence.
#[derive(Clone, Copy, PartialEq, Eq, Structural, Debug)]
pub struct StopRoute {
    pub route_index: usize,
    pub stop_seq: usize,
}

/// When a trip arrives at and leaves one stop of its route.
#[derive(Clone, Copy, PartialEq, Eq, Structural, Debug)]
pub struct TripStopTime {
    pub trip_index: usize,
    pub route_stop_seq: usize,
    pub arrival_time: Time,
    pub departure_time: Time,
}

/// A walk between two stops.
#[derive(Clone, Copy, PartialEq, Eq, Structural, Debug)]
pub struct Transfer {
    pub to: usize,
    pub from: usize,
    pub time: u64,
}

impl Route {
    pub fn id(&self) -> (id: usize)
        ensures
            id == self.route_index,
    {
        self.route_index
    }
}

impl Stop {
    pub fn id(&self) -> (id: usize)
        ensures
            id == self.stop_index,
    {
        self.stop_index
    }
}

impl RouteStop {
    /// The stop that this entry of a route's sequence stands for.
    pub fn id(&self) -> (id: usize)
        ensures
            id == self.stop_index,
    {
        self.stop_index
    }

    pub fn stop_seq(&self) -> (seq: usize)
        ensures
            seq == self.stop_seq,
    {
        self.stop_seq
    }
}

impl Transfer {
    /// The duration of the walk, as far as 32 bits hold it.
    pub open spec fn seconds(self) -> u32 {
        (self.time % 0x1_0000_0000) as u32
    }

    pub fn time_seconds(&self) -> (s: u32)
        ensures
            s == self.seconds(),
    {
        (self.time % 0x1_0000_0000) as u32
    }
}

/// The value that stands for a route on which no stop time has been marked.
pub open spec fn unmarked() -> TripStopTime {
    TripStopTime {
        trip_index: usize::MAX,
        route_stop_seq: usize::MAX,
        arrival_time: Time { epoch_seconds: u32::MAX },
        departure_time: Time { epoch_seconds: u32::MAX },
    }
}

impl TripStopTime {
    pub fn marked() -> (t: TripStopTime)
        ensures
            t == unmarked(),
    {
        TripStopTime {
            trip_index: usize::MAX,
            route_stop_seq: usize::MAX,
            arrival_time: Time { epoch_seconds: u32::MAX },
            departure_time: Time { epoch_seconds: u32::MAX },
        }
    }

    pub fn arrival(&self) -> (t: Time)
        ensures
            t == self.arrival_time,
    {
        self.arrival_time
    }

    pub fn departure(&self) -> (t: Time)
        ensures
            t == self.departure_time,
    {
        self.departure_time
    }
}

/// A timetable.
///
/// Every entity is an index into its array. The stops and trips of a route, the routes of a stop
/// and the transfers from a stop each stand in one run of their array, which ends where the run
/// of the next route or stop begins.
#[derive(Debug)]
pub struct MmapTimetable {
    pub routes: Vec<Route>,
    pub route_stops: Vec<RouteStop>,
    pub route_trips: Vec<Trip>,
    pub stops: Vec<Stop>,
    pub stop_routes: Vec<StopRoute>,
    pub trip_stop_times: Vec<TripStopTime>,
    pub transfer_index: Vec<usize>,
    pub transfers: Vec<Transfer>,
}

impl MmapTimetable {
    /// Where the stops of route `r` end in `route_stops`.
    pub open spec fn route_stops_end(&self, r: int) -> int {
        if r + 1 < self.routes@.len() {
            self.routes@[r + 1].first_route_stop as int
        } else {
            self.route_stops@.len() as int
        }
    }

    /// Where the trips of route `r` end in `route_trips`.
    pub open spec fn route_trips_end(&self, r: int) -> int {
        if r + 1 < self.routes@.len() {
            self.routes@[r + 1].first_route_trip as int
        } else {
            self.route_trips@.len() as int
        }
    }

    /// Where the routes of stop `s` end in `stop_routes`.
    pub open spec fn stop_routes_end(&self, s: int) -> int {
        if s + 1 < self.stops@.len() {
            self.stops@[s + 1].first_stop_route_index as int
        } else {
            self.stop_routes@.len() as int
        }
    }

    /// Where the transfers from stop `s` end in `transfers`.
    pub open spec fn transfers_end(&self, s: int) -> int {
        if s + 1 < self.transfer_index@.len() {
            self.transfer_index@[s + 1] as int
        } else {
            self.transfers@.len() as int
        }
    }

    /// How many stops route `r` has.
    pub open spec fn n_stops(&self, r: int) -> int {
        self.route_stops_end(r) - self.routes@[r].first_route_stop
    }

    /// How many trips route `r` has.
    pub open spec fn n_trips(&self, r: int) -> int {
        self.route_trips_end(r) - self.routes@[r].first_route_trip
    }

    /// How often routes call at stop `s`.
    pub open spec fn n_stop_routes(&self, s: int) -> int {
        self.stop_routes_end(s) - self.stops@[s].first_stop_route_index
    }

    /// How many transfers lead away from stop `s`.
    pub open spec fn n_transfers(&self, s: int) -> int {
        self.transfers_end(s) - self.transfer_index@[s]
    }

    /// The stop at position `q` of route `r`.
    pub open spec fn stop_at(&self, r: int, q: int) -> RouteStop {
        self.route_stops@[self.routes@[r].first_route_stop + q]
    }

    /// Trip `i` of route `r`.
    pub open spec fn trip_at(&self, r: int, i: int) -> Trip {
        self.route_trips@[self.routes@[r].first_route_trip + i]
    }

    /// When trip `i` of route `r` calls at position `q`.
    pub open spec fn time_at(&self, r: int, i: int, q: int) -> TripStopTime {
        self.trip_stop_times@[self.trip_at(r, i).first_trip_stop_time + q]
    }

    /// Call `j` of a route at stop `s`.
    pub open spec fn stop_route_at(&self, s: int, j: int) -> StopRoute {
        self.stop_routes@[self.stops@[s].first_stop_route_index + j]
    }

    /// Transfer `j` from stop `s`.
    pub open spec fn transfer_at(&self, s: int, j: int) -> Transfer {
        self.transfers@[self.transfer_index@[s] + j]
    }

    /// The stops of route `r`, in order.
    pub open spec fn stops_of(&self, r: int) -> Seq<RouteStop> {
        self.route_stops@.subrange(
            self.routes@[r].first_route_stop as int,
            self.route_stops_end(r),
        )
    }

    /// The trips of route `r`, in order.
    pub open spec fn trips_of(&self, r: int) -> Seq<Trip> {
        self.route_trips@.subrange(
            self.routes@[r].first_route_trip as int,
            self.route_trips_end(r),
        )
    }

    /// The stop times of a trip, in order.
    pub open spec fn times_of(&self, trip: Trip) -> Seq<TripStopTime> {
        self.trip_stop_times@.subrange(
            trip.first_trip_stop_time as int,
            trip.last_trip_stop_time as int,
        )
    }

    /// The transfers from stop `s`, in order.
    pub open spec fn transfers_at(&self, s: int) -> Seq<Transfer> {
        self.transfers@.subrange(self.transfer_index@[s] as int, self.transfers_end(s))
    }

    pub open spec fn route_ok(&self, r: int) -> bool {
        &&& self.routes@[r].route_index == r
        &&& self.routes@[r].first_route_stop <= self.route_stops_end(r) <= self.route_stops@.len()
        &&& self.routes@[r].first_route_trip <= self.route_trips_end(r) <= self.route_trips@.len()
    }

    pub open spec fn stop_ok(&self, s: int) -> bool {
        &&& self.stops@[s].stop_index == s
        &&& self.stops@[s].first_stop_route_index <= self.stop_routes_end(s)
            <= self.stop_routes@.len()
    }

    pub open spec fn route_stop_ok(&self, r: int, q: int) -> bool {
        let rs = self.stop_at(r, q);
        &&& rs.route_index == r
        &&& rs.stop_seq == q
        &&& rs.stop_index < self.stops@.len()
    }

    pub open spec fn trip_ok(&self, r: int, i: int) -> bool {
        let trip = self.trip_at(r, i);
        &&& trip.trip_index == self.routes@[r].first_route_trip + i
        &&& trip.route_index == r
        &&& trip.last_trip_stop_time == trip.first_trip_stop_time + self.n_stops(r)
        &&& trip.last_trip_stop_time <= self.trip_stop_times@.len()
    }

    pub open spec fn time_ok(&self, r: int, i: int, q: int) -> bool {
        let t = self.time_at(r, i, q);
        &&& t.trip_index == self.routes@[r].first_route_trip + i
        &&& t.route_stop_seq == q
    }

    pub open spec fn stop_route_ok(&self, s: int, j: int) -> bool {
        let sr = self.stop_route_at(s, j);
        &&& sr.route_index < self.routes@.len()
        &&& sr.stop_seq < self.n_stops(sr.route_index as int)
        &&& self.stop_at(sr.route_index as int, sr.stop_seq as int).stop_index == s
    }

    /// Every index that an entry holds lies within the array that it refers to.
    pub open spec fn indices_fit(&self) -> bool {
        &&& forall|k: int|
            0 <= k < self.routes@.len() ==> {
                let route = #[trigger] self.routes@[k];
                &&& route.route_index < self.routes@.len()
                &&& route.first_route_stop <= self.route_stops@.len()
                &&& route.first_route_trip <= self.route_trips@.len()
            }
        &&& forall|k: int|
            0 <= k < self.route_stops@.len() ==> {
                let route_stop = #[trigger] self.route_stops@[k];
                &&& route_stop.route_index < self.routes@.len()
                &&& route_stop.stop_index < self.stops@.len()
            }
        &&& forall|k: int|
            0 <= k < self.route_trips@.len() ==> {
                let trip = #[trigger] self.route_trips@[k];
                &&& trip.trip_index < self.route_trips@.len()
                &&& trip.route_index < self.routes@.len()
                &&& trip.first_trip_stop_time <= self.trip_stop_times@.len()
                &&& trip.last_trip_stop_time <= self.trip_stop_times@.len()
            }
        &&& forall|k: int|
            0 <= k < self.stops@.len() ==> {
                let stop = #[trigger] self.stops@[k];
                &&& stop.stop_index < self.stops@.len()
                &&& stop.first_stop_route_index <= self.stop_routes@.len()
            }
        &&& forall|k: int|
            0 <= k < self.stop_routes@.len() ==> (#[trigger] self.stop_routes@[k]).route_index
                < self.routes@.len()
        &&& forall|k: int|
            0 <= k < self.trip_stop_times@.len() ==> (
            #[trigger] self.trip_stop_times@[k]).trip_index < self.route_trips@.len()
    }

    /// The runs of the routes and stops cover their arrays from the start.
    pub open spec fn covered(&self) -> bool {
        &&& if self.routes@.len() > 0 {
            self.routes@[0].first_route_stop == 0 && self.routes@[0].first_route_trip == 0
        } else {
            self.route_stops@.len() == 0 && self.route_trips@.len() == 0
        }
        &&& if self.stops@.len() > 0 {
            self.stops@[0].first_stop_route_index == 0
        } else {
            self.stop_routes@.len() == 0
        }
    }

    /// What the arrays of a timetable owe one another, transfers aside.
    pub open spec fn core_wf(&self) -> bool {
        &&& self.indices_fit()
        &&& self.covered()
        &&& forall|r: int| 0 <= r < self.routes@.len() ==> #[trigger] self.route_ok(r)
        &&& forall|r: int, q: int|
            0 <= r < self.routes@.len() && 0 <= q < self.n_stops(r)
                ==> #[trigger] self.route_stop_ok(r, q)
        &&& forall|r: int, i: int|
            0 <= r < self.routes@.len() && 0 <= i < self.n_trips(r)
                ==> #[trigger] self.trip_ok(r, i)
        &&& forall|r: int, i: int, q: int|
            0 <= r < self.routes@.len() && 0 <= i < self.n_trips(r) && 0 <= q < self.n_stops(r)
                ==> #[trigger] self.time_ok(r, i, q)
        &&& forall|s: int| 0 <= s < self.stops@.len() ==> #[trigger] self.stop_ok(s)
        &&& forall|s: int, j: int|
            0 <= s < self.stops@.len() && 0 <= j < self.n_stop_routes(s)
                ==> #[trigger] self.stop_route_ok(s, j)
    }

    pub open spec fn transfer_run_ok(&self, s: int) -> bool {
        self.transfer_index@[s] <= self.transfers_end(s) <= self.transfers@.len()
    }

    pub open spec fn transfer_ok(&self, s: int, j: int) -> bool {
        let t = self.transfer_at(s, j);
        &&& t.from == s
        &&& t.to < self.stops@.len()
    }

    /// What the transfer arrays owe the stops.
    pub open spec fn transfers_wf(&self) -> bool {
        &&& self.transfer_index@.len() == self.stops@.len()
        &&& forall|s: int| 0 <= s < self.stops@.len() ==> #[trigger] self.transfer_run_ok(s)
        &&& forall|s: int, j: int|
            0 <= s < self.stops@.len() && 0 <= j < self.n_transfers(s)
                ==> #[trigger] self.transfer_ok(s, j)
    }

    pub open spec fn in_order(&self, r: int, i: int, k: int, q: int) -> bool {
        &&& self.time_at(r, i, q).departure_time.epoch_seconds
            <= self.time_at(r, k, q).departure_time.epoch_seconds
        &&& self.time_at(r, i, q).arrival_time.epoch_seconds
            <= self.time_at(r, k, q).arrival_time.epoch_seconds
    }

    /// No trip of a route overtakes another: at every stop the trips arrive and leave in order.
    pub open spec fn trips_in_order(&self) -> bool {
        forall|r: int, i: int, k: int, q: int|
            0 <= r < self.routes@.len() && 0 <= i <= k < self.n_trips(r) && 0 <= q < self.n_stops(r)
                ==> #[trigger] self.in_order(r, i, k, q)
    }

    /// A timetable that can be searched.
    pub open spec fn wf(&self) -> bool {
        &&& self.core_wf()
        &&& self.transfers_wf()
    }

    /// The timetable with these arrays.
    pub fn open(
        routes: Vec<Route>,
        route_stops: Vec<RouteStop>,
        route_trips: Vec<Trip>,
        stops: Vec<Stop>,
        stop_routes: Vec<StopRoute>,
        trip_stop_times: Vec<TripStopTime>,
        transfer_index: Vec<usize>,
        transfers: Vec<Transfer>,
    ) -> (tt: MmapTimetable)
        ensures
            tt.routes == routes,
            tt.route_stops == route_stops,
            tt.route_trips == route_trips,
            tt.stops == stops,
            tt.stop_routes == stop_routes,
            tt.trip_stop_times == trip_stop_times,
            tt.transfer_index == transfer_index,
            tt.transfers == transfers,
    {
        MmapTimetable {
            routes,
            route_stops,
            route_trips,
            stops,
            stop_routes,
            trip_stop_times,
            transfer_index,
            transfers,
        }
    }

    /// The timetable with these arrays, and without transfers yet.
    pub fn from_in_memory(
        routes: Vec<Route>,
        route_stops: Vec<RouteStop>,
        route_trips: Vec<Trip>,
        stops: Vec<Stop>,
        stop_routes: Vec<StopRoute>,
        trip_stop_times: Vec<TripStopTime>,
    ) -> (tt: MmapTimetable)
        ensures
            tt.routes == routes,
            tt.route_stops == route_stops,
            tt.route_trips == route_trips,
            tt.stops == stops,
            tt.stop_routes == stop_routes,
            tt.trip_stop_times == trip_stop_times,
            tt.transfer_index@.len() == 0,
            tt.transfers@.len() == 0,
    {
        MmapTimetable::open(
            routes,
            route_stops,
            route_trips,
            stops,
            stop_routes,
            trip_stop_times,
            Vec::new(),
            Vec::new(),
        )
    }

    pub fn route(&self, route_id: usize) -> (route: &Route)
        requires
            route_id < self.routes@.len(),
        ensures
            *route == self.routes@[route_id as int],
    {
        &self.routes[route_id]
    }

    pub fn stop(&self, stop_id: usize) -> (stop: &Stop)
        requires
            stop_id < self.stops@.len(),
        ensures
            *stop == self.stops@[stop_id as int],
    {
        &self.stops[stop_id]
    }

    pub fn stop_count(&self) -> (n: usize)
        ensures
            n == self.stops@.len(),
    {
        self.stops.len()
    }

    /// The stops.
    pub fn stops(&self) -> (entries: &[Stop])
        ensures
            entries@ == self.stops@,
    {
        self.stops.as_slice()
    }

    /// The calls of routes at stops.
    pub fn stop_routes(&self) -> (entries: &[StopRoute])
        ensures
            entries@ == self.stop_routes@,
    {
        self.stop_routes.as_slice()
    }

    /// The routes.
    pub fn routes(&self) -> (entries: &[Route])
        ensures
            entries@ == self.routes@,
    {
        self.routes.as_slice()
    }

    /// The stops of the routes.
    pub fn route_stops(&self) -> (entries: &[RouteStop])
        ensures
            entries@ == self.route_stops@,
    {
        self.route_stops.as_slice()
    }

    /// The trips.
    pub fn route_trips(&self) -> (entries: &[Trip])
        ensures
            entries@ == self.route_trips@,
    {
        self.route_trips.as_slice()
    }

    /// The times of the trips.
    pub fn trip_stop_times(&self) -> (entries: &[TripStopTime])
        ensures
            entries@ == self.trip_stop_times@,
    {
        self.trip_stop_times.as_slice()
    }

    /// The transfers.
    pub fn transfers(&self) -> (entries: &[Transfer])
        ensures
            entries@ == self.transfers@,
    {
        self.transfers.as_slice()
    }

    /// Where the transfers from each stop begin.
    pub fn transfer_index(&self) -> (entries: &[usize])
        ensures
            entries@ == self.transfer_index@,
    {
        self.transfer_index.as_slice()
    }

    /// The transfers that lead away from a stop.
    pub fn transfers_from(&self, stop_id: usize) -> (transfers: &[Transfer])
        requires
            self.transfers_wf(),
            stop_id < self.stops@.len(),
        ensures
            transfers@ == self.transfers_at(stop_id as int),
    {
        assert(self.transfer_run_ok(stop_id as int));
        let begin: usize = self.transfer_index[stop_id];
        let end: usize = if stop_id < self.transfer_index.len() - 1 {
            self.transfer_index[stop_id + 1]
        } else {
            self.transfers.len()
        };
        &self.transfers.as_slice()[begin..end]
    }

    /// The stops of a route.
    pub fn stops_of_route(&self, route_id: usize) -> (stops: &[RouteStop])
        requires
            self.core_wf(),
            route_id < self.routes@.len(),
        ensures
            stops@ == self.stops_of(route_id as int),
    {
        assert(self.route_ok(route_id as int));
        let begin: usize = self.routes[route_id].first_route_stop;
        let end: usize = if route_id < self.routes.len() - 1 {
            self.routes[route_id + 1].first_route_stop
        } else {
            self.route_stops.len()
        };
        &self.route_stops.as_slice()[begin..end]
    }

    /// The trips of a route.
    pub fn trips_of_route(&self, route_id: usize) -> (trips: &[Trip])
        requires
            self.core_wf(),
            route_id < self.routes@.len(),
        ensures
            trips@ == self.trips_of(route_id as int),
    {
        assert(self.route_ok(route_id as int));
        let begin: usize = self.routes[route_id].first_route_trip;
        let end: usize = if route_id < self.routes.len() - 1 {
            self.routes[route_id + 1].first_route_trip
        } else {
            self.route_trips.len()
        };
        &self.route_trips.as_slice()[begin..end]
    }

    /// The routes that call at a stop.
    pub fn routes_of_stop(&self, stop_id: usize) -> (routes: &[StopRoute])
        requires
            self.core_wf(),
            stop_id < self.stops@.len(),
        ensures
            routes@ == self.stop_routes@.subrange(
                self.stops@[stop_id as int].first_stop_route_index as int,
                self.stop_routes_end(stop_id as int),
            ),
    {
        assert(self.stop_ok(stop_id as int));
        let begin: usize = self.stops[stop_id].first_stop_route_index;
        let end: usize = if stop_id < self.stops.len() - 1 {
            self.stops[stop_id + 1].first_stop_route_index
        } else {
            self.stop_routes.len()
        };
        &self.stop_routes.as_slice()[begin..end]
    }

    /// When trip `trip` of route `route` calls at position `seq`.
    pub fn stop_time(&self, route: usize, trip: usize, seq: usize) -> (t: TripStopTime)
        requires
            self.core_wf(),
            route < self.routes@.len(),
            trip < self.n_trips(route as int),
            seq < self.n_stops(route as int),
        ensures
            t == self.time_at(route as int, trip as int, seq as int),
    {
        assert(self.route_ok(route as int));
        assert(self.trip_ok(route as int, trip as int));
        let t: Trip = self.route_trips[self.routes[route].first_route_trip + trip];
        self.trip_stop_times[t.first_trip_stop_time + seq]
    }
}

/// Every stop of a route, every trip and every call stands in the run of the route or stop that it
/// belongs to: no entry is left over. Every entry knows its own number, and every trip has a time
/// for each stop of its route.
pub proof fn lemma_runs_cover(tt: &MmapTimetable, i: int)
    requires
        tt.core_wf(),
    ensures
        0 <= i < tt.route_stops@.len() ==> ({
            let r = tt.route_stops@[i].route_index as int;
            let q = tt.route_stops@[i].stop_seq as int;
            &&& 0 <= r < tt.routes@.len()
            &&& 0 <= q < tt.n_stops(r)
            &&& tt.routes@[r].first_route_stop + q == i
        }),
        0 <= i < tt.route_trips@.len() ==> ({
            let r = tt.route_trips@[i].route_index as int;
            &&& 0 <= r < tt.routes@.len()
            &&& tt.routes@[r].first_route_trip <= i
            &&& i - tt.routes@[r].first_route_trip < tt.n_trips(r)
        }),
        0 <= i < tt.stop_routes@.len() ==> exists|s: int, j: int|
            0 <= s < tt.stops@.len() && 0 <= j < tt.n_stop_routes(s) && #[trigger] tt.stop_route_at(
                s,
                j,
            ) == tt.stop_routes@[i] && tt.stops@[s].first_stop_route_index + j == i,
        0 <= i < tt.routes@.len() ==> tt.routes@[i].route_index == i,
        0 <= i < tt.stops@.len() ==> tt.stops@[i].stop_index == i,
        0 <= i < tt.route_trips@.len() ==> ({
            let trip = tt.route_trips@[i];
            let r = trip.route_index as int;
            &&& trip.trip_index == i
            &&& trip.last_trip_stop_time - trip.first_trip_stop_time == tt.n_stops(r)
            &&& trip.last_trip_stop_time <= tt.trip_stop_times@.len()
            &&& forall|q: int|
                0 <= q < tt.n_stops(r) ==> {
                    let time = #[trigger] tt.trip_stop_times@[trip.first_trip_stop_time + q];
                    time.trip_index == i && time.route_stop_seq == q
                }
        }),
{
    if 0 <= i < tt.routes@.len() {
        assert(tt.route_ok(i));
    }
    if 0 <= i < tt.stops@.len() {
        assert(tt.stop_ok(i));
    }
    if 0 <= i < tt.route_stops@.len() {
        let r = lemma_route_run(tt, i, tt.routes@.len() as int);
        assert(tt.route_stop_ok(r, i - tt.routes@[r].first_route_stop));
    }
    if 0 <= i < tt.route_trips@.len() {
        let r = lemma_trip_run(tt, i, tt.routes@.len() as int);
        let k = i - tt.routes@[r].first_route_trip;
        assert(tt.trip_ok(r, k));
        assert forall|q: int| 0 <= q < tt.n_stops(r) implies {
            let time = #[trigger] tt.trip_stop_times@[tt.route_trips@[i].first_trip_stop_time + q];
            time.trip_index == i && time.route_stop_seq == q
        } by {
            assert(tt.time_ok(r, k, q));
        }
    }
    if 0 <= i < tt.stop_routes@.len() {
        let s = lemma_call_run(tt, i, tt.stops@.len() as int);
        let j = i - tt.stops@[s].first_stop_route_index;
        assert(tt.stop_route_at(s, j) == tt.stop_routes@[i]);
    }
}

proof fn lemma_route_run(tt: &MmapTimetable, i: int, k: int) -> (r: int)
    requires
        tt.core_wf(),
        0 <= i < tt.route_stops@.len(),
        0 < k <= tt.routes@.len(),
        i < tt.route_stops_end(k - 1),
    ensures
        0 <= r < k,
        tt.routes@[r].first_route_stop <= i < tt.route_stops_end(r),
    decreases k,
{
    if tt.routes@[k - 1].first_route_stop <= i {
        k - 1
    } else {
        lemma_route_run(tt, i, k - 1)
    }
}

proof fn lemma_trip_run(tt: &MmapTimetable, i: int, k: int) -> (r: int)
    requires
        tt.core_wf(),
        0 <= i < tt.route_trips@.len(),
        0 < k <= tt.routes@.len(),
        i < tt.route_trips_end(k - 1),
    ensures
        0 <= r < k,
        tt.routes@[r].first_route_trip <= i < tt.route_trips_end(r),
    decreases k,
{
    if tt.routes@[k - 1].first_route_trip <= i {
        k - 1
    } else {
        lemma_trip_run(tt, i, k - 1)
    }
}

proof fn lemma_call_run(tt: &MmapTimetable, i: int, k: int) -> (s: int)
    requires
        tt.core_wf(),
        0 <= i < tt.stop_routes@.len(),
        0 < k <= tt.stops@.len(),
        i < tt.stop_routes_end(k - 1),
    ensures
        0 <= s < k,
        tt.stops@[s].first_stop_route_index <= i < tt.stop_routes_end(s),
    decreases k,
{
    if tt.stops@[k - 1].first_stop_route_index <= i {
        k - 1
    } else {
        lemma_call_run(tt, i, k - 1)
    }
}

} // verus!
