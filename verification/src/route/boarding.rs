//! Which trip of a route to take from a stop, and which stop of a route to board at.

use crate::route::completeness::{call_heeded, lemma_exploring_heeds, marks_move};
use crate::route::context::{Direction, RouterContext};
use crate::timetable::{unmarked, MmapTimetable, RouteStop, StopRoute, Time, Trip, TripStopTime};
use vstd::prelude::*;

verus! {

/// The trip before which those lie that leave position `q` of route `r` before `not_before`, as
/// halving the range of trips finds it.
pub open spec fn halved_by_departure(
    tt: &MmapTimetable,
    r: int,
    q: int,
    not_before: Time,
    low: int,
    high: int,
) -> int
    decreases high - low,
{
    if low >= high {
        low
    } else {
        let mid = low + (high - low) / 2;
        if tt.time_at(r, mid, q).departure_time.epoch_seconds < not_before.epoch_seconds {
            halved_by_departure(tt, r, q, not_before, mid + 1, high)
        } else {
            halved_by_departure(tt, r, q, not_before, low, mid)
        }
    }
}

/// The trip before which those lie that arrive at position `q` of route `r` by `not_after`, as
/// halving the range of trips finds it.
pub open spec fn halved_by_arrival(
    tt: &MmapTimetable,
    r: int,
    q: int,
    not_after: Time,
    low: int,
    high: int,
) -> int
    decreases high - low,
{
    if low >= high {
        low
    } else {
        let mid = low + (high - low) / 2;
        if tt.time_at(r, mid, q).arrival_time.epoch_seconds <= not_after.epoch_seconds {
            halved_by_arrival(tt, r, q, not_after, mid + 1, high)
        } else {
            halved_by_arrival(tt, r, q, not_after, low, mid)
        }
    }
}

/// The trip to take from position `q` of route `r` at `not_before`, if any.
pub open spec fn earliest_trip(tt: &MmapTimetable, r: int, q: int, not_before: Time) -> Option<
    int,
> {
    let i = halved_by_departure(tt, r, q, not_before, 0, tt.n_trips(r));
    if i < tt.n_trips(r) {
        Some(i)
    } else {
        None
    }
}

/// The trip to take so as to be at position `q` of route `r` by `not_after`, if any.
pub open spec fn latest_trip(tt: &MmapTimetable, r: int, q: int, not_after: Time) -> Option<int> {
    let i = halved_by_arrival(tt, r, q, not_after, 0, tt.n_trips(r));
    if i > 0 {
        Some(i - 1)
    } else {
        None
    }
}

/// The last of the first `i` trips of route `r` that arrives at position `q` no later than
/// `not_after`; -1 where there is none.
pub open spec fn last_arrival(
    tt: &MmapTimetable,
    r: int,
    q: int,
    not_after: Time,
    i: int,
) -> int
    decreases i,
{
    if i <= 0 {
        -1
    } else if tt.time_at(r, i - 1, q).arrival_time.epoch_seconds <= not_after.epoch_seconds {
        i - 1
    } else {
        last_arrival(tt, r, q, not_after, i - 1)
    }
}

proof fn lemma_halved_by_departure(
    tt: &MmapTimetable,
    r: int,
    q: int,
    not_before: Time,
    low: int,
    high: int,
)
    requires
        0 <= low <= high,
    ensures
        ({
            let p = halved_by_departure(tt, r, q, not_before, low, high);
            &&& low <= p <= high
            &&& p < high ==> tt.time_at(r, p, q).departure_time.epoch_seconds
                >= not_before.epoch_seconds
            &&& p > low ==> tt.time_at(r, p - 1, q).departure_time.epoch_seconds
                < not_before.epoch_seconds
        }),
    decreases high - low,
{
    if low < high {
        let mid = low + (high - low) / 2;
        if tt.time_at(r, mid, q).departure_time.epoch_seconds < not_before.epoch_seconds {
            lemma_halved_by_departure(tt, r, q, not_before, mid + 1, high);
        } else {
            lemma_halved_by_departure(tt, r, q, not_before, low, mid);
        }
    }
}

proof fn lemma_halved_by_arrival(
    tt: &MmapTimetable,
    r: int,
    q: int,
    not_after: Time,
    low: int,
    high: int,
)
    requires
        0 <= low <= high,
    ensures
        ({
            let p = halved_by_arrival(tt, r, q, not_after, low, high);
            &&& low <= p <= high
            &&& p < high ==> tt.time_at(r, p, q).arrival_time.epoch_seconds
                > not_after.epoch_seconds
            &&& p > low ==> tt.time_at(r, p - 1, q).arrival_time.epoch_seconds
                <= not_after.epoch_seconds
        }),
    decreases high - low,
{
    if low < high {
        let mid = low + (high - low) / 2;
        if tt.time_at(r, mid, q).arrival_time.epoch_seconds <= not_after.epoch_seconds {
            lemma_halved_by_arrival(tt, r, q, not_after, mid + 1, high);
        } else {
            lemma_halved_by_arrival(tt, r, q, not_after, low, mid);
        }
    }
}

/// The trips of route `r` leave position `q` in order.
pub open spec fn leave_in_order(tt: &MmapTimetable, r: int, q: int) -> bool {
    forall|i: int, k: int|
        0 <= i <= k < tt.n_trips(r) ==> (#[trigger] tt.time_at(
            r,
            i,
            q,
        )).departure_time.epoch_seconds <= (#[trigger] tt.time_at(
            r,
            k,
            q,
        )).departure_time.epoch_seconds
}

/// The trips of route `r` arrive at position `q` in order.
pub open spec fn arrive_in_order(tt: &MmapTimetable, r: int, q: int) -> bool {
    forall|i: int, k: int|
        0 <= i <= k < tt.n_trips(r) ==> (#[trigger] tt.time_at(
            r,
            i,
            q,
        )).arrival_time.epoch_seconds <= (#[trigger] tt.time_at(
            r,
            k,
            q,
        )).arrival_time.epoch_seconds
}

/// Where no trip overtakes another, the trips of a route arrive at every position, and leave it, in
/// order.
pub proof fn lemma_trips_in_order(tt: &MmapTimetable, r: int, q: int)
    requires
        tt.trips_in_order(),
        0 <= r < tt.routes@.len(),
        0 <= q < tt.n_stops(r),
    ensures
        leave_in_order(tt, r, q),
        arrive_in_order(tt, r, q),
{
    assert forall|i: int, k: int| 0 <= i <= k < tt.n_trips(r) implies (#[trigger] tt.time_at(
        r,
        i,
        q,
    )).departure_time.epoch_seconds <= (#[trigger] tt.time_at(r, k, q)).departure_time.epoch_seconds
        && tt.time_at(r, i, q).arrival_time.epoch_seconds <= tt.time_at(
        r,
        k,
        q,
    ).arrival_time.epoch_seconds by {
        assert(tt.in_order(r, i, k, q));
    }
}

/// `found` is the first trip of route `r` that leaves position `q` no earlier than `not_before`, or
/// none where there is none.
pub open spec fn first_to_leave(
    tt: &MmapTimetable,
    r: int,
    q: int,
    not_before: Time,
    found: Option<int>,
) -> bool {
    &&& found matches Some(i) ==> {
        &&& 0 <= i < tt.n_trips(r)
        &&& tt.time_at(r, i, q).departure_time.epoch_seconds >= not_before.epoch_seconds
    }
    &&& forall|k: int|
        0 <= k < tt.n_trips(r) && (found matches Some(i) ==> k < i) ==> (#[trigger] tt.time_at(
            r,
            k,
            q,
        )).departure_time.epoch_seconds < not_before.epoch_seconds
}

/// `found` is the last trip of route `r` that arrives at position `q` no later than `not_after`, or
/// none where there is none.
pub open spec fn last_to_arrive(
    tt: &MmapTimetable,
    r: int,
    q: int,
    not_after: Time,
    found: Option<int>,
) -> bool {
    &&& found matches Some(i) ==> {
        &&& 0 <= i < tt.n_trips(r)
        &&& tt.time_at(r, i, q).arrival_time.epoch_seconds <= not_after.epoch_seconds
    }
    &&& forall|k: int|
        0 <= k < tt.n_trips(r) && (found matches Some(i) ==> k > i) ==> (#[trigger] tt.time_at(
            r,
            k,
            q,
        )).arrival_time.epoch_seconds > not_after.epoch_seconds
}

/// A trip that is found can be caught: it does not leave before `not_before`. Where the trips leave
/// this position in order, it is the first such trip, and none is found only where there is none.
pub proof fn lemma_earliest_trip(tt: &MmapTimetable, r: int, q: int, not_before: Time)
    requires
        0 <= r < tt.routes@.len(),
        0 <= tt.n_trips(r),
        0 <= q < tt.n_stops(r),
    ensures
        earliest_trip(tt, r, q, not_before) matches Some(i) ==> {
            &&& 0 <= i < tt.n_trips(r)
            &&& tt.time_at(r, i, q).departure_time.epoch_seconds >= not_before.epoch_seconds
        },
        leave_in_order(tt, r, q) ==> first_to_leave(
            tt,
            r,
            q,
            not_before,
            earliest_trip(tt, r, q, not_before),
        ),
{
    let n = tt.n_trips(r);
    lemma_halved_by_departure(tt, r, q, not_before, 0, n);
    let p = halved_by_departure(tt, r, q, not_before, 0, n);
    if leave_in_order(tt, r, q) {
        assert forall|k: int| 0 <= k < p implies (#[trigger] tt.time_at(
            r,
            k,
            q,
        )).departure_time.epoch_seconds < not_before.epoch_seconds by {
            assert(tt.time_at(r, p - 1, q).departure_time.epoch_seconds
                < not_before.epoch_seconds);
        }
    }
}

/// A trip that is found arrives in time. Where the trips arrive at this position in order, it is
/// the last such trip, and none is found only where there is none.
pub proof fn lemma_latest_trip(tt: &MmapTimetable, r: int, q: int, not_after: Time)
    requires
        0 <= r < tt.routes@.len(),
        0 <= tt.n_trips(r),
        0 <= q < tt.n_stops(r),
    ensures
        latest_trip(tt, r, q, not_after) matches Some(i) ==> {
            &&& 0 <= i < tt.n_trips(r)
            &&& tt.time_at(r, i, q).arrival_time.epoch_seconds <= not_after.epoch_seconds
        },
        arrive_in_order(tt, r, q) ==> last_to_arrive(
            tt,
            r,
            q,
            not_after,
            latest_trip(tt, r, q, not_after),
        ),
{
    let n = tt.n_trips(r);
    lemma_halved_by_arrival(tt, r, q, not_after, 0, n);
    let p = halved_by_arrival(tt, r, q, not_after, 0, n);
    if arrive_in_order(tt, r, q) {
        assert forall|k: int| p <= k < n implies (#[trigger] tt.time_at(
            r,
            k,
            q,
        )).arrival_time.epoch_seconds > not_after.epoch_seconds by {
            assert(tt.time_at(r, p, q).arrival_time.epoch_seconds > not_after.epoch_seconds);
        }
    }
}

/// The trip of route `r` to take from position `q` at `not_before`.
pub fn find_earliest_trip(tt: &MmapTimetable, r: usize, q: usize, not_before: Time) -> (found:
    Option<usize>)
    requires
        tt.wf(),
        r < tt.routes@.len(),
        q < tt.n_stops(r as int),
    ensures
        found is Some <==> earliest_trip(tt, r as int, q as int, not_before) is Some,
        found matches Some(i) ==> earliest_trip(tt, r as int, q as int, not_before) == Some(
            i as int,
        ) && i < tt.n_trips(r as int),
{
    assert(tt.route_ok(r as int));
    let n: usize = tt.trips_of_route(r).len();
    let mut low: usize = 0;
    let mut high: usize = n;
    while low < high
        invariant
            tt.wf(),
            r < tt.routes@.len(),
            q < tt.n_stops(r as int),
            n == tt.n_trips(r as int),
            low <= high <= n,
            halved_by_departure(tt, r as int, q as int, not_before, 0, n as int)
                == halved_by_departure(
                tt,
                r as int,
                q as int,
                not_before,
                low as int,
                high as int,
            ),
        decreases high - low,
    {
        let mid: usize = low + (high - low) / 2;
        let t: TripStopTime = tt.stop_time(r, mid, q);
        if t.departure_time.epoch_seconds < not_before.epoch_seconds {
            low = mid + 1;
        } else {
            high = mid;
        }
    }
    if low >= n {
        None
    } else {
        Some(low)
    }
}

/// The trip of route `r` to take so as to be at position `q` by `not_after`.
pub fn find_latest_trip(tt: &MmapTimetable, r: usize, q: usize, not_after: Time) -> (found: Option<
    usize,
>)
    requires
        tt.wf(),
        r < tt.routes@.len(),
        q < tt.n_stops(r as int),
    ensures
        found is Some <==> latest_trip(tt, r as int, q as int, not_after) is Some,
        found matches Some(i) ==> latest_trip(tt, r as int, q as int, not_after) == Some(i as int)
            && i < tt.n_trips(r as int),
{
    assert(tt.route_ok(r as int));
    let n: usize = tt.trips_of_route(r).len();
    let mut low: usize = 0;
    let mut high: usize = n;
    while low < high
        invariant
            tt.wf(),
            r < tt.routes@.len(),
            q < tt.n_stops(r as int),
            n == tt.n_trips(r as int),
            low <= high <= n,
            halved_by_arrival(tt, r as int, q as int, not_after, 0, n as int) == halved_by_arrival(
                tt,
                r as int,
                q as int,
                not_after,
                low as int,
                high as int,
            ),
        decreases high - low,
    {
        let mid: usize = low + (high - low) / 2;
        let t: TripStopTime = tt.stop_time(r, mid, q);
        if t.arrival_time.epoch_seconds <= not_after.epoch_seconds {
            low = mid + 1;
        } else {
            high = mid;
        }
    }
    if low == 0 {
        None
    } else {
        Some(low - 1)
    }
}

impl<'a> RouterContext<'a> {
    /// The trip to take from `route_stop` at `not_before`: the first that leaves no earlier, where
    /// the trips leave there in order.
    pub fn earliest_trip_from(&self, route_stop: &RouteStop, not_before: &Time) -> (trip: Option<
        Trip,
    >)
        requires
            self.timetable.wf(),
            route_stop.route_index < self.timetable.routes@.len(),
            route_stop.stop_seq < self.timetable.n_stops(route_stop.route_index as int),
        ensures
            trip == match earliest_trip(
                self.timetable,
                route_stop.route_index as int,
                route_stop.stop_seq as int,
                *not_before,
            ) {
                Some(i) => Some(self.timetable.trip_at(route_stop.route_index as int, i)),
                None => None,
            },
            leave_in_order(
                self.timetable,
                route_stop.route_index as int,
                route_stop.stop_seq as int,
            ) ==> first_to_leave(
                self.timetable,
                route_stop.route_index as int,
                route_stop.stop_seq as int,
                *not_before,
                earliest_trip(
                    self.timetable,
                    route_stop.route_index as int,
                    route_stop.stop_seq as int,
                    *not_before,
                ),
            ),
    {
        let tt: &MmapTimetable = self.timetable;
        assert(tt.route_ok(route_stop.route_index as int));
        proof {
            lemma_earliest_trip(
                tt,
                route_stop.route_index as int,
                route_stop.stop_seq as int,
                *not_before,
            );
        }
        match find_earliest_trip(tt, route_stop.route_index, route_stop.stop_seq, *not_before) {
            None => None,
            Some(i) => Some(tt.trips_of_route(route_stop.route_index)[i]),
        }
    }

    /// The trip to take so as to be at `route_stop` by `not_after`: the last that arrives no later,
    /// where the trips arrive there in order.
    pub fn latest_trip_arriving_by(&self, route_stop: &RouteStop, not_after: &Time) -> (trip:
        Option<Trip>)
        requires
            self.timetable.wf(),
            route_stop.route_index < self.timetable.routes@.len(),
            route_stop.stop_seq < self.timetable.n_stops(route_stop.route_index as int),
        ensures
            trip == match latest_trip(
                self.timetable,
                route_stop.route_index as int,
                route_stop.stop_seq as int,
                *not_after,
            ) {
                Some(i) => Some(self.timetable.trip_at(route_stop.route_index as int, i)),
                None => None,
            },
            arrive_in_order(
                self.timetable,
                route_stop.route_index as int,
                route_stop.stop_seq as int,
            ) ==> last_to_arrive(
                self.timetable,
                route_stop.route_index as int,
                route_stop.stop_seq as int,
                *not_after,
                latest_trip(
                    self.timetable,
                    route_stop.route_index as int,
                    route_stop.stop_seq as int,
                    *not_after,
                ),
            ),
    {
        let tt: &MmapTimetable = self.timetable;
        assert(tt.route_ok(route_stop.route_index as int));
        proof {
            lemma_latest_trip(
                tt,
                route_stop.route_index as int,
                route_stop.stop_seq as int,
                *not_after,
            );
        }
        match find_latest_trip(tt, route_stop.route_index, route_stop.stop_seq, *not_after) {
            None => None,
            Some(i) => Some(tt.trips_of_route(route_stop.route_index)[i]),
        }
    }
}

/// Whether boarding at `a` is preferred to boarding at `b`: it leaves earlier, or at the same
/// time from further along the route.
pub open spec fn boards_before(a: TripStopTime, b: TripStopTime) -> bool {
    ||| a.departure_time.epoch_seconds < b.departure_time.epoch_seconds
    ||| a.departure_time == b.departure_time && a.route_stop_seq > b.route_stop_seq
}

/// The mark of an unmarked route after its trips from trip `i` on were tried at position `q`:
/// the first that can be caught and is preferred to the mark `m`.
pub open spec fn first_catch(
    tt: &MmapTimetable,
    r: int,
    q: int,
    not_before: Time,
    m: TripStopTime,
    i: int,
) -> TripStopTime
    decreases tt.n_trips(r) - i,
{
    if i >= tt.n_trips(r) {
        m
    } else {
        let t = tt.time_at(r, i, q);
        if t.departure_time.epoch_seconds >= not_before.epoch_seconds && boards_before(t, m) {
            t
        } else {
            first_catch(tt, r, q, not_before, m, i + 1)
        }
    }
}

/// The mark of a route marked with `m` after its first `i` trips were tried at position `q`,
/// the last of them first, until one leaves too early.
pub open spec fn earlier_catch(
    tt: &MmapTimetable,
    r: int,
    q: int,
    not_before: Time,
    m: TripStopTime,
    i: int,
) -> TripStopTime
    decreases i,
{
    if i <= 0 {
        m
    } else {
        let t = tt.time_at(r, i - 1, q);
        if t.departure_time.epoch_seconds < not_before.epoch_seconds {
            m
        } else {
            earlier_catch(
                tt,
                r,
                q,
                not_before,
                if boards_before(t, m) {
                    t
                } else {
                    m
                },
                i - 1,
            )
        }
    }
}

/// Whether alighting at `a` is preferred to alighting at `b`: it is nearer to the end of the
/// route, or in the same place and later.
pub open spec fn alights_after(a: TripStopTime, b: TripStopTime) -> bool {
    ||| b.trip_index == usize::MAX
    ||| a.route_stop_seq > b.route_stop_seq
    ||| a.route_stop_seq == b.route_stop_seq && a.arrival_time.epoch_seconds
        > b.arrival_time.epoch_seconds
}

/// The mark of a route, `m` before, after one of its calls at a stop was followed.
pub open spec fn followed(
    dir: Direction,
    tt: &MmapTimetable,
    m: TripStopTime,
    sr: StopRoute,
    time: Time,
) -> TripStopTime {
    let r = sr.route_index as int;
    let q = sr.stop_seq as int;
    match dir {
        Direction::Forward => if m.trip_index == usize::MAX {
            first_catch(tt, r, q, time, m, 0)
        } else {
            earlier_catch(
                tt,
                r,
                q,
                time,
                m,
                m.trip_index - tt.routes@[r].first_route_trip + 1,
            )
        },
        Direction::Backward => {
            let i = last_arrival(tt, r, q, time, tt.n_trips(r));
            if i >= 0 && alights_after(tt.time_at(r, i, q), m) {
                tt.time_at(r, i, q)
            } else {
                m
            }
        },
    }
}

/// The marks of all routes after the first `j` calls of routes at stop `s` were followed.
pub open spec fn explored(
    dir: Direction,
    tt: &MmapTimetable,
    marks: Seq<TripStopTime>,
    s: int,
    time: Time,
    j: int,
) -> Seq<TripStopTime>
    decreases j,
{
    if j <= 0 {
        marks
    } else {
        let before = explored(dir, tt, marks, s, time, j - 1);
        let sr = tt.stop_route_at(s, j - 1);
        let r = sr.route_index as int;
        before.update(r, followed(dir, tt, before[r], sr, time))
    }
}

/// The mark of route `r`: none, or one of the stop times of its trips.
pub open spec fn mark_ok(tt: &MmapTimetable, r: int, m: TripStopTime) -> bool {
    ||| m == unmarked()
    ||| {
        &&& tt.routes@[r].first_route_trip <= m.trip_index < tt.route_trips_end(r)
        &&& m.route_stop_seq < tt.n_stops(r)
        &&& m == tt.time_at(
            r,
            m.trip_index - tt.routes@[r].first_route_trip,
            m.route_stop_seq as int,
        )
    }
}

pub open spec fn marks_ok(tt: &MmapTimetable, marks: Seq<TripStopTime>) -> bool {
    &&& marks.len() == tt.routes@.len()
    &&& forall|r: int| 0 <= r < marks.len() ==> mark_ok(tt, r, #[trigger] marks[r])
}

fn prefers_boarding(a: &TripStopTime, b: &TripStopTime) -> (p: bool)
    ensures
        p == boards_before(*a, *b),
{
    a.departure_time.epoch_seconds < b.departure_time.epoch_seconds || (
    a.departure_time.epoch_seconds == b.departure_time.epoch_seconds && a.route_stop_seq
        > b.route_stop_seq)
}

/// Stop times of a route's trips are marks of that route.
pub proof fn lemma_time_is_mark(tt: &MmapTimetable, r: int, i: int, q: int)
    requires
        tt.core_wf(),
        0 <= r < tt.routes@.len(),
        0 <= i < tt.n_trips(r),
        0 <= q < tt.n_stops(r),
    ensures
        mark_ok(tt, r, tt.time_at(r, i, q)),
        tt.time_at(r, i, q).trip_index == tt.routes@[r].first_route_trip + i,
        tt.time_at(r, i, q).trip_index != usize::MAX,
        tt.time_at(r, i, q).route_stop_seq == q,
{
    assert(tt.route_ok(r));
    assert(tt.time_ok(r, i, q));
    assert(tt.route_trips@.len() == tt.route_trips.len());
}

/// `mark` is when a trip of route `r` leaves position `q`, no earlier than `not_before`.
pub open spec fn caught(
    tt: &MmapTimetable,
    r: int,
    mark: TripStopTime,
    q: int,
    not_before: Time,
) -> bool {
    &&& mark.route_stop_seq == q
    &&& mark.departure_time.epoch_seconds >= not_before.epoch_seconds
    &&& mark.trip_index != usize::MAX
}

/// Follows one call of a route at a stop that was reached at `not_before`.
fn follow_forward(tt: &MmapTimetable, m: TripStopTime, sr: StopRoute, not_before: Time) -> (mark:
    TripStopTime)
    requires
        tt.core_wf(),
        sr.route_index < tt.routes@.len(),
        sr.stop_seq < tt.n_stops(sr.route_index as int),
        mark_ok(tt, sr.route_index as int, m),
    ensures
        mark == followed(Direction::Forward, tt, m, sr, not_before),
        mark_ok(tt, sr.route_index as int, mark),
        mark == m || caught(tt, sr.route_index as int, mark, sr.stop_seq as int, not_before),
{
    let r: usize = sr.route_index;
    let q: usize = sr.stop_seq;
    assert(tt.route_ok(r as int));
    let n: usize = tt.trips_of_route(r).len();
    if m.trip_index == usize::MAX {
        let mut i: usize = 0;
        while i < n
            invariant
                tt.core_wf(),
                r < tt.routes@.len(),
                q < tt.n_stops(r as int),
                n == tt.n_trips(r as int),
                i <= n,
                first_catch(tt, r as int, q as int, not_before, m, 0) == first_catch(
                    tt,
                    r as int,
                    q as int,
                    not_before,
                    m,
                    i as int,
                ),
                sr.route_index == r,
                sr.stop_seq == q,
                m.trip_index == usize::MAX,
            decreases n - i,
        {
            let t: TripStopTime = tt.stop_time(r, i, q);
            if t.departure_time.epoch_seconds >= not_before.epoch_seconds && prefers_boarding(
                &t,
                &m,
            ) {
                proof {
                    lemma_time_is_mark(tt, r as int, i as int, q as int);
                }
                return t;
            }
            i = i + 1;
        }
        m
    } else {
        let mut mark: TripStopTime = m;
        let mut i: usize = m.trip_index - tt.routes[r].first_route_trip + 1;
        let ghost i0 = i as int;
        while i > 0
            invariant
                tt.core_wf(),
                r < tt.routes@.len(),
                q < tt.n_stops(r as int),
                i <= i0 <= tt.n_trips(r as int),
                earlier_catch(tt, r as int, q as int, not_before, m, i0) == earlier_catch(
                    tt,
                    r as int,
                    q as int,
                    not_before,
                    mark,
                    i as int,
                ),
                mark_ok(tt, r as int, mark),
                mark == m || caught(tt, r as int, mark, q as int, not_before),
                sr.route_index == r,
                sr.stop_seq == q,
                i0 == m.trip_index - tt.routes@[r as int].first_route_trip + 1,
                m.trip_index != usize::MAX,
            decreases i,
        {
            let t: TripStopTime = tt.stop_time(r, i - 1, q);
            if t.departure_time.epoch_seconds < not_before.epoch_seconds {
                return mark;
            }
            if prefers_boarding(&t, &mark) {
                proof {
                    lemma_time_is_mark(tt, r as int, i - 1, q as int);
                }
                mark = t;
            }
            i = i - 1;
        }
        mark
    }
}

/// Follows one call of a route at a stop that has to be left at `not_after`.
fn follow_backward(tt: &MmapTimetable, m: TripStopTime, sr: StopRoute, not_after: Time) -> (mark:
    TripStopTime)
    requires
        tt.core_wf(),
        sr.route_index < tt.routes@.len(),
        sr.stop_seq < tt.n_stops(sr.route_index as int),
        mark_ok(tt, sr.route_index as int, m),
    ensures
        mark == followed(Direction::Backward, tt, m, sr, not_after),
        mark_ok(tt, sr.route_index as int, mark),
        mark == m || mark.trip_index != usize::MAX && alights_after(mark, m),
{
    let r: usize = sr.route_index;
    let q: usize = sr.stop_seq;
    assert(tt.route_ok(r as int));
    let n: usize = tt.trips_of_route(r).len();
    let mut i: usize = n;
    while i > 0
        invariant
            tt.core_wf(),
            r < tt.routes@.len(),
            q < tt.n_stops(r as int),
            n == tt.n_trips(r as int),
            i <= n,
            last_arrival(tt, r as int, q as int, not_after, n as int) == last_arrival(
                tt,
                r as int,
                q as int,
                not_after,
                i as int,
            ),
            sr.route_index == r,
            sr.stop_seq == q,
            mark_ok(tt, sr.route_index as int, m),
        decreases i,
    {
        let t: TripStopTime = tt.stop_time(r, i - 1, q);
        if t.arrival_time.epoch_seconds <= not_after.epoch_seconds {
            if m.trip_index == usize::MAX || t.route_stop_seq > m.route_stop_seq || (
            t.route_stop_seq == m.route_stop_seq && t.arrival_time.epoch_seconds
                > m.arrival_time.epoch_seconds) {
                proof {
                    lemma_time_is_mark(tt, r as int, i - 1, q as int);
                }
                return t;
            }
            return m;
        }
        i = i - 1;
    }
    m
}

/// `mark` is when a trip of route `r` leaves stop `stop`, no earlier than `not_before`.
pub open spec fn caught_at(
    tt: &MmapTimetable,
    r: int,
    mark: TripStopTime,
    stop: int,
    not_before: Time,
) -> bool {
    &&& caught(tt, r, mark, mark.route_stop_seq as int, not_before)
    &&& tt.stop_at(r, mark.route_stop_seq as int).stop_index == stop
}

fn explore(
    dir: Direction,
    tt: &MmapTimetable,
    marked_routes: &mut Vec<TripStopTime>,
    marked_stop: usize,
    time: Time,
)
    requires
        tt.core_wf(),
        marked_stop < tt.stops@.len(),
        marks_ok(tt, old(marked_routes)@),
    ensures
        final(marked_routes)@ == explored(
            dir,
            tt,
            old(marked_routes)@,
            marked_stop as int,
            time,
            tt.n_stop_routes(marked_stop as int),
        ),
        marks_ok(tt, final(marked_routes)@),
        dir == Direction::Forward ==> forall|r: int|
            0 <= r < tt.routes@.len() ==> #[trigger] final(marked_routes)@[r] == old(
                marked_routes,
            )@[r] || caught_at(tt, r, final(marked_routes)@[r], marked_stop as int, time),
        dir == Direction::Backward ==> forall|r: int|
            0 <= r < tt.routes@.len() ==> #[trigger] final(marked_routes)@[r] == old(
                marked_routes,
            )@[r] || final(marked_routes)@[r].trip_index != usize::MAX && alights_after(
                final(marked_routes)@[r],
                old(marked_routes)@[r],
            ),
{
    assert(tt.stop_ok(marked_stop as int));
    let calls: &[StopRoute] = tt.routes_of_stop(marked_stop);
    let mut j: usize = 0;
    while j < calls.len()
        invariant
            tt.core_wf(),
            marked_stop < tt.stops@.len(),
            j <= calls@.len() == tt.n_stop_routes(marked_stop as int),
            calls@ == tt.stop_routes@.subrange(
                tt.stops@[marked_stop as int].first_stop_route_index as int,
                tt.stop_routes_end(marked_stop as int),
            ),
            marks_ok(tt, marked_routes@),
            marks_ok(tt, old(marked_routes)@),
            dir == Direction::Forward ==> forall|r: int|
                0 <= r < tt.routes@.len() ==> #[trigger] marked_routes@[r] == old(
                    marked_routes,
                )@[r] || caught_at(tt, r, marked_routes@[r], marked_stop as int, time),
            dir == Direction::Backward ==> forall|r: int|
                0 <= r < tt.routes@.len() ==> #[trigger] marked_routes@[r] == old(
                    marked_routes,
                )@[r] || marked_routes@[r].trip_index != usize::MAX && alights_after(
                    marked_routes@[r],
                    old(marked_routes)@[r],
                ),
            marked_routes@ == explored(
                dir,
                tt,
                old(marked_routes)@,
                marked_stop as int,
                time,
                j as int,
            ),
        decreases calls@.len() - j,
    {
        let sr: StopRoute = calls[j];
        assert(tt.stop_ok(marked_stop as int));
        assert(tt.stop_route_ok(marked_stop as int, j as int));
        assert(sr == tt.stop_route_at(marked_stop as int, j as int));
        let m: TripStopTime = marked_routes[sr.route_index];
        let mark: TripStopTime = match dir {
            Direction::Forward => follow_forward(tt, m, sr, time),
            Direction::Backward => follow_backward(tt, m, sr, time),
        };
        marked_routes[sr.route_index] = mark;
        j = j + 1;
    }
}

impl<'a> RouterContext<'a> {
    /// Marks, for every route that calls at a stop reached at `not_before`, the best stop time
    /// to board at.
    pub fn explore_routes_for_marked_stop(
        timetable: &MmapTimetable,
        marked_routes: &mut Vec<TripStopTime>,
        marked_stop: usize,
        not_before: &Time,
    )
        requires
            timetable.core_wf(),
            marked_stop < timetable.stops@.len(),
            marks_ok(timetable, old(marked_routes)@),
        ensures
            final(marked_routes)@ == explored(
                Direction::Forward,
                timetable,
                old(marked_routes)@,
                marked_stop as int,
                *not_before,
                timetable.n_stop_routes(marked_stop as int),
            ),
            marks_ok(timetable, final(marked_routes)@),
            forall|r: int|
                0 <= r < timetable.routes@.len() ==> #[trigger] final(marked_routes)@[r] == old(
                    marked_routes,
                )@[r] || caught_at(
                    timetable,
                    r,
                    final(marked_routes)@[r],
                    marked_stop as int,
                    *not_before,
                ),
            marks_move(Direction::Forward, old(marked_routes)@, final(marked_routes)@),
            forall|j: int|
                0 <= j < timetable.n_stop_routes(marked_stop as int) ==> #[trigger] call_heeded(
                    Direction::Forward,
                    timetable,
                    final(marked_routes)@,
                    marked_stop as int,
                    j,
                    not_before.epoch_seconds as int,
                ),
    {
        proof {
            assert(timetable.stop_ok(marked_stop as int));
            lemma_exploring_heeds(
                Direction::Forward,
                timetable,
                marked_routes@,
                marked_stop as int,
                *not_before,
                timetable.n_stop_routes(marked_stop as int),
            );
        }
        explore(Direction::Forward, timetable, marked_routes, marked_stop, *not_before);
    }

    /// Marks, for every route that calls at a stop that has to be left at `not_after`, the best
    /// stop time to alight at.
    pub fn explore_routes_for_marked_stop_backward(
        timetable: &MmapTimetable,
        marked_routes: &mut Vec<TripStopTime>,
        marked_stop: usize,
        not_after: &Time,
    )
        requires
            timetable.core_wf(),
            marked_stop < timetable.stops@.len(),
            marks_ok(timetable, old(marked_routes)@),
        ensures
            final(marked_routes)@ == explored(
                Direction::Backward,
                timetable,
                old(marked_routes)@,
                marked_stop as int,
                *not_after,
                timetable.n_stop_routes(marked_stop as int),
            ),
            marks_ok(timetable, final(marked_routes)@),
            forall|r: int|
                0 <= r < timetable.routes@.len() ==> #[trigger] final(marked_routes)@[r] == old(
                    marked_routes,
                )@[r] || final(marked_routes)@[r].trip_index != usize::MAX && alights_after(
                    final(marked_routes)@[r],
                    old(marked_routes)@[r],
                ),
            marks_move(Direction::Backward, old(marked_routes)@, final(marked_routes)@),
            forall|j: int|
                0 <= j < timetable.n_stop_routes(marked_stop as int) ==> #[trigger] call_heeded(
                    Direction::Backward,
                    timetable,
                    final(marked_routes)@,
                    marked_stop as int,
                    j,
                    not_after.epoch_seconds as int,
                ),
    {
        proof {
            assert(timetable.stop_ok(marked_stop as int));
            lemma_exploring_heeds(
                Direction::Backward,
                timetable,
                marked_routes@,
                marked_stop as int,
                *not_after,
                timetable.n_stop_routes(marked_stop as int),
            );
        }
        explore(Direction::Backward, timetable, marked_routes, marked_stop, *not_after);
    }
}

} // verus!
