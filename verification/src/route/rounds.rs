//! One round of the search: rides from the stops that the round before reached, then walks from
//! the stops that the rides reached.

use crate::route::boarding::{
    earliest_trip, explored, find_earliest_trip, find_latest_trip, latest_trip, lemma_earliest_trip,
    lemma_latest_trip, mark_ok, marks_ok,
};
use crate::route::completeness::{lemma_round_misses_nothing, nothing_missed};
use crate::route::context::{
    entry_ok, kept, log_ok, record, recorded, rows, state_ok, step_of, Direction,
    InternalItinerary, InternalStep, InternalStepLocation, RouterContext, SearchState, StopMark,
};
use crate::route::journeys::{
    continues, lemma_feasible_push, on_trip, ride_connects, rides, sound, starts, walks,
    well_shaped,
};
use crate::route::progress::{
    fresh, fresh_entry, lemma_riding, lemma_walking, no_later, riding, walking, weight,
};
use crate::sorting::{lemma_stable_order_unique, sort_order, stable_order};
use crate::timetable::{
    unmarked, MmapTimetable, Route, RouteStop, Stop, Time, Transfer, Trip, TripStopTime,
};
use vstd::prelude::*;

verus! {

/// The search with rows for round `round` and the one after it: new rows repeat the last one,
/// with no stop marked.
pub open spec fn extended(n: nat, s: SearchState, round: int) -> SearchState {
    let len = if s.best.len() < round + 2 {
        (round + 2) as nat
    } else {
        s.best.len()
    };
    SearchState {
        best: Seq::new(
            len,
            |r: int|
                if r < s.best.len() {
                    s.best[r]
                } else {
                    s.best.last()
                },
        ),
        marks: Seq::new(
            len,
            |r: int|
                if r < s.marks.len() {
                    s.marks[r]
                } else {
                    Seq::new(n, |i: int| StopMark::Unmarked)
                },
        ),
        ..s
    }
}

/// The marks of the routes after the first `k` stops were looked at: those that the round before
/// marked have their routes explored.
pub open spec fn collected(
    dir: Direction,
    tt: &MmapTimetable,
    s: SearchState,
    round: int,
    k: int,
) -> Seq<TripStopTime>
    decreases k,
{
    if k <= 0 {
        Seq::new(tt.routes@.len(), |r: int| unmarked())
    } else {
        let before = collected(dir, tt, s, round, k - 1);
        if s.marks[round - 1][k - 1] == StopMark::Marked {
            explored(
                dir,
                tt,
                before,
                k - 1,
                s.best[round - 1][k - 1]->0.final_time,
                tt.n_stop_routes(k - 1),
            )
        } else {
            before
        }
    }
}

/// A row of marks after the routes of its first `k` stops were explored.
pub open spec fn demoted(row: Seq<StopMark>, k: int) -> Seq<StopMark> {
    Seq::new(
        row.len(),
        |i: int|
            if i < k && row[i] == StopMark::Marked {
                StopMark::MarkedForTransfersOnly
            } else {
                row[i]
            },
    )
}

/// The search once the routes of the stops that the round before marked were explored.
pub open spec fn after_exploring(s: SearchState, round: int) -> SearchState {
    SearchState {
        marks: s.marks.update(
            round - 1,
            demoted(s.marks[round - 1], s.marks[round - 1].len() as int),
        ),
        ..s
    }
}

/// By how far along a route it is marked.
pub open spec fn scan_keys(marks: Seq<TripStopTime>) -> Seq<u64> {
    Seq::new(marks.len(), |r: int| marks[r].route_stop_seq as u64)
}

/// The order in which routes are scanned: those marked nearer to their start first.
pub open spec fn scan_order(marks: Seq<TripStopTime>) -> Seq<usize> {
    choose|order: Seq<usize>| stable_order(scan_keys(marks), order)
}

/// The scan of a route back: the search, the ride taken, as a trip and the position where one
/// alights from it, and whether a stop was reached.
#[verifier::ext_equal]
pub struct Scan {
    pub s: SearchState,
    pub ride: Option<(int, int)>,
    pub any: bool,
}

/// The last position, before `q`, at which route `r` calls at `stop`; -1 where there is none.
pub open spec fn last_call(tt: &MmapTimetable, r: int, stop: usize, q: int) -> int
    decreases q,
{
    if q <= 0 || tt.stop_at(r, q - 1).stop_index == stop {
        q - 1
    } else {
        last_call(tt, r, stop, q - 1)
    }
}

/// The stop at which route `r` is marked by `m`.
pub open spec fn marked_stop(tt: &MmapTimetable, r: int, m: TripStopTime) -> usize {
    tt.stop_at(r, m.route_stop_seq as int).stop_index
}

/// The ride on trip `i` of route `r` from position `qs` to position `q`.
pub open spec fn ride_to(
    tt: &MmapTimetable,
    round: int,
    r: int,
    i: int,
    qs: int,
    q: int,
    previous_step: usize,
) -> InternalStep {
    step_of(
        previous_step,
        round as usize,
        InternalStepLocation::Stop(tt.stop_at(r, qs).stop_index),
        InternalStepLocation::Stop(tt.stop_at(r, q).stop_index),
        Some(tt.routes@[r]),
        tt.time_at(r, i, qs).departure_time,
        tt.time_at(r, i, q).arrival_time,
        Some(tt.trip_at(r, i)),
    )
}

/// The search, and whether a stop was reached, after the ride on trip `i` of route `r` from
/// position `qs` was offered at each later position before `q`.
pub open spec fn scanned_to(
    tt: &MmapTimetable,
    round: int,
    r: int,
    i: int,
    qs: int,
    previous_step: usize,
    s: SearchState,
    any: bool,
    q: int,
) -> (SearchState, bool)
    decreases q - qs,
{
    if q <= qs + 1 {
        (s, any)
    } else {
        let (before, reached) = scanned_to(tt, round, r, i, qs, previous_step, s, any, q - 1);
        let step = ride_to(tt, round, r, i, qs, q - 1, previous_step);
        (
            record(Direction::Forward, before, step),
            reached || recorded(Direction::Forward, before, step),
        )
    }
}

/// The search, and whether a stop was reached, after route `r`, marked by `m`, was scanned in the
/// order of its stops: where it is marked, the first trip is boarded that leaves no earlier than
/// the round before got there.
pub open spec fn scanned_on(
    tt: &MmapTimetable,
    round: int,
    r: int,
    m: TripStopTime,
    s: SearchState,
    any: bool,
) -> (SearchState, bool) {
    let qs = m.route_stop_seq as int;
    match s.best[round - 1][marked_stop(tt, r, m) as int] {
        None => (s, any),
        Some(known) => match earliest_trip(tt, r, qs, known.final_time) {
            None => (s, any),
            Some(i) => scanned_to(
                tt,
                round,
                r,
                i,
                qs,
                known.last_step,
                s,
                any,
                tt.n_stops(r),
            ),
        },
    }
}

/// The ride on trip `i` of route `r`, boarded at position `q` so as to alight at position `qb`.
pub open spec fn ride_back_to(
    tt: &MmapTimetable,
    round: int,
    r: int,
    i: int,
    qb: int,
    q: int,
    previous_step: usize,
) -> InternalStep {
    step_of(
        previous_step,
        round as usize,
        InternalStepLocation::Stop(tt.stop_at(r, qb).stop_index),
        InternalStepLocation::Stop(tt.stop_at(r, q).stop_index),
        Some(tt.routes@[r]),
        tt.time_at(r, i, q).departure_time,
        tt.time_at(r, i, q).departure_time,
        Some(tt.trip_at(r, i)),
    )
}

/// The scan back after position `q` of route `r`.
///
/// Without a ride, the latest trip is taken that arrives before one has to leave here. With
/// one, boarding it here is offered; then, if a trip that arrives here in time leaves later
/// than the one taken, it is taken from here on.
pub open spec fn scanned_back_position(
    tt: &MmapTimetable,
    round: int,
    r: int,
    scan: Scan,
    q: int,
) -> Scan {
    let here = scan.s.best[round - 1][tt.stop_at(r, q).stop_index as int];
    match scan.ride {
        None => match here {
            None => scan,
            Some(known) => Scan {
                ride: match latest_trip(tt, r, q, known.final_time) {
                    Some(i) => Some((i, q)),
                    None => None,
                },
                ..scan
            },
        },
        Some((i, qb)) => match scan.s.best[round - 1][tt.stop_at(r, qb).stop_index as int] {
            None => scan,
            Some(known) => {
                let step = ride_back_to(tt, round, r, i, qb, q, known.last_step);
                let leaves = tt.time_at(r, i, q).departure_time;
                let deadline = match here {
                    Some(known_here) => known_here.final_time,
                    None => leaves,
                };
                Scan {
                    s: record(Direction::Backward, scan.s, step),
                    ride: match latest_trip(tt, r, q, deadline) {
                        Some(k) => if tt.time_at(r, k, q).departure_time.epoch_seconds
                            > leaves.epoch_seconds {
                            Some((k, q))
                        } else {
                            scan.ride
                        },
                        None => scan.ride,
                    },
                    any: scan.any || recorded(Direction::Backward, scan.s, step),
                }
            },
        },
    }
}

/// The scan of route `r` back from position `q0` down to position `q`.
pub open spec fn scanned_back_to(
    tt: &MmapTimetable,
    round: int,
    r: int,
    q0: int,
    s: SearchState,
    any: bool,
    q: int,
) -> Scan
    decreases q0 + 1 - q,
{
    if q > q0 {
        Scan { s, ride: None, any }
    } else {
        scanned_back_position(
            tt,
            round,
            r,
            scanned_back_to(tt, round, r, q0, s, any, q + 1),
            q,
        )
    }
}

/// The search, and whether a stop was reached, after route `r`, marked by `m`, was scanned.
pub open spec fn scanned_route(
    dir: Direction,
    tt: &MmapTimetable,
    round: int,
    r: int,
    m: TripStopTime,
    s: SearchState,
    any: bool,
) -> (SearchState, bool) {
    if m.trip_index == usize::MAX {
        (s, any)
    } else {
        match dir {
            Direction::Forward => scanned_on(tt, round, r, m, s, any),
            Direction::Backward => {
                let scan = scanned_back_to(
                    tt,
                    round,
                    r,
                    last_call(tt, r, marked_stop(tt, r, m), tt.n_stops(r)),
                    s,
                    any,
                    0,
                );
                (scan.s, scan.any)
            },
        }
    }
}

/// The search, and whether a stop was reached, after the first `k` routes of `order` were
/// scanned.
pub open spec fn scanned_routes(
    dir: Direction,
    tt: &MmapTimetable,
    round: int,
    marks: Seq<TripStopTime>,
    order: Seq<usize>,
    s: SearchState,
    k: int,
) -> (SearchState, bool)
    decreases k,
{
    if k <= 0 {
        (s, false)
    } else {
        let (before, any) = scanned_routes(dir, tt, round, marks, order, s, k - 1);
        let r = order[k - 1] as int;
        scanned_route(dir, tt, round, r, marks[r], before, any)
    }
}

/// The walk along transfer `t`, continuing `known`.
pub open spec fn walk_along(
    dir: Direction,
    round: int,
    t: Transfer,
    stop: int,
    known: InternalItinerary,
) -> InternalStep {
    step_of(
        known.last_step,
        (round + 1) as usize,
        InternalStepLocation::Stop(stop as usize),
        InternalStepLocation::Stop(t.to),
        None,
        match dir {
            Direction::Forward => known.final_time,
            Direction::Backward => known.final_time.minus(t.seconds()),
        },
        match dir {
            Direction::Forward => known.final_time.plus(t.seconds()),
            Direction::Backward => known.final_time.minus(t.seconds()),
        },
        None,
    )
}

/// The search after the first `j` transfers from `stop` were offered, unless a walk led there.
pub open spec fn walked_from(
    dir: Direction,
    tt: &MmapTimetable,
    round: int,
    s: SearchState,
    stop: int,
    j: int,
) -> SearchState
    decreases j,
{
    if j <= 0 {
        s
    } else {
        let before = walked_from(dir, tt, round, s, stop, j - 1);
        match before.best[round][stop] {
            None => before,
            Some(known) => if before.steps[known.last_step as int].route is None {
                before
            } else {
                let t = tt.transfer_at(stop, j - 1);
                record(dir, before, walk_along(dir, round, t, stop, known))
            },
        }
    }
}

/// The search after the transfers from the first `k` stops were offered, as far as `row` marks
/// them.
pub open spec fn walked(
    dir: Direction,
    tt: &MmapTimetable,
    round: int,
    row: Seq<StopMark>,
    s: SearchState,
    k: int,
) -> SearchState
    decreases k,
{
    if k <= 0 {
        s
    } else {
        let before = walked(dir, tt, round, row, s, k - 1);
        if row[k - 1] == StopMark::Unmarked {
            before
        } else {
            walked_from(dir, tt, round, before, k - 1, tt.n_transfers(k - 1))
        }
    }
}

/// The search after its rides of round `round`, and whether one of them reached a stop.
pub open spec fn after_rides(
    dir: Direction,
    tt: &MmapTimetable,
    s: SearchState,
    round: int,
) -> (SearchState, bool) {
    let s1 = extended(tt.stops@.len(), s, round);
    let marks = collected(dir, tt, s1, round, tt.stops@.len() as int);
    scanned_routes(
        dir,
        tt,
        round,
        marks,
        scan_order(marks),
        after_exploring(s1, round),
        marks.len() as int,
    )
}

/// The search after round `round`.
#[verifier::opaque]
pub open spec fn after_round(
    dir: Direction,
    tt: &MmapTimetable,
    s: SearchState,
    round: int,
) -> SearchState {
    let (s2, any) = after_rides(dir, tt, s, round);
    if any {
        walked(dir, tt, round, s2.marks[round], s2, tt.stops@.len() as int)
    } else {
        s2
    }
}

/// Whether round `round` reaches any stop by a ride.
#[verifier::opaque]
pub open spec fn round_reaches(
    dir: Direction,
    tt: &MmapTimetable,
    s: SearchState,
    round: int,
) -> bool {
    after_rides(dir, tt, s, round).1
}

/// The log keeps its promise when a step is offered that can be taken.
pub proof fn lemma_record_sound(
    dir: Direction,
    tt: &MmapTimetable,
    s: SearchState,
    step: InternalStep,
)
    requires
        state_ok(dir, tt.stops@.len(), s),
        sound(dir, tt, s),
        step.previous_step < s.steps.len(),
        well_shaped(tt, step),
        starts(dir, step) || step.previous_step != 0 && continues(
            dir,
            tt,
            s.steps[step.previous_step as int],
            step,
        ),
    ensures
        sound(dir, tt, record(dir, s, step)),
{
    if recorded(dir, s, step) {
        assert forall|i: int| 0 < i < s.steps.len() implies (#[trigger] s.steps[i]).previous_step
            < i by {
            assert(log_ok(s, i));
        }
        lemma_feasible_push(dir, tt, s.steps, step);
        assert(record(dir, s, step).steps == s.steps.push(step));
    }
}

impl<'a> RouterContext<'a> {
    /// What holds while the search runs.
    pub open spec fn running(&self, dir: Direction) -> bool {
        &&& self.timetable.wf()
        &&& self.ok(dir)
        &&& sound(dir, self.timetable, self.state())
    }

    /// Whether this is the search of `other`, further on: it asks for the same, and its log goes
    /// on with steps that are no starts.
    pub open spec fn carries_on(&self, other: &RouterContext<'a>) -> bool {
        &&& self.same_query(other)
        &&& self.step_log@.len() >= other.step_log@.len()
        &&& forall|i: int|
            0 <= i < other.step_log@.len() ==> #[trigger] self.step_log@[i] == other.step_log@[i]
        &&& forall|i: int|
            other.step_log@.len() <= i < self.step_log@.len() ==> (
            #[trigger] self.step_log@[i]).previous_step != 0
    }

    /// Makes sure that there are rows for a round and the one after it.
    fn extend_rounds(&mut self, dir: Direction, round: usize)
        requires
            old(self).running(dir),
            0 < round,
            round <= old(self).best_times_per_round@.len() <= round + 1,
            fresh(old(self).state(), round as int),
        ensures
            final(self).running(dir),
            final(self).state() == extended(
                old(self).timetable.stops@.len(),
                old(self).state(),
                round as int,
            ),
            riding(
                dir,
                final(self).state(),
                round as int,
                weight(dir, old(self).state()),
                false,
            ),
            final(self).carries_on(old(self)),
    {
        let ghost s = self.state();
        let ghost n = self.timetable.stops@.len();
        while self.best_times_per_round.len() - round < 2
            invariant
                self.running(dir),
                0 < round,
                round <= s.best.len() <= self.best_times_per_round@.len() <= round + 2,
                s.best.len() == s.marks.len() == old(self).best_times_per_round@.len(),
                self.carries_on(old(self)),
                n == self.timetable.stops@.len(),
                self.step_log@ == s.steps,
                state_ok(dir, n, s),
                forall|r: int|
                    0 <= r < self.best_times_per_round@.len() ==> #[trigger] self.state().best[r]
                        == (if r < s.best.len() {
                        s.best[r]
                    } else {
                        s.best.last()
                    }),
                forall|r: int|
                    0 <= r < self.best_times_per_round@.len() ==> #[trigger] self.state().marks[r]
                        == (if r < s.marks.len() {
                        s.marks[r]
                    } else {
                        Seq::new(n, |i: int| StopMark::Unmarked)
                    }),
            decreases round + 2 - self.best_times_per_round@.len(),
        {
            let ghost before = self.state();
            let last: usize = self.best_times_per_round.len() - 1;
            let row: Vec<Option<InternalItinerary>> = self.best_times_per_round[last].clone();
            assert(row@ =~= before.best[last as int]);
            self.best_times_per_round.push(row);
            let marks: Vec<StopMark> = vec![StopMark::Unmarked; self.timetable.stop_count()];
            assert(marks@ =~= Seq::new(n, |i: int| StopMark::Unmarked));
            self.marked_stops.push(marks);
            assert(self.state().best =~= before.best.push(before.best.last()));
            assert(self.state().marks =~= before.marks.push(
                Seq::new(n, |i: int| StopMark::Unmarked),
            ));
            assert forall|r: int, stop: int|
                0 <= r < self.state().best.len() && 0 <= stop < n implies #[trigger] entry_ok(
                dir,
                self.state(),
                r,
                stop,
            ) by {
                if r < before.best.len() {
                    assert(entry_ok(dir, before, r, stop));
                } else {
                    assert(entry_ok(dir, before, before.best.len() - 1, stop));
                }
            }
            assert forall|r: int, stop: int|
                0 <= r < self.state().best.len() - 1 && 0 <= stop < n implies #[trigger] kept(
                dir,
                self.state(),
                r,
                stop,
            ) by {
                if r < before.best.len() - 1 {
                    assert(kept(dir, before, r, stop));
                }
            }
            assert forall|i: int| 0 <= i < self.state().steps.len() implies #[trigger] log_ok(
                self.state(),
                i,
            ) by {
                assert(log_ok(before, i));
            }
        }
        assert(self.state() =~= extended(n, s, round as int));
        assert(self.state().best[round as int] == s.best.last());
        assert(self.state().best[round + 1] == s.best.last());
        assert forall|stop: int| 0 <= stop < n implies #[trigger] fresh_entry(
            self.state(),
            round as int,
            stop,
        ) by {
            assert(fresh_entry(s, round as int, stop));
        }
        assert forall|stop: int| 0 <= stop < n implies #[trigger] no_later(
            self.state(),
            round as int,
            stop,
        ) by {
            assert(fresh_entry(s, round as int, stop));
        }
    }
}

impl<'a> RouterContext<'a> {
    /// Marks the routes of the stops that the round before marked.
    fn collect_marks(&mut self, dir: Direction, round: usize, Ghost(w): Ghost<nat>) -> (marks: Vec<
        TripStopTime,
    >)
        requires
            old(self).running(dir),
            riding(dir, old(self).state(), round as int, w, false),
        ensures
            final(self).running(dir),
            riding(dir, final(self).state(), round as int, w, false),
            final(self).carries_on(old(self)),
            final(self).state() == after_exploring(old(self).state(), round as int),
            marks@ == collected(
                dir,
                old(self).timetable,
                old(self).state(),
                round as int,
                old(self).timetable.stops@.len() as int,
            ),
            marks_ok(old(self).timetable, marks@),
    {
        let tt: &MmapTimetable = self.timetable;
        let ghost s = self.state();
        let n: usize = tt.stop_count();
        let mut marks: Vec<TripStopTime> = vec![TripStopTime::marked(); tt.routes.len()];
        assert(marks@ =~= Seq::new(tt.routes@.len(), |r: int| unmarked()));
        let mut stop: usize = 0;
        assert(s.marks[round - 1].len() == n);
        assert(demoted(s.marks[round - 1], 0) =~= s.marks[round - 1]);
        assert(s.marks.update(round - 1, s.marks[round - 1]) =~= s.marks);
        while stop < n
            invariant
                tt == self.timetable,
                tt == old(self).timetable,
                tt.wf(),
                n == tt.stops@.len(),
                stop <= n,
                state_ok(dir, n as nat, s),
                s == old(self).state(),
                0 < round < s.best.len(),
                s.marks[round - 1].len() == n,
                self.carries_on(old(self)),
                self.state().best == s.best,
                self.state().steps == s.steps,
                self.state().query == s.query,
                self.state().marks == s.marks.update(
                    round - 1,
                    demoted(s.marks[round - 1], stop as int),
                ),
                marks_ok(tt, marks@),
                marks@ == collected(dir, tt, s, round as int, stop as int),
            decreases n - stop,
        {
            let ghost before = self.state();
            assert(before.marks[round - 1] == demoted(s.marks[round - 1], stop as int));
            assert(rows(self.marked_stops@) == before.marks);
            assert(self.marked_stops@.len() == s.marks.len());
            assert(self.best_times_per_round@.len() == s.best.len());
            assert(self.marked_stops@[round - 1]@ == before.marks[round - 1]);
            assert(self.best_times_per_round@[round - 1]@ == before.best[round - 1]);
            assert(s.best[round - 1].len() == n);
            let mark: StopMark = self.marked_stops[round - 1][stop];
            assert(mark == s.marks[round - 1][stop as int]);
            if mark == StopMark::Marked {
                self.marked_stops[round - 1][stop] = StopMark::MarkedForTransfersOnly;
                assert(rows(self.marked_stops@) =~= before.marks.update(
                    round - 1,
                    before.marks[round - 1].update(stop as int, StopMark::MarkedForTransfersOnly),
                ));
                assert(entry_ok(dir, s, round - 1, stop as int));
                let known: InternalItinerary = match self.best_times_per_round[round - 1][stop] {
                    Some(known) => known,
                    None => {
                        assert(false);
                        InternalItinerary { last_step: 0, final_time: Time::epoch() }
                    },
                };
                match dir {
                    Direction::Forward => {
                        RouterContext::explore_routes_for_marked_stop(
                            tt,
                            &mut marks,
                            stop,
                            &known.final_time,
                        );
                    },
                    Direction::Backward => {
                        RouterContext::explore_routes_for_marked_stop_backward(
                            tt,
                            &mut marks,
                            stop,
                            &known.final_time,
                        );
                    },
                }
                assert(self.state().best =~= before.best);
            }
            assert(demoted(s.marks[round - 1], stop + 1) =~= (if mark == StopMark::Marked {
                demoted(s.marks[round - 1], stop as int).update(
                    stop as int,
                    StopMark::MarkedForTransfersOnly,
                )
            } else {
                demoted(s.marks[round - 1], stop as int)
            }));
            assert(self.state().marks =~= s.marks.update(
                round - 1,
                demoted(s.marks[round - 1], stop + 1),
            ));
            stop = stop + 1;
        }
        assert(self.state() =~= after_exploring(s, round as int));
        proof {
            lemma_demoting(dir, tt, s, round as int, w);
        }
        marks
    }
}

/// Exploring the routes of a round keeps the search in order.
proof fn lemma_demoting(dir: Direction, tt: &MmapTimetable, s: SearchState, round: int, w: nat)
    requires
        state_ok(dir, tt.stops@.len(), s),
        riding(dir, s, round, w, false),
    ensures
        state_ok(dir, tt.stops@.len(), after_exploring(s, round)),
        riding(dir, after_exploring(s, round), round, w, false),
{
    let t = after_exploring(s, round);
    assert(s.marks[round - 1].len() == tt.stops@.len());
    assert forall|r: int, stop: int|
        0 <= r < t.best.len() && 0 <= stop < tt.stops@.len() implies #[trigger] entry_ok(
        dir,
        t,
        r,
        stop,
    ) by {
        assert(entry_ok(dir, s, r, stop));
    }
    assert forall|r: int, stop: int|
        0 <= r < t.best.len() - 1 && 0 <= stop < tt.stops@.len() implies #[trigger] kept(
        dir,
        t,
        r,
        stop,
    ) by {
        assert(kept(dir, s, r, stop));
    }
    assert forall|i: int| 0 <= i < t.steps.len() implies #[trigger] log_ok(t, i) by {
        assert(log_ok(s, i));
    }
    assert forall|stop: int| 0 <= stop < t.best.last().len() implies #[trigger] no_later(
        t,
        round,
        stop,
    ) by {
        assert(no_later(s, round, stop));
    }
    assert forall|stop: int| 0 <= stop < t.best.last().len() implies #[trigger] fresh_entry(
        t,
        round,
        stop,
    ) by {
        assert(fresh_entry(s, round, stop));
    }
}

/// A ride as the scan has it.
pub open spec fn ride_of(ride: Option<(usize, usize)>) -> Option<(int, int)> {
    match ride {
        Some((i, q)) => Some((i as int, q as int)),
        None => None,
    }
}

impl<'a> RouterContext<'a> {
    /// Scans a marked route in the order of its stops.
    fn scan_forward(
        &mut self,
        round: usize,
        r: usize,
        m: TripStopTime,
        reached: bool,
        Ghost(w): Ghost<nat>,
    ) -> (any: bool)
        requires
            old(self).running(Direction::Forward),
            riding(Direction::Forward, old(self).state(), round as int, w, reached),
            r < old(self).timetable.routes@.len(),
            mark_ok(old(self).timetable, r as int, m),
            m.trip_index != usize::MAX,
        ensures
            final(self).running(Direction::Forward),
            riding(Direction::Forward, final(self).state(), round as int, w, any),
            final(self).carries_on(old(self)),
            (final(self).state(), any) == scanned_route(
                Direction::Forward,
                old(self).timetable,
                round as int,
                r as int,
                m,
                old(self).state(),
                reached,
            ),
            final(self).state().best[round - 1] == old(self).state().best[round - 1],
    {
        let tt: &MmapTimetable = self.timetable;
        let ghost s0 = self.state();
        let ghost n = tt.stops@.len();
        let ghost ri = r as int;
        assert(tt.route_ok(ri));
        assert(tt.route_stop_ok(ri, m.route_stop_seq as int));
        let route: Route = *tt.route(r);
        let stops: &[RouteStop] = tt.stops_of_route(r);
        let trips: &[Trip] = tt.trips_of_route(r);
        let qs: usize = m.route_stop_seq;
        let departure_stop: usize = stops[qs].id();
        assert(departure_stop == marked_stop(tt, ri, m));
        let known: InternalItinerary = match self.known_before(
            Direction::Forward,
            round,
            departure_stop,
        ) {
            Some(known) => known,
            None => {
                return reached;
            },
        };
        proof {
            lemma_earliest_trip(tt, ri, qs as int, known.final_time);
        }
        let i: usize = match find_earliest_trip(tt, r, qs, known.final_time) {
            Some(i) => i,
            None => {
                return reached;
            },
        };
        assert(tt.trip_ok(ri, i as int));
        let departure: Time = tt.stop_time(r, i, qs).departure();
        let mut any: bool = reached;
        let mut q: usize = qs + 1;
        while q < stops.len()
            invariant
                tt == self.timetable,
                tt == old(self).timetable,
                tt.wf(),
                ri == r < tt.routes@.len(),
                route == tt.routes@[ri],
                n == tt.stops@.len(),
                stops@ == tt.stops_of(ri),
                trips@ == tt.trips_of(ri),
                stops@.len() == tt.n_stops(ri),
                trips@.len() == tt.n_trips(ri),
                tt.route_ok(ri),
                tt.trip_ok(ri, i as int),
                i < tt.n_trips(ri),
                qs < q <= stops@.len(),
                departure_stop == tt.stop_at(ri, qs as int).stop_index,
                departure_stop < n,
                departure == tt.time_at(ri, i as int, qs as int).departure_time,
                known.final_time.epoch_seconds <= departure.epoch_seconds,
                s0.best[round - 1][departure_stop as int] == Some(known),
                self.state().best[round - 1] == s0.best[round - 1],
                self.running(Direction::Forward),
                riding(Direction::Forward, self.state(), round as int, w, any),
                self.carries_on(old(self)),
                (self.state(), any) == scanned_to(
                    tt,
                    round as int,
                    ri,
                    i as int,
                    qs as int,
                    known.last_step,
                    s0,
                    reached,
                    q as int,
                ),
            decreases stops@.len() - q,
        {
            let ghost s = self.state();
            assert(stops@[q as int] == tt.stop_at(ri, q as int));
            assert(trips@[i as int] == tt.trip_at(ri, i as int));
            assert(tt.route_stop_ok(ri, q as int));
            let ghost step = ride_to(
                tt,
                round as int,
                ri,
                i as int,
                qs as int,
                q as int,
                known.last_step,
            );
            proof {
                let previous = s.steps[known.last_step as int];
                assert(entry_ok(Direction::Forward, s, round - 1, departure_stop as int));
                assert(rides(Direction::Forward, tt, step, ri, i as int, qs as int, q as int));
                assert(ride_connects(
                    Direction::Forward,
                    tt,
                    previous,
                    step,
                    ri,
                    i as int,
                    q as int,
                ));
                assert(continues(Direction::Forward, tt, previous, step));
                assert(on_trip(tt, step, ri, i as int));
                assert(well_shaped(tt, step));
                lemma_record_sound(Direction::Forward, tt, s, step);
            }
            let arrival: Time = tt.stop_time(r, i, q).arrival();
            let marked: bool = self.maybe_update_arrival_time_and_route(
                round,
                &InternalStepLocation::Stop(departure_stop),
                departure,
                &InternalStepLocation::Stop(stops[q].id()),
                arrival,
                Some(route),
                Some(trips[i]),
                known.last_step,
            );
            assert(marked == recorded(Direction::Forward, s, step));
            assert(self.state() == record(Direction::Forward, s, step));
            assert(self.state().best[round - 1] == s.best[round - 1]);
            proof {
                lemma_riding(Direction::Forward, n, s, step, round as int, w, any);
            }
            any = any || marked;
            q = q + 1;
        }
        any
    }
}

/// What holds of the ride of a scan back: its trip gets to where one alights in time.
pub open spec fn in_time(
    tt: &MmapTimetable,
    s: SearchState,
    round: int,
    r: int,
    ride: Option<(int, int)>,
) -> bool {
    ride matches Some((i, qb)) ==> {
        &&& 0 <= i < tt.n_trips(r)
        &&& 0 <= qb < tt.n_stops(r)
        &&& s.best[round - 1][tt.stop_at(r, qb).stop_index as int] matches Some(known)
            ==> tt.time_at(r, i, qb).arrival_time.epoch_seconds <= known.final_time.epoch_seconds
    }
}

impl<'a> RouterContext<'a> {
    /// What is known of a stop after the round before `round`.
    fn known_before(&self, dir: Direction, round: usize, stop: usize) -> (known: Option<
        InternalItinerary,
    >)
        requires
            self.ok(dir),
            0 < round <= self.best_times_per_round@.len(),
            stop < self.timetable.stops@.len(),
        ensures
            known == self.state().best[round - 1][stop as int],
            known matches Some(it) ==> 0 < it.last_step < self.step_log@.len(),
    {
        assert(self.state().best[round - 1].len() == self.timetable.stops@.len());
        assert(entry_ok(dir, self.state(), round - 1, stop as int));
        self.best_times_per_round[round - 1][stop]
    }

    /// Scans a marked route against the order of its stops.
    fn scan_backward(
        &mut self,
        round: usize,
        r: usize,
        m: TripStopTime,
        reached: bool,
        Ghost(w): Ghost<nat>,
    ) -> (any: bool)
        requires
            old(self).running(Direction::Backward),
            riding(Direction::Backward, old(self).state(), round as int, w, reached),
            r < old(self).timetable.routes@.len(),
            mark_ok(old(self).timetable, r as int, m),
            m.trip_index != usize::MAX,
        ensures
            final(self).running(Direction::Backward),
            riding(Direction::Backward, final(self).state(), round as int, w, any),
            final(self).carries_on(old(self)),
            (final(self).state(), any) == scanned_route(
                Direction::Backward,
                old(self).timetable,
                round as int,
                r as int,
                m,
                old(self).state(),
                reached,
            ),
            final(self).state().best[round - 1] == old(self).state().best[round - 1],
    {
        let tt: &MmapTimetable = self.timetable;
        let ghost s0 = self.state();
        let ghost n = tt.stops@.len();
        let ghost ri = r as int;
        assert(tt.route_ok(ri));
        assert(tt.route_stop_ok(ri, m.route_stop_seq as int));
        let route: Route = *tt.route(r);
        let stops: &[RouteStop] = tt.stops_of_route(r);
        let trips: &[Trip] = tt.trips_of_route(r);
        let arrival_stop: usize = stops[m.route_stop_seq].id();
        assert(arrival_stop == marked_stop(tt, ri, m));
        assert(stops@.len() == tt.n_stops(ri));
        let mut q: usize = stops.len();
        while stops[q - 1].id() != arrival_stop
            invariant
                stops@ == tt.stops_of(ri),
                stops@.len() == tt.n_stops(ri),
                tt.route_ok(ri),
                m.route_stop_seq < q <= stops@.len(),
                last_call(tt, ri, arrival_stop, stops@.len() as int) == last_call(
                    tt,
                    ri,
                    arrival_stop,
                    q as int,
                ),
                stops@[m.route_stop_seq as int].stop_index == arrival_stop,
            decreases q,
        {
            assert(stops@[q - 1] == tt.stop_at(ri, q - 1));
            q = q - 1;
        }
        assert(stops@[q - 1] == tt.stop_at(ri, q - 1));
        let ghost q0 = q - 1;
        assert(q0 == last_call(tt, ri, arrival_stop, tt.n_stops(ri)));
        let mut ride: Option<(usize, usize)> = None;
        let mut any: bool = reached;
        while q > 0
            invariant
                tt == self.timetable,
                tt == old(self).timetable,
                tt.wf(),
                ri == r < tt.routes@.len(),
                route == tt.routes@[ri],
                n == tt.stops@.len(),
                stops@ == tt.stops_of(ri),
                trips@ == tt.trips_of(ri),
                stops@.len() == tt.n_stops(ri),
                trips@.len() == tt.n_trips(ri),
                tt.route_ok(ri),
                0 <= q <= q0 + 1 <= stops@.len(),
                self.state().best[round - 1] == s0.best[round - 1],
                self.running(Direction::Backward),
                riding(Direction::Backward, self.state(), round as int, w, any),
                self.carries_on(old(self)),
                (Scan { s: self.state(), ride: ride_of(ride), any }) == scanned_back_to(
                    tt,
                    round as int,
                    ri,
                    q0,
                    s0,
                    reached,
                    q as int,
                ),
                in_time(tt, s0, round as int, ri, ride_of(ride)),
                ride matches Some((i, qb)) ==> q <= qb,
            decreases q,
        {
            q = q - 1;
            let ghost s = self.state();
            let ghost before = Scan { s, ride: ride_of(ride), any };
            assert(stops@[q as int] == tt.stop_at(ri, q as int));
            assert(tt.route_stop_ok(ri, q as int));
            let here: Option<InternalItinerary> = self.known_before(
                Direction::Backward,
                round,
                stops[q].id(),
            );
            match ride {
                Some((i, qb)) => {
                    assert(tt.trip_ok(ri, i as int));
                    assert(tt.route_stop_ok(ri, qb as int));
                    assert(stops@[qb as int] == tt.stop_at(ri, qb as int));
                    assert(trips@[i as int] == tt.trip_at(ri, i as int));
                    let there: Option<InternalItinerary> = self.known_before(
                        Direction::Backward,
                        round,
                        stops[qb].id(),
                    );
                    if let Some(known) = there {
                        let leaves: Time = tt.stop_time(r, i, q).departure();
                        let ghost step = ride_back_to(
                            tt,
                            round as int,
                            ri,
                            i as int,
                            qb as int,
                            q as int,
                            known.last_step,
                        );
                        assert(entry_ok(
                            Direction::Backward,
                            s,
                            round - 1,
                            tt.stop_at(ri, qb as int).stop_index as int,
                        ));
                        proof {
                            assert(rides(
                                Direction::Backward,
                                tt,
                                step,
                                ri,
                                i as int,
                                q as int,
                                qb as int,
                            ));
                            assert(ride_connects(
                                Direction::Backward,
                                tt,
                                s.steps[known.last_step as int],
                                step,
                                ri,
                                i as int,
                                qb as int,
                            ));
                            assert(continues(
                                Direction::Backward,
                                tt,
                                s.steps[known.last_step as int],
                                step,
                            ));
                            assert(on_trip(tt, step, ri, i as int));
                            assert(well_shaped(tt, step));
                            lemma_record_sound(Direction::Backward, tt, s, step);
                        }
                        let marked: bool = self.maybe_update_departure_time(
                            round,
                            &InternalStepLocation::Stop(stops[qb].id()),
                            leaves,
                            &InternalStepLocation::Stop(stops[q].id()),
                            leaves,
                            Some(route),
                            Some(trips[i]),
                            known.last_step,
                        );
                        assert(marked == recorded(Direction::Backward, s, step));
                        assert(self.state() == record(Direction::Backward, s, step));
                        assert(self.state().best[round - 1] == s.best[round - 1]);
                        proof {
                            lemma_riding(Direction::Backward, n, s, step, round as int, w, any);
                        }
                        any = any || marked;
                        let deadline: Time = match here {
                            Some(known_here) => known_here.final_time,
                            None => leaves,
                        };
                        proof {
                            lemma_latest_trip(tt, ri, q as int, deadline);
                        }
                        if let Some(k) = find_latest_trip(tt, r, q, deadline) {
                            if tt.stop_time(r, k, q).departure().epoch_seconds
                                > leaves.epoch_seconds {
                                ride = Some((k, q));
                            }
                        }
                    }
                },
                None => {
                    if let Some(known) = here {
                        proof {
                            lemma_latest_trip(tt, ri, q as int, known.final_time);
                        }
                        ride =
                        match find_latest_trip(tt, r, q, known.final_time) {
                            Some(i) => Some((i, q)),
                            None => None,
                        };
                    }
                },
            }
            assert((Scan { s: self.state(), ride: ride_of(ride), any }) == scanned_back_position(
                tt,
                round as int,
                ri,
                before,
                q as int,
            ));
        }
        any
    }
}

impl<'a> RouterContext<'a> {
    /// Scans the marked routes, those marked nearer to their start first.
    fn scan_routes(
        &mut self,
        dir: Direction,
        round: usize,
        marks: &Vec<TripStopTime>,
        Ghost(w): Ghost<nat>,
    ) -> (any: bool)
        requires
            old(self).running(dir),
            riding(dir, old(self).state(), round as int, w, false),
            marks_ok(old(self).timetable, marks@),
        ensures
            final(self).running(dir),
            riding(dir, final(self).state(), round as int, w, any),
            final(self).carries_on(old(self)),
            (final(self).state(), any) == scanned_routes(
                dir,
                old(self).timetable,
                round as int,
                marks@,
                scan_order(marks@),
                old(self).state(),
                marks@.len() as int,
            ),
    {
        let tt: &MmapTimetable = self.timetable;
        let ghost s0 = self.state();
        let mut keys: Vec<u64> = Vec::new();
        let mut i: usize = 0;
        while i < marks.len()
            invariant
                i == keys@.len() <= marks@.len(),
                forall|k: int| 0 <= k < i ==> keys@[k] == marks@[k].route_stop_seq as u64,
            decreases marks@.len() - i,
        {
            keys.push(marks[i].route_stop_seq as u64);
            i = i + 1;
        }
        assert(keys@ =~= scan_keys(marks@));
        let order: Vec<usize> = sort_order(&keys);
        proof {
            lemma_stable_order_unique(keys@, order@, scan_order(marks@));
        }
        let mut any: bool = false;
        let mut k: usize = 0;
        while k < order.len()
            invariant
                tt == self.timetable,
                tt == old(self).timetable,
                tt.wf(),
                s0 == old(self).state(),
                order@ == scan_order(marks@),
                stable_order(keys@, order@),
                keys@.len() == marks@.len(),
                k <= order@.len() == marks@.len(),
                marks_ok(tt, marks@),
                self.running(dir),
                riding(dir, self.state(), round as int, w, any),
                self.carries_on(old(self)),
                self.state().best[round - 1] == s0.best[round - 1],
                (self.state(), any) == scanned_routes(
                    dir,
                    tt,
                    round as int,
                    marks@,
                    order@,
                    s0,
                    k as int,
                ),
            decreases order@.len() - k,
        {
            let r: usize = order[k];
            let m: TripStopTime = marks[r];
            assert(mark_ok(tt, r as int, marks@[r as int]));
            if m.trip_index != usize::MAX {
                any =
                match dir {
                    Direction::Forward => self.scan_forward(round, r, m, any, Ghost(w)),
                    Direction::Backward => self.scan_backward(round, r, m, any, Ghost(w)),
                };
            }
            k = k + 1;
        }
        any
    }

    /// Offers the transfers that lead away from a stop, unless a walk led there.
    fn walk_from(&mut self, dir: Direction, round: usize, stop: usize, Ghost(w): Ghost<nat>)
        requires
            old(self).running(dir),
            walking(dir, old(self).state(), round as int, w),
            stop < old(self).timetable.stops@.len(),
        ensures
            final(self).running(dir),
            walking(dir, final(self).state(), round as int, w),
            final(self).carries_on(old(self)),
            final(self).state() == walked_from(
                dir,
                old(self).timetable,
                round as int,
                old(self).state(),
                stop as int,
                old(self).timetable.n_transfers(stop as int),
            ),
    {
        let tt: &MmapTimetable = self.timetable;
        let ghost s0 = self.state();
        let ghost n = tt.stops@.len();
        assert(tt.transfer_run_ok(stop as int));
        let transfers: &[Transfer] = tt.transfers_from(stop);
        let mut j: usize = 0;
        while j < transfers.len()
            invariant
                tt == self.timetable,
                tt == old(self).timetable,
                tt.wf(),
                n == tt.stops@.len(),
                stop < n,
                tt.transfer_run_ok(stop as int),
                transfers@ == tt.transfers_at(stop as int),
                j <= transfers@.len() == tt.n_transfers(stop as int),
                self.running(dir),
                walking(dir, self.state(), round as int, w),
                self.carries_on(old(self)),
                self.state() == walked_from(dir, tt, round as int, s0, stop as int, j as int),
            decreases transfers@.len() - j,
        {
            let ghost s = self.state();
            assert(tt.transfer_ok(stop as int, j as int));
            assert(transfers@[j as int] == tt.transfer_at(stop as int, j as int));
            assert(self.best_times_per_round.len() == round + 2);
            let known: Option<InternalItinerary> = self.known_before(dir, round + 1, stop);
            if let Some(known) = known {
                let t: Transfer = transfers[j];
                if self.step_log[known.last_step].route.is_some() {
                    let ghost step = walk_along(dir, round as int, t, stop as int, known);
                    let ghost previous = s.steps[known.last_step as int];
                    proof {
                        assert(entry_ok(dir, s, round as int, stop as int));
                        assert(walks(dir, tt, previous, step, stop as int, j as int));
                        assert(continues(dir, tt, previous, step));
                        lemma_record_sound(dir, tt, s, step);
                    }
                    let from: InternalStepLocation = InternalStepLocation::Stop(stop);
                    let to: InternalStepLocation = InternalStepLocation::Stop(t.to);
                    let marked: bool = match dir {
                        Direction::Forward => {
                            let arrival: Time = known.final_time.plus_seconds(t.time_seconds());
                            self.maybe_update_arrival_time_and_route(
                                round + 1,
                                &from,
                                known.final_time,
                                &to,
                                arrival,
                                None,
                                None,
                                known.last_step,
                            )
                        },
                        Direction::Backward => {
                            let departure: Time = known.final_time.minus_seconds(t.time_seconds());
                            self.maybe_update_departure_time(
                                round + 1,
                                &from,
                                departure,
                                &to,
                                departure,
                                None,
                                None,
                                known.last_step,
                            )
                        },
                    };
                    assert(marked == recorded(dir, s, step));
                    assert(self.state() == record(dir, s, step));
                    proof {
                        lemma_walking(dir, n, s, step, round as int, w);
                    }
                }
            }
            j = j + 1;
        }
    }

    /// Offers the transfers from the stops that the rides of a round reached.
    fn walk(&mut self, dir: Direction, round: usize, Ghost(w): Ghost<nat>)
        requires
            old(self).running(dir),
            walking(dir, old(self).state(), round as int, w),
        ensures
            final(self).running(dir),
            walking(dir, final(self).state(), round as int, w),
            final(self).carries_on(old(self)),
            final(self).state() == walked(
                dir,
                old(self).timetable,
                round as int,
                old(self).state().marks[round as int],
                old(self).state(),
                old(self).timetable.stops@.len() as int,
            ),
    {
        let tt: &MmapTimetable = self.timetable;
        let ghost s0 = self.state();
        let n: usize = tt.stop_count();
        assert(s0.marks[round as int].len() == n);
        assert(self.marked_stops@[round as int]@ == s0.marks[round as int]);
        let row: Vec<StopMark> = self.marked_stops[round].clone();
        assert(row@ =~= s0.marks[round as int]);
        let mut stop: usize = 0;
        while stop < n
            invariant
                tt == self.timetable,
                tt == old(self).timetable,
                tt.wf(),
                n == tt.stops@.len() == row@.len(),
                stop <= n,
                self.running(dir),
                walking(dir, self.state(), round as int, w),
                self.carries_on(old(self)),
                self.state() == walked(dir, tt, round as int, row@, s0, stop as int),
            decreases n - stop,
        {
            if row[stop] != StopMark::Unmarked {
                self.walk_from(dir, round, stop, Ghost(w));
            }
            stop = stop + 1;
        }
    }

    /// Runs one round of the search.
    fn run_round(&mut self, dir: Direction, round: usize) -> (any: bool)
        requires
            old(self).running(dir),
            0 < round,
            round <= old(self).best_times_per_round@.len() <= round + 1,
            fresh(old(self).state(), round as int),
        ensures
            final(self).running(dir),
            final(self).carries_on(old(self)),
            final(self).state() == after_round(
                dir,
                old(self).timetable,
                old(self).state(),
                round as int,
            ),
            any == round_reaches(dir, old(self).timetable, old(self).state(), round as int),
            final(self).best_times_per_round@.len() == round + 2,
            fresh(final(self).state(), round + 1),
            nothing_missed(dir, old(self).timetable, old(self).state(), round as int)
                ==> nothing_missed(dir, old(self).timetable, final(self).state(), round + 1),
            nothing_missed(dir, old(self).timetable, old(self).state(), round as int) ==> (any
                <==> final(self).step_log@.len() > old(self).step_log@.len()),
            weight(dir, final(self).state()) <= weight(dir, old(self).state()),
            any ==> weight(dir, final(self).state()) < weight(dir, old(self).state()),
    {
        proof {
            reveal(after_round);
            reveal(round_reaches);
        }
        let ghost before = self.state();
        let ghost w = weight(dir, self.state());
        self.extend_rounds(dir, round);
        let marks: Vec<TripStopTime> = self.collect_marks(dir, round, Ghost(w));
        let any: bool = self.scan_routes(dir, round, &marks, Ghost(w));
        proof {
            let s = self.state();
            assert forall|stop: int| 0 <= stop < s.best.last().len() implies
                #[trigger] fresh_entry(s, round + 1, stop) by {
                assert(no_later(s, round as int, stop));
            }
        }
        if any {
            self.walk(dir, round, Ghost(w));
        }
        proof {
            assert(self.best_times_per_round.len() == round + 2);
            assert(self.step_log.len() == self.state().steps.len());
            if nothing_missed(dir, self.timetable, before, round as int) {
                lemma_round_misses_nothing(dir, self.timetable, before, round as int);
            }
        }
        any
    }

    /// Runs one round of the search from a start time on; returns whether it reached a stop.
    pub fn do_round(&mut self, round: usize) -> (any: bool)
        requires
            old(self).running(Direction::Forward),
            0 < round,
            round <= old(self).best_times_per_round@.len() <= round + 1,
            fresh(old(self).state(), round as int),
        ensures
            final(self).running(Direction::Forward),
            final(self).carries_on(old(self)),
            final(self).state() == after_round(
                Direction::Forward,
                old(self).timetable,
                old(self).state(),
                round as int,
            ),
            any == round_reaches(
                Direction::Forward,
                old(self).timetable,
                old(self).state(),
                round as int,
            ),
            final(self).best_times_per_round@.len() == round + 2,
            fresh(final(self).state(), round + 1),
            nothing_missed(
                Direction::Forward,
                old(self).timetable,
                old(self).state(),
                round as int,
            ) ==> nothing_missed(
                Direction::Forward,
                old(self).timetable,
                final(self).state(),
                round + 1,
            ) && (any <==> final(self).step_log@.len() > old(self).step_log@.len()),
            weight(Direction::Forward, final(self).state()) <= weight(
                Direction::Forward,
                old(self).state(),
            ),
            any ==> weight(Direction::Forward, final(self).state()) < weight(
                Direction::Forward,
                old(self).state(),
            ),
    {
        self.run_round(Direction::Forward, round)
    }

    /// Runs one round of the search from a deadline back; returns whether it reached a stop.
    pub fn do_round_backward(&mut self, round: usize) -> (any: bool)
        requires
            old(self).running(Direction::Backward),
            0 < round,
            round <= old(self).best_times_per_round@.len() <= round + 1,
            fresh(old(self).state(), round as int),
        ensures
            final(self).running(Direction::Backward),
            final(self).carries_on(old(self)),
            final(self).state() == after_round(
                Direction::Backward,
                old(self).timetable,
                old(self).state(),
                round as int,
            ),
            any == round_reaches(
                Direction::Backward,
                old(self).timetable,
                old(self).state(),
                round as int,
            ),
            final(self).best_times_per_round@.len() == round + 2,
            fresh(final(self).state(), round + 1),
            nothing_missed(
                Direction::Backward,
                old(self).timetable,
                old(self).state(),
                round as int,
            ) ==> nothing_missed(
                Direction::Backward,
                old(self).timetable,
                final(self).state(),
                round + 1,
            ) && (any <==> final(self).step_log@.len() > old(self).step_log@.len()),
            weight(Direction::Backward, final(self).state()) <= weight(
                Direction::Backward,
                old(self).state(),
            ),
            any ==> weight(Direction::Backward, final(self).state()) < weight(
                Direction::Backward,
                old(self).state(),
            ),
    {
        self.run_round(Direction::Backward, round)
    }
}

} // verus!
