//! What the search does not miss: every ride and every walk from where it got to is taken up,
//! unless it cannot be part of a better way to where one wants to go.

use crate::route::context::{
    beaten, improves, offered_row, pruned, record, recorded, step_time, stops_exist, Direction,
    InternalStep, InternalStepLocation, LatLng, Query, SearchState, StopMark,
};
use crate::route::boarding::{
    arrive_in_order, boards_before, earlier_catch, earliest_trip, explored, first_catch, followed,
    last_arrival, latest_trip, leave_in_order, lemma_earliest_trip, lemma_latest_trip,
    lemma_time_is_mark, mark_ok, marks_ok,
};
use crate::route::journeys::trip_runs;
use crate::route::rounds::{
    after_exploring, after_rides, after_round, collected, extended, last_call, marked_stop,
    ride_back_to, ride_to, round_reaches, scan_keys, scan_order, scanned_back_position,
    scanned_back_to, scanned_route, scanned_routes, scanned_to, walk_along, walked, walked_from,
    Scan,
};
use crate::route::search::{after_rounds, start_step, started};
use crate::sorting::{lemma_stable_order_exists, stable_order};
use crate::timetable::{unmarked, MmapTimetable, StopRoute, Time, TripStopTime};
use vstd::prelude::*;

verus! {

/// Row `row` knows a time for stop `stop` that is at least as good as `time`.
pub open spec fn reached(dir: Direction, s: SearchState, row: int, stop: int, time: int) -> bool {
    s.best[row][stop] is Some && match dir {
        Direction::Forward => s.best[row][stop]->0.final_time.epoch_seconds <= time,
        Direction::Backward => s.best[row][stop]->0.final_time.epoch_seconds >= time,
    }
}

/// One gets to the named place behind target `k`, the walk included, no later than `time`;
/// searching back, one need not leave it before `time`.
pub open spec fn gets_through(dir: Direction, s: SearchState, k: int, time: int) -> bool {
    let (stop, walk) = s.query.targets[k];
    s.best.last()[stop as int] is Some && match dir {
        Direction::Forward => s.best.last()[stop as int]->0.final_time.epoch_seconds + walk <= time,
        Direction::Backward => s.best.last()[stop as int]->0.final_time.epoch_seconds - walk
            >= time,
    }
}

/// One gets to a named place that soon behind some target.
pub open spec fn outrun(dir: Direction, s: SearchState, time: int) -> bool {
    exists|k: int| 0 <= k < s.query.targets.len() && #[trigger] gets_through(dir, s, k, time)
}

/// The time that a step gives the stop that it leads to.
pub open spec fn gained(dir: Direction, step: InternalStep) -> int {
    match dir {
        Direction::Forward => step.arrival.epoch_seconds as int,
        Direction::Backward => step.departure.epoch_seconds as int,
    }
}

/// Getting to stop `stop` at `time` is no news to row `row`: it knows a time as good, or that a
/// named place is reached no later.
pub open spec fn settled(dir: Direction, s: SearchState, row: int, stop: int, time: int) -> bool {
    reached(dir, s, row, stop, time) || outrun(dir, s, time)
}

/// The rows have one entry per stop, which names a logged step, and the targets exist.
pub open spec fn fits(n: nat, s: SearchState) -> bool {
    &&& 0 < s.best.len() == s.marks.len()
    &&& stops_exist(n, s.query.targets)
    &&& forall|r: int| 0 <= r < s.best.len() ==> (#[trigger] s.best[r]).len() == n
    &&& forall|r: int| 0 <= r < s.marks.len() ==> (#[trigger] s.marks[r]).len() == n
    &&& forall|r: int, stop: int|
        0 <= r < s.best.len() && 0 <= stop < n && (#[trigger] s.best[r][stop]) is Some
            ==> s.best[r][stop]->0.last_step < s.steps.len()
}

/// A row knows a time for a stop that it marks; what it knows of one that it does not mark is what
/// the row before it knows. And no row knows a worse time than the row before it.
pub open spec fn inherits(dir: Direction, s: SearchState, row: int, stop: int) -> bool {
    &&& if s.marks[row][stop] != StopMark::Unmarked {
        s.best[row][stop] is Some
    } else if row > 0 {
        s.best[row][stop] == s.best[row - 1][stop]
    } else {
        s.best[row][stop] is None
    }
    &&& row > 0 && s.best[row - 1][stop] is Some ==> reached(
        dir,
        s,
        row,
        stop,
        s.best[row - 1][stop]->0.final_time.epoch_seconds as int,
    )
}

pub open spec fn tidy(dir: Direction, n: nat, s: SearchState) -> bool {
    forall|row: int, stop: int|
        0 <= row < s.best.len() && 0 <= stop < n ==> #[trigger] inherits(dir, s, row, stop)
}

/// The search `t` goes on from `s` with steps of round `from`: no row forgets a time, the rows
/// before `from` stay as they are, no other row is marked, and the log only grows.
pub open spec fn grows(dir: Direction, n: nat, from: int, s: SearchState, t: SearchState) -> bool {
    &&& fits(n, t)
    &&& t.best.len() == s.best.len()
    &&& t.query == s.query
    &&& s.steps.len() <= t.steps.len()
    &&& forall|i: int| 0 <= i < s.steps.len() ==> #[trigger] t.steps[i] == s.steps[i]
    &&& forall|row: int|
        0 <= row < from && row < s.best.len() ==> #[trigger] t.best[row] == s.best[row]
    &&& forall|row: int|
        0 <= row < s.best.len() && row != from ==> #[trigger] t.marks[row] == s.marks[row]
    &&& forall|row: int, stop: int, time: int|
        0 <= row < s.best.len() && 0 <= stop < n && settled(dir, s, row, stop, time)
            ==> #[trigger] settled(dir, t, row, stop, time)
    &&& forall|row: int, stop: int|
        0 <= row < s.best.len() && 0 <= stop < n ==> {
            ||| (#[trigger] t.marks[row][stop]) == s.marks[row][stop]
            ||| t.marks[row][stop] == StopMark::Marked
        }
    &&& tidy(dir, n, s) ==> tidy(dir, n, t)
}

/// To go on is to go on from what one went on to.
proof fn lemma_grows_on(
    dir: Direction,
    n: nat,
    from: int,
    s: SearchState,
    t: SearchState,
    u: SearchState,
)
    requires
        grows(dir, n, from, s, t),
        grows(dir, n, from, t, u),
    ensures
        grows(dir, n, from, s, u),
{
    assert forall|row: int, stop: int, time: int|
        0 <= row < s.best.len() && 0 <= stop < n && settled(
            dir,
            s,
            row,
            stop,
            time,
        ) implies #[trigger] settled(dir, u, row, stop, time) by {
        assert(settled(dir, t, row, stop, time));
    }
    assert forall|i: int| 0 <= i < s.steps.len() implies #[trigger] u.steps[i] == s.steps[i] by {
        assert(t.steps[i] == s.steps[i]);
    }
    assert forall|row: int| 0 <= row < from && row < s.best.len() implies #[trigger] u.best[row]
        == s.best[row] by {
        assert(t.best[row] == s.best[row]);
    }
    assert forall|row: int| 0 <= row < s.best.len() && row != from implies #[trigger] u.marks[row]
        == s.marks[row] by {
        assert(t.marks[row] == s.marks[row]);
    }
    assert forall|row: int, stop: int| 0 <= row < s.best.len() && 0 <= stop < n implies ((
    #[trigger] u.marks[row][stop]) == s.marks[row][stop] || u.marks[row][stop]
        == StopMark::Marked) by {
        assert(t.marks[row][stop] == s.marks[row][stop] || t.marks[row][stop]
            == StopMark::Marked);
    }
}

proof fn lemma_grows_not(dir: Direction, n: nat, from: int, s: SearchState)
    requires
        fits(n, s),
    ensures
        grows(dir, n, from, s, s),
{
}

/// Offering a step makes no row forget a time, and afterwards its time is no news to any row from
/// its round on. It tells of no other stop, and is not taken up if a named place is reached no
/// later.
pub proof fn lemma_offered(
    dir: Direction,
    n: nat,
    s: SearchState,
    step: InternalStep,
    from: int,
)
    requires
        fits(n, s),
        step.to matches InternalStepLocation::Stop(stop) && stop < n,
        from == step.round < s.best.len(),
    ensures
        grows(dir, n, from, s, record(dir, s, step)),
        forall|row: int|
            step.round <= row < s.best.len() ==> #[trigger] settled(
                dir,
                record(dir, s, step),
                row,
                step.to->Stop_0 as int,
                gained(dir, step),
            ),
        recorded(dir, s, step) ==> !outrun(dir, s, gained(dir, step)),
        forall|row: int, stop: int|
            0 <= row < s.best.len() && 0 <= stop < n && stop != step.to->Stop_0
                ==> #[trigger] record(dir, s, step).best[row][stop] == s.best[row][stop],
        forall|row: int|
            0 <= row < s.best.len() ==> {
                let stop = step.to->Stop_0 as int;
                ||| (#[trigger] record(dir, s, step).best[row])[stop] == s.best[row][stop]
                ||| step.round <= row && record(dir, s, step).best[row][stop]
                    is Some && record(dir, s, step).best[row][stop]->0.final_time.epoch_seconds
                    == gained(dir, step)
            },
        record(dir, s, step).steps == s.steps || record(dir, s, step).steps == s.steps.push(step),
{
    let t = record(dir, s, step);
    let stop = step.to->Stop_0 as int;
    let time = step_time(dir, step).epoch_seconds as int;
    let last = s.best.len() - 1;
    assert(s.best.last() == s.best[last]);
    if outrun(dir, s, time) {
        let k = choose|k: int|
            0 <= k < s.query.targets.len() && #[trigger] gets_through(dir, s, k, time);
        assert(beaten(dir, s, step_time(dir, step), k));
    }
    if pruned(dir, s, step_time(dir, step)) {
        let k = choose|k: int|
            0 <= k < s.query.targets.len() && #[trigger] beaten(dir, s, step_time(dir, step), k);
        assert(gets_through(dir, s, k, time));
        assert(!recorded(dir, s, step));
    } else if recorded(dir, s, step) {
        assert forall|r: int| 0 <= r < t.best.len() implies (#[trigger] t.best[r])
            == offered_row(dir, s, step, stop, r) by {}
        assert(t.best.last() == t.best[last]);
        assert forall|r: int, st: int|
            0 <= r < t.best.len() && 0 <= st < n && (#[trigger] t.best[r][st]) is Some implies
            t.best[r][st]->0.last_step < t.steps.len() by {
            assert(t.best[r] == offered_row(dir, s, step, stop, r));
            assert(s.best[r][st] is Some ==> s.best[r][st]->0.last_step < s.steps.len());
        }
        assert forall|row: int, st: int, at: int|
            0 <= row < s.best.len() && 0 <= st < n && #[trigger] reached(
                dir,
                s,
                row,
                st,
                at,
            ) implies reached(dir, t, row, st, at) by {
            assert(t.best[row] == offered_row(dir, s, step, stop, row));
        }
        assert forall|at: int| #[trigger] outrun(dir, s, at) implies outrun(dir, t, at) by {
            let k = choose|k: int|
                0 <= k < s.query.targets.len() && #[trigger] gets_through(dir, s, k, at);
            let x = s.query.targets[k].0 as int;
            assert(x < n);
            let known = s.best[last][x]->0.final_time.epoch_seconds as int;
            assert(reached(dir, s, last, x, known));
            assert(reached(dir, t, last, x, known));
            assert(gets_through(dir, t, k, at));
        }
        assert forall|row: int, st: int, at: int|
            0 <= row < s.best.len() && 0 <= st < n && settled(
                dir,
                s,
                row,
                st,
                at,
            ) implies #[trigger] settled(dir, t, row, st, at) by {
            if reached(dir, s, row, st, at) {
                assert(reached(dir, t, row, st, at));
            } else {
                assert(outrun(dir, s, at));
            }
        }
        if tidy(dir, n, s) {
            assert forall|row: int, st: int| 0 <= row < t.best.len() && 0 <= st < n implies
                #[trigger] inherits(dir, t, row, st) by {
                assert(inherits(dir, s, row, st));
                assert(t.best[row] == offered_row(dir, s, step, stop, row));
                if row > 0 {
                    assert(t.best[row - 1] == offered_row(dir, s, step, stop, row - 1));
                }
            }
        }
        assert forall|row: int| step.round <= row < s.best.len() implies #[trigger] settled(
            dir,
            t,
            row,
            stop,
            time,
        ) by {
            assert(t.best[row] == offered_row(dir, s, step, stop, row));
            assert(reached(dir, t, row, stop, time));
        }
    } else {
        assert forall|row: int| step.round <= row < s.best.len() implies #[trigger] settled(
            dir,
            t,
            row,
            stop,
            time,
        ) by {
            assert(!improves(dir, s.steps, s.best[row][stop], step));
            assert(reached(dir, s, row, stop, time));
        }
    }
}

/// When a row takes a step up that is not outrun: if it knows nothing of the stop, or only a worse
/// time, or the same time by a step of no earlier a round, which, searching forward, also sets out
/// earlier. Else it keeps what it knows.
pub proof fn lemma_taken_up(dir: Direction, n: nat, s: SearchState, step: InternalStep, row: int)
    requires
        fits(n, s),
        step.to matches InternalStepLocation::Stop(stop) && stop < n,
        step.round <= row < s.best.len(),
        !outrun(dir, s, gained(dir, step)),
    ensures
        ({
            let stop = step.to->Stop_0 as int;
            let known = s.best[row][stop];
            let last = s.steps[known->0.last_step as int];
            let time = known->0.final_time.epoch_seconds;
            let taken = known is None || match dir {
                Direction::Forward => step.arrival.epoch_seconds < time
                    || step.arrival.epoch_seconds == time && step.round <= last.round
                    && last.departure.epoch_seconds < step.departure.epoch_seconds,
                Direction::Backward => step.departure.epoch_seconds > time
                    || step.departure.epoch_seconds == time && step.round <= last.round,
            };
            let t = record(dir, s, step);
            &&& taken ==> t.best[row][stop] is Some
                && t.best[row][stop]->0.final_time.epoch_seconds == gained(dir, step)
                && t.best[row][stop]->0.last_step == s.steps.len() as usize && t.steps
                == s.steps.push(step) && t.marks[step.round as int][stop] == StopMark::Marked
            &&& !taken ==> t.best[row][stop] == known
        }),
{
    let stop = step.to->Stop_0 as int;
    let time = step_time(dir, step);
    if pruned(dir, s, time) {
        let k = choose|k: int|
            0 <= k < s.query.targets.len() && #[trigger] beaten(dir, s, time, k);
        assert(gets_through(dir, s, k, gained(dir, step)));
    }
    if improves(dir, s.steps, s.best[row][stop], step) {
        assert(recorded(dir, s, step));
    }
    if recorded(dir, s, step) {
        assert(record(dir, s, step).best[row] == offered_row(dir, s, step, stop, row));
        assert(s.marks[step.round as int].len() == n);
    }
}

/// `seconds` on foot after `time`, or, searching back, before it, as far as 32 bits hold it.
pub open spec fn on_foot(dir: Direction, time: int, seconds: int) -> int {
    match dir {
        Direction::Forward => if time + seconds <= 0xffff_ffff {
            time + seconds
        } else {
            0xffff_ffff
        },
        Direction::Backward => if time >= seconds {
            time - seconds
        } else {
            0
        },
    }
}

/// Every walk from stop `stop`, if a ride leads there, is no news to the row after row `row`.
pub open spec fn walks_on(
    dir: Direction,
    tt: &MmapTimetable,
    s: SearchState,
    row: int,
    stop: int,
) -> bool {
    s.best[row][stop] is Some && s.steps[s.best[row][stop]->0.last_step as int].route is Some
        ==> forall|j: int|
        0 <= j < tt.n_transfers(stop) ==> settled(
            dir,
            s,
            row + 1,
            (#[trigger] tt.transfer_at(stop, j)).to as int,
            on_foot(
                dir,
                s.best[row][stop]->0.final_time.epoch_seconds as int,
                tt.transfer_at(stop, j).time as int % 0x1_0000_0000,
            ),
        )
}

proof fn lemma_walks_on_kept(
    dir: Direction,
    tt: &MmapTimetable,
    n: nat,
    from: int,
    s: SearchState,
    t: SearchState,
    row: int,
    stop: int,
)
    requires
        tt.wf(),
        n == tt.stops@.len(),
        fits(n, s),
        grows(dir, n, from, s, t),
        0 <= row < from,
        row + 1 < s.best.len(),
        0 <= stop < n,
        walks_on(dir, tt, s, row, stop),
    ensures
        walks_on(dir, tt, t, row, stop),
{
    assert(t.best[row] == s.best[row]);
    if s.best[row][stop] is Some {
        let i = s.best[row][stop]->0.last_step as int;
        assert(t.steps[i] == s.steps[i]);
        if s.steps[i].route is Some {
            assert forall|j: int| 0 <= j < tt.n_transfers(stop) implies settled(
                dir,
                t,
                row + 1,
                (#[trigger] tt.transfer_at(stop, j)).to as int,
                on_foot(
                    dir,
                    t.best[row][stop]->0.final_time.epoch_seconds as int,
                    tt.transfer_at(stop, j).time as int % 0x1_0000_0000,
                ),
            ) by {
                assert(tt.transfer_ok(stop, j));
                assert(settled(
                    dir,
                    s,
                    row + 1,
                    tt.transfer_at(stop, j).to as int,
                    on_foot(
                        dir,
                        s.best[row][stop]->0.final_time.epoch_seconds as int,
                        tt.transfer_at(stop, j).time as int % 0x1_0000_0000,
                    ),
                ));
            }
        }
    }
}

proof fn lemma_walked_from(
    dir: Direction,
    tt: &MmapTimetable,
    n: nat,
    round: int,
    s: SearchState,
    stop: int,
    j: int,
)
    requires
        tt.wf(),
        n == tt.stops@.len(),
        fits(n, s),
        0 <= round < usize::MAX,
        round + 1 < s.best.len(),
        0 <= stop < n,
        0 <= j <= tt.n_transfers(stop),
    ensures
        grows(dir, n, round + 1, s, walked_from(dir, tt, round, s, stop, j)),
        s.best[round][stop] is Some && s.steps[s.best[round][stop]->0.last_step as int].route
            is Some ==> forall|i: int|
            0 <= i < j ==> settled(
                dir,
                walked_from(dir, tt, round, s, stop, j),
                round + 1,
                (#[trigger] tt.transfer_at(stop, i)).to as int,
                on_foot(
                    dir,
                    s.best[round][stop]->0.final_time.epoch_seconds as int,
                    tt.transfer_at(stop, i).time as int % 0x1_0000_0000,
                ),
            ),
    decreases j,
{
    if j > 0 {
        lemma_walked_from(dir, tt, n, round, s, stop, j - 1);
        let before = walked_from(dir, tt, round, s, stop, j - 1);
        let after = walked_from(dir, tt, round, s, stop, j);
        assert(before.best[round] == s.best[round]);
        if s.best[round][stop] is Some {
            let known = s.best[round][stop]->0;
            assert(before.steps[known.last_step as int] == s.steps[known.last_step as int]);
            if s.steps[known.last_step as int].route is Some {
                let t = tt.transfer_at(stop, j - 1);
                assert(tt.transfer_ok(stop, j - 1));
                let step = walk_along(dir, round, t, stop, known);
                lemma_offered(dir, n, before, step, round + 1);
                lemma_grows_on(dir, n, round + 1, s, before, after);
                assert(settled(dir, after, round + 1, t.to as int, gained(dir, step)));
                assert forall|i: int| 0 <= i < j implies settled(
                    dir,
                    after,
                    round + 1,
                    (#[trigger] tt.transfer_at(stop, i)).to as int,
                    on_foot(
                        dir,
                        known.final_time.epoch_seconds as int,
                        tt.transfer_at(stop, i).time as int % 0x1_0000_0000,
                    ),
                ) by {
                    assert(tt.transfer_ok(stop, i));
                    if i < j - 1 {
                        assert(settled(
                            dir,
                            before,
                            round + 1,
                            tt.transfer_at(stop, i).to as int,
                            on_foot(
                                dir,
                                known.final_time.epoch_seconds as int,
                                tt.transfer_at(stop, i).time as int % 0x1_0000_0000,
                            ),
                        ));
                    }
                }
            }
        }
    }
}

proof fn lemma_walked(
    dir: Direction,
    tt: &MmapTimetable,
    n: nat,
    round: int,
    row: Seq<StopMark>,
    s: SearchState,
    k: int,
)
    requires
        tt.wf(),
        n == tt.stops@.len(),
        fits(n, s),
        0 <= round < usize::MAX,
        round + 1 < s.best.len(),
        0 <= k <= n,
    ensures
        grows(dir, n, round + 1, s, walked(dir, tt, round, row, s, k)),
        forall|stop: int|
            0 <= stop < k && row[stop] != StopMark::Unmarked ==> #[trigger] walks_on(
                dir,
                tt,
                walked(dir, tt, round, row, s, k),
                round,
                stop,
            ),
    decreases k,
{
    if k > 0 {
        lemma_walked(dir, tt, n, round, row, s, k - 1);
        let before = walked(dir, tt, round, row, s, k - 1);
        let after = walked(dir, tt, round, row, s, k);
        if row[k - 1] != StopMark::Unmarked {
            assert(tt.transfer_run_ok(k - 1));
            lemma_walked_from(dir, tt, n, round, before, k - 1, tt.n_transfers(k - 1));
            assert(after.best[round] == before.best[round]);
            assert(walks_on(dir, tt, after, round, k - 1)) by {
                if before.best[round][k - 1] is Some {
                    let i = before.best[round][k - 1]->0.last_step as int;
                    assert(after.steps[i] == before.steps[i]);
                }
            }
            lemma_grows_on(dir, n, round + 1, s, before, after);
            assert forall|stop: int|
                0 <= stop < k && row[stop] != StopMark::Unmarked implies #[trigger] walks_on(
                dir,
                tt,
                after,
                round,
                stop,
            ) by {
                if stop < k - 1 {
                    assert(walks_on(dir, tt, before, round, stop));
                    lemma_walks_on_kept(dir, tt, n, round + 1, before, after, round, stop);
                }
            }
        }
    }
}

/// Searching forward, mark `m` of route `r` is where one can be in time for it.
spec fn in_time_for_mark(
    dir: Direction,
    tt: &MmapTimetable,
    s: SearchState,
    row: int,
    r: int,
    m: TripStopTime,
) -> bool {
    &&& mark_ok(tt, r, m)
    &&& dir == Direction::Forward && m.trip_index != usize::MAX ==> {
        let stop = tt.stop_at(r, m.route_stop_seq as int).stop_index as int;
        &&& s.best[row][stop] is Some
        &&& s.best[row][stop]->0.final_time.epoch_seconds <= m.departure_time.epoch_seconds
    }
}

/// A mark moves from `m` to `b`: forward, to an earlier departure, or the same one further along,
/// of no later a trip; back, further along, or to a later arrival in the same place.
pub open spec fn mark_moves(dir: Direction, m: TripStopTime, b: TripStopTime) -> bool {
    ||| b == m
    ||| b.trip_index != usize::MAX && (m.trip_index == usize::MAX || match dir {
        Direction::Forward => leaves_sooner(
            b,
            m.departure_time.epoch_seconds as int,
            m.route_stop_seq as int,
        ) && b.trip_index <= m.trip_index,
        Direction::Backward => b.route_stop_seq > m.route_stop_seq || b.route_stop_seq
            == m.route_stop_seq && b.arrival_time.epoch_seconds >= m.arrival_time.epoch_seconds,
    })
}

/// Mark `m` leaves before `departure`, or then and no nearer to the start of its route than
/// position `q`.
pub open spec fn leaves_sooner(m: TripStopTime, departure: int, q: int) -> bool {
    ||| m.departure_time.epoch_seconds < departure
    ||| m.departure_time.epoch_seconds == departure && m.route_stop_seq >= q
}

/// Mark `m` of route `r` leaves no later than trip `i` leaves position `q`, or is of an earlier
/// trip.
pub open spec fn sooner(tt: &MmapTimetable, r: int, m: TripStopTime, i: int, q: int) -> bool {
    &&& m.trip_index != usize::MAX
    &&& {
        ||| leaves_sooner(m, tt.time_at(r, i, q).departure_time.epoch_seconds as int, q)
        ||| m.trip_index - tt.routes@[r].first_route_trip < i
    }
}

/// The mark of route `r` heeds its call at position `q`, where one is at `time`.
pub open spec fn heeds(
    dir: Direction,
    tt: &MmapTimetable,
    r: int,
    q: int,
    time: int,
    m: TripStopTime,
) -> bool {
    match dir {
        Direction::Forward => leave_in_order(tt, r, q) ==> forall|i: int|
            0 <= i < tt.n_trips(r) && time <= (#[trigger] tt.time_at(
                r,
                i,
                q,
            )).departure_time.epoch_seconds < u32::MAX ==> sooner(tt, r, m, i, q),
        Direction::Backward => forall|i: int|
            0 <= i < tt.n_trips(r) && (#[trigger] tt.time_at(
                r,
                i,
                q,
            )).arrival_time.epoch_seconds <= time ==> m.trip_index != usize::MAX && (
            m.route_stop_seq > q || m.route_stop_seq == q && (arrive_in_order(tt, r, q)
                ==> m.arrival_time.epoch_seconds >= tt.time_at(
                r,
                i,
                q,
            ).arrival_time.epoch_seconds)),
    }
}

proof fn lemma_first_catch_heeds(
    tt: &MmapTimetable,
    r: int,
    q: int,
    not_before: Time,
    from: int,
)
    requires
        tt.core_wf(),
        0 <= r < tt.routes@.len(),
        0 <= q < tt.n_stops(r),
        0 <= from <= tt.n_trips(r),
    ensures
        ({
            let m = first_catch(tt, r, q, not_before, unmarked(), from);
            &&& mark_ok(tt, r, m)
            &&& m.trip_index != usize::MAX ==> m.route_stop_seq == q
                && m.departure_time.epoch_seconds >= not_before.epoch_seconds
            &&& leave_in_order(tt, r, q) ==> forall|i: int|
                from <= i < tt.n_trips(r) && not_before.epoch_seconds <= (#[trigger] tt.time_at(
                    r,
                    i,
                    q,
                )).departure_time.epoch_seconds < u32::MAX ==> m.trip_index != usize::MAX
                    && m.departure_time.epoch_seconds <= tt.time_at(
                    r,
                    i,
                    q,
                ).departure_time.epoch_seconds
        }),
    decreases tt.n_trips(r) - from,
{
    if from < tt.n_trips(r) {
        lemma_time_is_mark(tt, r, from, q);
        lemma_first_catch_heeds(tt, r, q, not_before, from + 1);
    }
}

proof fn lemma_earlier_catch_heeds(
    tt: &MmapTimetable,
    r: int,
    q: int,
    not_before: Time,
    m: TripStopTime,
    n: int,
)
    requires
        tt.core_wf(),
        0 <= r < tt.routes@.len(),
        0 <= q < tt.n_stops(r),
        mark_ok(tt, r, m),
        m.trip_index != usize::MAX,
        0 <= n <= m.trip_index - tt.routes@[r].first_route_trip + 1,
        n <= tt.n_trips(r),
    ensures
        ({
            let b = earlier_catch(tt, r, q, not_before, m, n);
            &&& mark_ok(tt, r, b)
            &&& b.trip_index != usize::MAX
            &&& leaves_sooner(
                b,
                m.departure_time.epoch_seconds as int,
                m.route_stop_seq as int,
            )
            &&& b.trip_index <= m.trip_index
            &&& b == m || b.route_stop_seq == q && b.departure_time.epoch_seconds
                >= not_before.epoch_seconds
            &&& leave_in_order(tt, r, q) ==> forall|i: int|
                0 <= i < n && not_before.epoch_seconds <= (#[trigger] tt.time_at(
                    r,
                    i,
                    q,
                )).departure_time.epoch_seconds ==> leaves_sooner(
                    b,
                    tt.time_at(r, i, q).departure_time.epoch_seconds as int,
                    q,
                )
        }),
    decreases n,
{
    if n > 0 {
        lemma_time_is_mark(tt, r, n - 1, q);
        let t = tt.time_at(r, n - 1, q);
        if t.departure_time.epoch_seconds >= not_before.epoch_seconds {
            let next = if boards_before(t, m) {
                t
            } else {
                m
            };
            lemma_earlier_catch_heeds(tt, r, q, not_before, next, n - 1);
        } else if leave_in_order(tt, r, q) {
            assert forall|i: int| 0 <= i < n implies (#[trigger] tt.time_at(
                r,
                i,
                q,
            )).departure_time.epoch_seconds < not_before.epoch_seconds by {
                assert(tt.time_at(r, n - 1, q) == t);
            }
        }
    }
}

proof fn lemma_last_arrival(tt: &MmapTimetable, r: int, q: int, not_after: Time, n: int)
    requires
        0 <= n,
    ensures
        -1 <= last_arrival(tt, r, q, not_after, n) < n,
        forall|i: int|
            0 <= i < n && (#[trigger] tt.time_at(r, i, q)).arrival_time.epoch_seconds
                <= not_after.epoch_seconds ==> last_arrival(tt, r, q, not_after, n) >= 0,
        last_arrival(tt, r, q, not_after, n) >= 0 ==> tt.time_at(
            r,
            last_arrival(tt, r, q, not_after, n),
            q,
        ).arrival_time.epoch_seconds <= not_after.epoch_seconds,
        forall|i: int|
            last_arrival(tt, r, q, not_after, n) < i < n ==> (#[trigger] tt.time_at(
                r,
                i,
                q,
            )).arrival_time.epoch_seconds > not_after.epoch_seconds,
    decreases n,
{
    if n > 0 {
        lemma_last_arrival(tt, r, q, not_after, n - 1);
    }
}

proof fn lemma_followed(
    dir: Direction,
    tt: &MmapTimetable,
    m: TripStopTime,
    sr: StopRoute,
    time: Time,
)
    requires
        tt.core_wf(),
        sr.route_index < tt.routes@.len(),
        sr.stop_seq < tt.n_stops(sr.route_index as int),
        mark_ok(tt, sr.route_index as int, m),
    ensures
        ({
            let r = sr.route_index as int;
            let b = followed(dir, tt, m, sr, time);
            &&& mark_ok(tt, r, b)
            &&& mark_moves(dir, m, b)
            &&& heeds(dir, tt, r, sr.stop_seq as int, time.epoch_seconds as int, b)
            &&& b == m || b.route_stop_seq == sr.stop_seq && match dir {
                Direction::Forward => b.departure_time.epoch_seconds >= time.epoch_seconds,
                Direction::Backward => b.arrival_time.epoch_seconds <= time.epoch_seconds,
            }
        }),
{
    let r = sr.route_index as int;
    let q = sr.stop_seq as int;
    let b = followed(dir, tt, m, sr, time);
    assert(tt.route_ok(r));
    assert(tt.route_trips.len() == tt.route_trips@.len());
    match dir {
        Direction::Forward => {
            if m.trip_index == usize::MAX {
                assert(m == unmarked());
                lemma_first_catch_heeds(tt, r, q, time, 0);
            } else {
                let im = m.trip_index - tt.routes@[r].first_route_trip;
                lemma_earlier_catch_heeds(tt, r, q, time, m, im + 1);
                if leave_in_order(tt, r, q) {
                    assert forall|i: int|
                        0 <= i < tt.n_trips(r) && time.epoch_seconds <= (#[trigger] tt.time_at(
                            r,
                            i,
                            q,
                        )).departure_time.epoch_seconds < u32::MAX implies sooner(
                        tt,
                        r,
                        b,
                        i,
                        q,
                    ) by {}
                }
            }
        },
        Direction::Backward => {
            lemma_last_arrival(tt, r, q, time, tt.n_trips(r));
            let i = last_arrival(tt, r, q, time, tt.n_trips(r));
            if i >= 0 {
                lemma_time_is_mark(tt, r, i, q);
            }
        },
    }
}

proof fn lemma_heeds_on(
    dir: Direction,
    tt: &MmapTimetable,
    r: int,
    q: int,
    time: int,
    m: TripStopTime,
    b: TripStopTime,
)
    requires
        heeds(dir, tt, r, q, time, m),
        mark_moves(dir, m, b),
    ensures
        heeds(dir, tt, r, q, time, b),
{
    if dir == Direction::Forward && leave_in_order(tt, r, q) {
        assert forall|i: int|
            0 <= i < tt.n_trips(r) && time <= (#[trigger] tt.time_at(
                r,
                i,
                q,
            )).departure_time.epoch_seconds < u32::MAX implies sooner(tt, r, b, i, q) by {
            assert(sooner(tt, r, m, i, q));
        }
    }
}

/// Call `j` at stop `stop` is heeded by the marks.
pub open spec fn call_heeded(
    dir: Direction,
    tt: &MmapTimetable,
    marks: Seq<TripStopTime>,
    stop: int,
    j: int,
    time: int,
) -> bool {
    let sr = tt.stop_route_at(stop, j);
    heeds(
        dir,
        tt,
        sr.route_index as int,
        sr.stop_seq as int,
        time,
        marks[sr.route_index as int],
    )
}

spec fn marks_in_time(
    dir: Direction,
    tt: &MmapTimetable,
    s: SearchState,
    row: int,
    marks: Seq<TripStopTime>,
) -> bool {
    &&& marks.len() == tt.routes@.len()
    &&& forall|r: int|
        0 <= r < marks.len() ==> in_time_for_mark(dir, tt, s, row, r, #[trigger] marks[r])
}

pub open spec fn marks_move(dir: Direction, a: Seq<TripStopTime>, b: Seq<TripStopTime>) -> bool {
    &&& a.len() == b.len()
    &&& forall|r: int| 0 <= r < a.len() ==> mark_moves(dir, a[r], #[trigger] b[r])
}

/// Exploring the routes of a stop heeds every call there: forward, the mark of its route leaves no
/// later than every trip that can be caught there, or is of an earlier trip; back, it lies no
/// earlier along the route, if a trip arrives there in time. Marks only move that way.
pub proof fn lemma_exploring_heeds(
    dir: Direction,
    tt: &MmapTimetable,
    marks: Seq<TripStopTime>,
    stop: int,
    time: Time,
    n: int,
)
    requires
        tt.core_wf(),
        0 <= stop < tt.stops@.len(),
        0 <= n <= tt.n_stop_routes(stop),
        marks_ok(tt, marks),
    ensures
        marks_ok(tt, explored(dir, tt, marks, stop, time, n)),
        marks_move(dir, marks, explored(dir, tt, marks, stop, time, n)),
        forall|j: int|
            0 <= j < n ==> #[trigger] call_heeded(
                dir,
                tt,
                explored(dir, tt, marks, stop, time, n),
                stop,
                j,
                time.epoch_seconds as int,
            ),
    decreases n,
{
    if n > 0 {
        lemma_exploring_heeds(dir, tt, marks, stop, time, n - 1);
        let before = explored(dir, tt, marks, stop, time, n - 1);
        let after = explored(dir, tt, marks, stop, time, n);
        assert(tt.stop_route_ok(stop, n - 1));
        let sr = tt.stop_route_at(stop, n - 1);
        let r = sr.route_index as int;
        assert(mark_ok(tt, r, before[r]));
        lemma_followed(dir, tt, before[r], sr, time);
        assert forall|l: int| 0 <= l < after.len() implies mark_ok(tt, l, #[trigger] after[l]) by {
            assert(mark_ok(tt, l, before[l]));
        }
        assert forall|l: int| 0 <= l < marks.len() implies mark_moves(
            dir,
            marks[l],
            #[trigger] after[l],
        ) by {
            assert(mark_moves(dir, marks[l], before[l]));
        }
        assert forall|j: int| 0 <= j < n implies #[trigger] call_heeded(
            dir,
            tt,
            after,
            stop,
            j,
            time.epoch_seconds as int,
        ) by {
            if j < n - 1 {
                assert(call_heeded(dir, tt, before, stop, j, time.epoch_seconds as int));
                assert(tt.stop_route_ok(stop, j));
                let call = tt.stop_route_at(stop, j);
                let l = call.route_index as int;
                lemma_heeds_on(
                    dir,
                    tt,
                    l,
                    call.stop_seq as int,
                    time.epoch_seconds as int,
                    before[l],
                    after[l],
                );
            }
        }
    }
}

proof fn lemma_explored(
    dir: Direction,
    tt: &MmapTimetable,
    s: SearchState,
    row: int,
    marks: Seq<TripStopTime>,
    stop: int,
    time: Time,
    n: int,
)
    requires
        tt.core_wf(),
        0 <= stop < tt.stops@.len(),
        0 <= n <= tt.n_stop_routes(stop),
        marks_in_time(dir, tt, s, row, marks),
        s.best[row][stop] is Some,
        s.best[row][stop]->0.final_time == time,
    ensures
        marks_in_time(dir, tt, s, row, explored(dir, tt, marks, stop, time, n)),
        marks_move(dir, marks, explored(dir, tt, marks, stop, time, n)),
        forall|j: int|
            0 <= j < n ==> #[trigger] call_heeded(
                dir,
                tt,
                explored(dir, tt, marks, stop, time, n),
                stop,
                j,
                time.epoch_seconds as int,
            ),
    decreases n,
{
    if n > 0 {
        lemma_explored(dir, tt, s, row, marks, stop, time, n - 1);
        let before = explored(dir, tt, marks, stop, time, n - 1);
        let after = explored(dir, tt, marks, stop, time, n);
        assert(tt.stop_route_ok(stop, n - 1));
        let sr = tt.stop_route_at(stop, n - 1);
        let r = sr.route_index as int;
        assert(in_time_for_mark(dir, tt, s, row, r, before[r]));
        lemma_followed(dir, tt, before[r], sr, time);
        assert forall|l: int| 0 <= l < after.len() implies in_time_for_mark(
            dir,
            tt,
            s,
            row,
            l,
            #[trigger] after[l],
        ) by {
            assert(in_time_for_mark(dir, tt, s, row, l, before[l]));
        }
        assert forall|l: int| 0 <= l < marks.len() implies mark_moves(
            dir,
            marks[l],
            #[trigger] after[l],
        ) by {
            assert(mark_moves(dir, marks[l], before[l]));
        }
        assert forall|j: int| 0 <= j < n implies #[trigger] call_heeded(
            dir,
            tt,
            after,
            stop,
            j,
            time.epoch_seconds as int,
        ) by {
            if j < n - 1 {
                assert(call_heeded(dir, tt, before, stop, j, time.epoch_seconds as int));
                assert(tt.stop_route_ok(stop, j));
                let call = tt.stop_route_at(stop, j);
                let l = call.route_index as int;
                lemma_heeds_on(
                    dir,
                    tt,
                    l,
                    call.stop_seq as int,
                    time.epoch_seconds as int,
                    before[l],
                    after[l],
                );
            }
        }
    }
}

proof fn lemma_collected(
    dir: Direction,
    tt: &MmapTimetable,
    s: SearchState,
    round: int,
    k: int,
)
    requires
        tt.core_wf(),
        fits(tt.stops@.len(), s),
        tidy(dir, tt.stops@.len(), s),
        0 < round <= s.best.len(),
        0 <= k <= tt.stops@.len(),
    ensures
        marks_in_time(dir, tt, s, round - 1, collected(dir, tt, s, round, k)),
        forall|stop: int, j: int|
            0 <= stop < k && s.marks[round - 1][stop] == StopMark::Marked && 0 <= j
                < tt.n_stop_routes(stop) ==> #[trigger] call_heeded(
                dir,
                tt,
                collected(dir, tt, s, round, k),
                stop,
                j,
                s.best[round - 1][stop]->0.final_time.epoch_seconds as int,
            ),
    decreases k,
{
    if k <= 0 {
        let marks = collected(dir, tt, s, round, k);
        assert forall|r: int| 0 <= r < marks.len() implies in_time_for_mark(
            dir,
            tt,
            s,
            round - 1,
            r,
            #[trigger] marks[r],
        ) by {}
    } else {
        lemma_collected(dir, tt, s, round, k - 1);
        let before = collected(dir, tt, s, round, k - 1);
        let after = collected(dir, tt, s, round, k);
        if s.marks[round - 1][k - 1] == StopMark::Marked {
            assert(inherits(dir, s, round - 1, k - 1));
            let time = s.best[round - 1][k - 1]->0.final_time;
            assert(tt.stop_ok(k - 1));
            lemma_explored(
                dir,
                tt,
                s,
                round - 1,
                before,
                k - 1,
                time,
                tt.n_stop_routes(k - 1),
            );
            assert forall|stop: int, j: int|
                0 <= stop < k && s.marks[round - 1][stop] == StopMark::Marked && 0 <= j
                    < tt.n_stop_routes(stop) implies #[trigger] call_heeded(
                dir,
                tt,
                after,
                stop,
                j,
                s.best[round - 1][stop]->0.final_time.epoch_seconds as int,
            ) by {
                if stop < k - 1 {
                    let at = s.best[round - 1][stop]->0.final_time.epoch_seconds as int;
                    assert(call_heeded(dir, tt, before, stop, j, at));
                    assert(tt.stop_route_ok(stop, j));
                    let call = tt.stop_route_at(stop, j);
                    let l = call.route_index as int;
                    lemma_heeds_on(
                        dir,
                        tt,
                        l,
                        call.stop_seq as int,
                        at,
                        before[l],
                        after[l],
                    );
                }
            }
        }
    }
}

/// The trips of route `r` leave each of its positions in order.
pub open spec fn departs_in_order(tt: &MmapTimetable, r: int) -> bool {
    forall|q: int| 0 <= q < tt.n_stops(r) ==> #[trigger] leave_in_order(tt, r, q)
}

/// The trips of route `r` keep their order: they arrive at and leave each position in order, and
/// one that leaves no later than another left every earlier position no later than it.
pub open spec fn steady(tt: &MmapTimetable, r: int) -> bool {
    &&& departs_in_order(tt, r)
    &&& forall|q: int| 0 <= q < tt.n_stops(r) ==> #[trigger] arrive_in_order(tt, r, q)
    &&& forall|a: int, b: int, p: int, q: int|
        0 <= a < tt.n_trips(r) && 0 <= b < tt.n_trips(r) && 0 <= p < q < tt.n_stops(r)
            ==> #[trigger] keeps_behind(tt, r, a, b, p, q)
}

/// At the stops of route `r` of which row `row` knows nothing, no trip arrives while another
/// stands there that leaves first.
pub open spec fn apart_where_unknown(
    tt: &MmapTimetable,
    s: SearchState,
    row: int,
    r: int,
) -> bool {
    forall|a: int, b: int, q: int|
        0 <= a < tt.n_trips(r) && 0 <= b < tt.n_trips(r) && 0 <= q < tt.n_stops(r)
            && s.best[row][tt.stop_at(r, q).stop_index as int] is None ==> #[trigger] keeps_apart(
            tt,
            r,
            a,
            b,
            q,
        )
}

/// That held in every row, up to row `row`, that knew of stop `stop` what row `row` does.
pub open spec fn apart_since_known(
    tt: &MmapTimetable,
    s: SearchState,
    row: int,
    stop: int,
    r: int,
) -> bool {
    forall|earlier: int|
        0 <= earlier <= row && s.best[earlier][stop] == s.best[row][stop]
            ==> #[trigger] apart_where_unknown(tt, s, earlier, r)
}

/// If trip `a` leaves position `q` no later than trip `b`, it left position `p` no later.
pub open spec fn keeps_behind(
    tt: &MmapTimetable,
    r: int,
    a: int,
    b: int,
    p: int,
    q: int,
) -> bool {
    tt.time_at(r, a, q).departure_time.epoch_seconds <= tt.time_at(
        r,
        b,
        q,
    ).departure_time.epoch_seconds ==> tt.time_at(r, a, p).departure_time.epoch_seconds
        <= tt.time_at(r, b, p).departure_time.epoch_seconds
}

/// If trip `b` is at position `q` before trip `a` leaves it, it leaves no later.
pub open spec fn keeps_apart(tt: &MmapTimetable, r: int, a: int, b: int, q: int) -> bool {
    tt.time_at(r, b, q).arrival_time.epoch_seconds <= tt.time_at(
        r,
        a,
        q,
    ).departure_time.epoch_seconds ==> tt.time_at(r, b, q).departure_time.epoch_seconds
        <= tt.time_at(r, a, q).departure_time.epoch_seconds
}

proof fn lemma_scanned_to(
    tt: &MmapTimetable,
    n: nat,
    round: int,
    r: int,
    i: int,
    qs: int,
    previous_step: usize,
    s: SearchState,
    any: bool,
    q: int,
)
    requires
        tt.wf(),
        n == tt.stops@.len(),
        fits(n, s),
        0 <= round <= usize::MAX,
        round < s.best.len(),
        0 <= r < tt.routes@.len(),
        0 <= i < tt.n_trips(r),
        0 <= qs,
        q <= tt.n_stops(r),
    ensures
        ({
            let t = scanned_to(tt, round, r, i, qs, previous_step, s, any, q);
            &&& grows(Direction::Forward, n, round, s, t.0)
            &&& !t.1 ==> t.0 == s && !any
            &&& t.1 ==> any || t.0.steps.len() > s.steps.len()
            &&& forall|p: int|
                qs < p < q ==> settled(
                    Direction::Forward,
                    t.0,
                    round,
                    (#[trigger] tt.stop_at(r, p)).stop_index as int,
                    tt.time_at(r, i, p).arrival_time.epoch_seconds as int,
                )
        }),
    decreases q - qs,
{
    if q > qs + 1 {
        lemma_scanned_to(tt, n, round, r, i, qs, previous_step, s, any, q - 1);
        let before = scanned_to(tt, round, r, i, qs, previous_step, s, any, q - 1).0;
        let after = scanned_to(tt, round, r, i, qs, previous_step, s, any, q).0;
        let step = ride_to(tt, round, r, i, qs, q - 1, previous_step);
        assert(tt.route_stop_ok(r, q - 1));
        lemma_offered(Direction::Forward, n, before, step, round);
        lemma_grows_on(Direction::Forward, n, round, s, before, after);
        assert(settled(
            Direction::Forward,
            after,
            round,
            tt.stop_at(r, q - 1).stop_index as int,
            gained(Direction::Forward, step),
        ));
        assert forall|p: int| qs < p < q implies settled(
            Direction::Forward,
            after,
            round,
            (#[trigger] tt.stop_at(r, p)).stop_index as int,
            tt.time_at(r, i, p).arrival_time.epoch_seconds as int,
        ) by {
            assert(tt.route_stop_ok(r, p));
            if p < q - 1 {
                assert(settled(
                    Direction::Forward,
                    before,
                    round,
                    tt.stop_at(r, p).stop_index as int,
                    tt.time_at(r, i, p).arrival_time.epoch_seconds as int,
                ));
            }
        }
    } else {
        lemma_grows_not(Direction::Forward, n, round, s);
    }
}

proof fn lemma_scanned_back_position(
    tt: &MmapTimetable,
    n: nat,
    round: int,
    r: int,
    scan: Scan,
    q: int,
)
    requires
        tt.wf(),
        n == tt.stops@.len(),
        fits(n, scan.s),
        0 < round <= usize::MAX,
        round < scan.s.best.len(),
        0 <= r < tt.routes@.len(),
        0 <= q < tt.n_stops(r),
        scan.ride matches Some((c, qb)) ==> 0 <= c < tt.n_trips(r) && q < qb < tt.n_stops(r),
    ensures
        ({
            let after = scanned_back_position(tt, round, r, scan, q);
            &&& grows(Direction::Backward, n, round, scan.s, after.s)
            &&& !after.any ==> after.s == scan.s && !scan.any
            &&& after.any ==> scan.any || after.s.steps.len() > scan.s.steps.len()
            &&& after.ride matches Some((c, qb)) ==> 0 <= c < tt.n_trips(r) && q <= qb
                < tt.n_stops(r)
            &&& scan.ride matches Some((c, qb)) ==> (scan.s.best[round - 1][tt.stop_at(
                r,
                qb,
            ).stop_index as int] is Some ==> settled(
                Direction::Backward,
                after.s,
                round,
                tt.stop_at(r, q).stop_index as int,
                tt.time_at(r, c, q).departure_time.epoch_seconds as int,
            ))
        }),
{
    let after = scanned_back_position(tt, round, r, scan, q);
    let here = scan.s.best[round - 1][tt.stop_at(r, q).stop_index as int];
    assert(tt.route_ok(r));
    assert(tt.route_stop_ok(r, q));
    lemma_grows_not(Direction::Backward, n, round, scan.s);
    match scan.ride {
        None => {
            if here is Some {
                lemma_latest_trip(tt, r, q, here->0.final_time);
            }
        },
        Some((c, qb)) => {
            let there = scan.s.best[round - 1][tt.stop_at(r, qb).stop_index as int];
            if there is Some {
                let step = ride_back_to(tt, round, r, c, qb, q, there->0.last_step);
                lemma_offered(Direction::Backward, n, scan.s, step, round);
                assert(settled(
                    Direction::Backward,
                    after.s,
                    round,
                    tt.stop_at(r, q).stop_index as int,
                    gained(Direction::Backward, step),
                ));
                let leaves = tt.time_at(r, c, q).departure_time;
                lemma_latest_trip(tt, r, q, leaves);
                if here is Some {
                    lemma_latest_trip(tt, r, q, here->0.final_time);
                }
            }
        },
    }
}

proof fn lemma_scanned_back(
    tt: &MmapTimetable,
    n: nat,
    round: int,
    r: int,
    q0: int,
    s: SearchState,
    any: bool,
    q: int,
)
    requires
        tt.wf(),
        n == tt.stops@.len(),
        fits(n, s),
        0 < round <= usize::MAX,
        round < s.best.len(),
        0 <= r < tt.routes@.len(),
        0 <= q <= q0 + 1 <= tt.n_stops(r),
    ensures
        ({
            let scan = scanned_back_to(tt, round, r, q0, s, any, q);
            &&& grows(Direction::Backward, n, round, s, scan.s)
            &&& !scan.any ==> scan.s == s && !any
            &&& scan.any ==> any || scan.s.steps.len() > s.steps.len()
            &&& scan.ride matches Some((c, qb)) ==> 0 <= c < tt.n_trips(r) && q <= qb
                < tt.n_stops(r)
        }),
    decreases q0 + 1 - q,
{
    if q <= q0 {
        lemma_scanned_back(tt, n, round, r, q0, s, any, q + 1);
        let before = scanned_back_to(tt, round, r, q0, s, any, q + 1);
        lemma_scanned_back_position(tt, n, round, r, before, q);
        let after = scanned_back_to(tt, round, r, q0, s, any, q);
        lemma_grows_on(Direction::Backward, n, round, s, before.s, after.s);
    } else {
        lemma_grows_not(Direction::Backward, n, round, s);
    }
}

/// On a route whose trips keep their order, the ride that is taken back is one that leads on from
/// where one has to be.
proof fn lemma_ride_known(
    tt: &MmapTimetable,
    n: nat,
    round: int,
    r: int,
    q0: int,
    s: SearchState,
    any: bool,
    q: int,
)
    requires
        tt.wf(),
        n == tt.stops@.len(),
        fits(n, s),
        0 < round <= usize::MAX,
        round < s.best.len(),
        0 <= r < tt.routes@.len(),
        0 <= q <= q0 + 1 <= tt.n_stops(r),
        steady(tt, r),
        apart_where_unknown(tt, s, round - 1, r),
    ensures
        scanned_back_to(tt, round, r, q0, s, any, q).ride matches Some((c, qb)) ==> s.best[round
            - 1][tt.stop_at(r, qb).stop_index as int] is Some,
    decreases q0 + 1 - q,
{
    if q <= q0 {
        lemma_ride_known(tt, n, round, r, q0, s, any, q + 1);
        lemma_scanned_back(tt, n, round, r, q0, s, any, q + 1);
        let before = scanned_back_to(tt, round, r, q0, s, any, q + 1);
        assert(before.s.best[round - 1] == s.best[round - 1]);
        assert(tt.route_ok(r));
        if before.ride is Some {
            let (c, qb) = before.ride->0;
            let leaves = tt.time_at(r, c, q).departure_time;
            lemma_latest_trip(tt, r, q, leaves);
            let here = s.best[round - 1][tt.stop_at(r, q).stop_index as int];
            if here is None && latest_trip(tt, r, q, leaves) is Some {
                let k = latest_trip(tt, r, q, leaves)->0;
                assert(keeps_apart(tt, r, c, k, q));
            }
        }
    }
}

/// The trip that a scan back is on.
spec fn on_board(scan: Scan) -> int {
    match scan.ride {
        Some((trip, _)) => trip,
        None => -1,
    }
}

/// Once the scan back passed position `at`, where trip `i` arrives in time, it is on a trip that
/// leaves every earlier position no earlier than trip `i`; and between them that is no news.
proof fn lemma_scan_back_catches(
    tt: &MmapTimetable,
    n: nat,
    round: int,
    r: int,
    q0: int,
    s: SearchState,
    any: bool,
    q: int,
    at: int,
    i: int,
)
    requires
        tt.wf(),
        n == tt.stops@.len(),
        fits(n, s),
        0 < round <= usize::MAX,
        round < s.best.len(),
        0 <= r < tt.routes@.len(),
        0 <= q <= at <= q0 < tt.n_stops(r),
        steady(tt, r),
        apart_where_unknown(tt, s, round - 1, r),
        0 <= i < tt.n_trips(r),
        s.best[round - 1][tt.stop_at(r, at).stop_index as int] is Some,
        tt.time_at(r, i, at).arrival_time.epoch_seconds <= s.best[round - 1][tt.stop_at(
            r,
            at,
        ).stop_index as int]->0.final_time.epoch_seconds,
    ensures
        ({
            let scan = scanned_back_to(tt, round, r, q0, s, any, q);
            &&& scan.ride is Some
            &&& forall|p: int|
                0 <= p < q ==> (#[trigger] tt.time_at(r, i, p)).departure_time.epoch_seconds
                    <= tt.time_at(r, on_board(scan), p).departure_time.epoch_seconds
            &&& forall|p: int|
                q <= p < at ==> settled(
                    Direction::Backward,
                    scan.s,
                    round,
                    (#[trigger] tt.stop_at(r, p)).stop_index as int,
                    tt.time_at(r, i, p).departure_time.epoch_seconds as int,
                )
        }),
    decreases at - q,
{
    let before = scanned_back_to(tt, round, r, q0, s, any, q + 1);
    let after = scanned_back_to(tt, round, r, q0, s, any, q);
    lemma_scanned_back(tt, n, round, r, q0, s, any, q + 1);
    lemma_scanned_back(tt, n, round, r, q0, s, any, q);
    lemma_ride_known(tt, n, round, r, q0, s, any, q + 1);
    lemma_ride_known(tt, n, round, r, q0, s, any, q);
    lemma_scanned_back_position(tt, n, round, r, before, q);
    assert(before.s.best[round - 1] == s.best[round - 1]);
    assert(tt.route_ok(r));
    let here = s.best[round - 1][tt.stop_at(r, q).stop_index as int];
    if here is Some {
        lemma_latest_trip(tt, r, q, here->0.final_time);
        assert(arrive_in_order(tt, r, q));
    }
    if q == at {
        let last = latest_trip(tt, r, q, here->0.final_time);
        assert(last is Some && i <= last->0) by {
            let arrives = tt.time_at(r, i, q).arrival_time.epoch_seconds;
            assert(arrives <= here->0.final_time.epoch_seconds);
        }
        let l = last->0;
        let c = on_board(after);
        assert(tt.time_at(r, l, q).departure_time.epoch_seconds <= tt.time_at(
            r,
            c,
            q,
        ).departure_time.epoch_seconds);
        assert forall|p: int| 0 <= p < q implies (#[trigger] tt.time_at(
            r,
            i,
            p,
        )).departure_time.epoch_seconds <= tt.time_at(r, c, p).departure_time.epoch_seconds by {
            assert(leave_in_order(tt, r, p));
            assert(keeps_behind(tt, r, l, c, p, q));
            assert(tt.time_at(r, i, p).departure_time.epoch_seconds <= tt.time_at(
                r,
                l,
                p,
            ).departure_time.epoch_seconds);
        }
    } else {
        lemma_scan_back_catches(tt, n, round, r, q0, s, any, q + 1, at, i);
        let d = on_board(before);
        let c = on_board(after);
        assert(tt.time_at(r, d, q).departure_time.epoch_seconds <= tt.time_at(
            r,
            c,
            q,
        ).departure_time.epoch_seconds);
        assert forall|p: int| 0 <= p < q implies (#[trigger] tt.time_at(
            r,
            i,
            p,
        )).departure_time.epoch_seconds <= tt.time_at(r, c, p).departure_time.epoch_seconds by {
            assert(keeps_behind(tt, r, d, c, p, q));
        }
        assert forall|p: int| q <= p < at implies settled(
            Direction::Backward,
            after.s,
            round,
            (#[trigger] tt.stop_at(r, p)).stop_index as int,
            tt.time_at(r, i, p).departure_time.epoch_seconds as int,
        ) by {
            assert(tt.route_stop_ok(r, p));
            let stop = tt.stop_at(r, p).stop_index as int;
            let leaves = tt.time_at(r, i, p).departure_time.epoch_seconds as int;
            if p == q {
                let taken = tt.time_at(r, d, q).departure_time.epoch_seconds as int;
                assert(settled(Direction::Backward, after.s, round, stop, taken));
                lemma_settled_earlier(after.s, round, stop, taken, leaves);
            } else {
                assert(settled(Direction::Backward, before.s, round, stop, leaves));
                lemma_grows_step(Direction::Backward, n, round, before.s, after.s);
            }
        }
    }
}

/// Searching back, one stays aboard as long as one can: the trip that a scan is on gets to no
/// position behind the one where one alights in time for what is known there.
pub proof fn lemma_stays_aboard(
    tt: &MmapTimetable,
    n: nat,
    round: int,
    r: int,
    q0: int,
    s: SearchState,
    any: bool,
    q: int,
)
    requires
        tt.wf(),
        n == tt.stops@.len(),
        fits(n, s),
        0 < round <= usize::MAX,
        round < s.best.len(),
        0 <= r < tt.routes@.len(),
        0 <= q <= q0 + 1 <= tt.n_stops(r),
        steady(tt, r),
        apart_where_unknown(tt, s, round - 1, r),
    ensures
        scanned_back_to(tt, round, r, q0, s, any, q).ride matches Some((c, qb)) ==> {
            &&& q <= qb <= q0
            &&& s.best[round - 1][tt.stop_at(r, qb).stop_index as int] is Some
            &&& tt.time_at(r, c, qb).arrival_time.epoch_seconds <= s.best[round - 1][tt.stop_at(
                r,
                qb,
            ).stop_index as int]->0.final_time.epoch_seconds
            &&& forall|at: int|
                qb < at <= q0 && s.best[round - 1][(#[trigger] tt.stop_at(
                    r,
                    at,
                )).stop_index as int] is Some ==> tt.time_at(
                    r,
                    c,
                    at,
                ).arrival_time.epoch_seconds > s.best[round - 1][tt.stop_at(
                    r,
                    at,
                ).stop_index as int]->0.final_time.epoch_seconds
        },
    decreases q0 + 1 - q,
{
    if q <= q0 {
        lemma_stays_aboard(tt, n, round, r, q0, s, any, q + 1);
        lemma_scanned_back(tt, n, round, r, q0, s, any, q + 1);
        lemma_scanned_back(tt, n, round, r, q0, s, any, q);
        lemma_ride_known(tt, n, round, r, q0, s, any, q);
        let before = scanned_back_to(tt, round, r, q0, s, any, q + 1);
        let after = scanned_back_to(tt, round, r, q0, s, any, q);
        assert(before.s.best[round - 1] == s.best[round - 1]);
        assert(tt.route_ok(r));
        let here = s.best[round - 1][tt.stop_at(r, q).stop_index as int];
        if here is Some {
            lemma_latest_trip(tt, r, q, here->0.final_time);
        }
        if before.ride is Some {
            lemma_latest_trip(
                tt,
                r,
                q,
                tt.time_at(r, on_board(before), q).departure_time,
            );
        }
        if after.ride is Some && after.ride != before.ride {
            let c = on_board(after);
            assert forall|at: int|
                q < at <= q0 && s.best[round - 1][(#[trigger] tt.stop_at(
                    r,
                    at,
                )).stop_index as int] is Some implies tt.time_at(
                r,
                c,
                at,
            ).arrival_time.epoch_seconds > s.best[round - 1][tt.stop_at(
                r,
                at,
            ).stop_index as int]->0.final_time.epoch_seconds by {
                let known = s.best[round - 1][tt.stop_at(r, at).stop_index as int]->0;
                if tt.time_at(r, c, at).arrival_time.epoch_seconds
                    <= known.final_time.epoch_seconds {
                    lemma_scan_back_catches(tt, n, round, r, q0, s, any, q + 1, at, c);
                    assert(tt.time_at(r, c, q).departure_time.epoch_seconds <= tt.time_at(
                        r,
                        on_board(before),
                        q,
                    ).departure_time.epoch_seconds);
                }
            }
        }
    }
}

proof fn lemma_grows_step(dir: Direction, n: nat, from: int, s: SearchState, t: SearchState)
    requires
        grows(dir, n, from, s, t),
    ensures
        forall|row: int, stop: int, time: int|
            0 <= row < s.best.len() && 0 <= stop < n && #[trigger] settled(dir, s, row, stop, time)
                ==> settled(dir, t, row, stop, time),
{
    assert forall|row: int, stop: int, time: int|
        0 <= row < s.best.len() && 0 <= stop < n && #[trigger] settled(
            dir,
            s,
            row,
            stop,
            time,
        ) implies settled(dir, t, row, stop, time) by {}
}

/// Searching back, what is no news at one time is none at an earlier one.
proof fn lemma_settled_earlier(s: SearchState, row: int, stop: int, time: int, earlier: int)
    requires
        settled(Direction::Backward, s, row, stop, time),
        earlier <= time,
    ensures
        settled(Direction::Backward, s, row, stop, earlier),
{
    if outrun(Direction::Backward, s, time) {
        let k = choose|k: int|
            0 <= k < s.query.targets.len() && #[trigger] gets_through(
                Direction::Backward,
                s,
                k,
                time,
            );
        assert(gets_through(Direction::Backward, s, k, earlier));
    }
}

/// The last call before position `q` is the last one.
proof fn lemma_last_call(tt: &MmapTimetable, r: int, stop: usize, q: int, at: int)
    requires
        0 <= at < q,
        tt.stop_at(r, at).stop_index == stop,
    ensures
        at <= last_call(tt, r, stop, q) < q,
    decreases q,
{
    if tt.stop_at(r, q - 1).stop_index != stop {
        lemma_last_call(tt, r, stop, q - 1, at);
    }
}

proof fn lemma_scanned_route(
    dir: Direction,
    tt: &MmapTimetable,
    n: nat,
    round: int,
    r: int,
    m: TripStopTime,
    s: SearchState,
    any: bool,
)
    requires
        tt.wf(),
        n == tt.stops@.len(),
        fits(n, s),
        0 < round <= usize::MAX,
        round < s.best.len(),
        0 <= r < tt.routes@.len(),
        mark_ok(tt, r, m),
    ensures
        grows(dir, n, round, s, scanned_route(dir, tt, round, r, m, s, any).0),
        !scanned_route(dir, tt, round, r, m, s, any).1 ==> scanned_route(
            dir,
            tt,
            round,
            r,
            m,
            s,
            any,
        ).0 == s && !any,
        scanned_route(dir, tt, round, r, m, s, any).1 ==> any || scanned_route(
            dir,
            tt,
            round,
            r,
            m,
            s,
            any,
        ).0.steps.len() > s.steps.len(),
{
    lemma_grows_not(dir, n, round, s);
    if m.trip_index != usize::MAX {
        assert(tt.route_ok(r));
        let qs = m.route_stop_seq as int;
        match dir {
            Direction::Forward => {
                let known = s.best[round - 1][marked_stop(tt, r, m) as int];
                if known is Some {
                    lemma_earliest_trip(tt, r, qs, known->0.final_time);
                    let found = earliest_trip(tt, r, qs, known->0.final_time);
                    if found is Some {
                        lemma_scanned_to(
                            tt,
                            n,
                            round,
                            r,
                            found->0,
                            qs,
                            known->0.last_step,
                            s,
                            any,
                            tt.n_stops(r),
                        );
                    }
                }
            },
            Direction::Backward => {
                lemma_last_call(tt, r, marked_stop(tt, r, m), tt.n_stops(r), qs);
                let q0 = last_call(tt, r, marked_stop(tt, r, m), tt.n_stops(r));
                lemma_scanned_back(tt, n, round, r, q0, s, any, 0);
            },
        }
    }
}

spec fn order_fits(order: Seq<usize>, marks: Seq<TripStopTime>) -> bool {
    &&& order.len() == marks.len()
    &&& forall|k: int| 0 <= k < order.len() ==> #[trigger] order[k] < marks.len()
}

proof fn lemma_scanned_routes(
    dir: Direction,
    tt: &MmapTimetable,
    n: nat,
    round: int,
    marks: Seq<TripStopTime>,
    order: Seq<usize>,
    s: SearchState,
    a: int,
    b: int,
)
    requires
        tt.wf(),
        n == tt.stops@.len(),
        fits(n, s),
        0 < round <= usize::MAX,
        round < s.best.len(),
        marks_ok(tt, marks),
        order_fits(order, marks),
        0 <= a <= b <= order.len(),
    ensures
        grows(
            dir,
            n,
            round,
            scanned_routes(dir, tt, round, marks, order, s, a).0,
            scanned_routes(dir, tt, round, marks, order, s, b).0,
        ),
        grows(dir, n, round, s, scanned_routes(dir, tt, round, marks, order, s, a).0),
        !scanned_routes(dir, tt, round, marks, order, s, b).1 ==> scanned_routes(
            dir,
            tt,
            round,
            marks,
            order,
            s,
            b,
        ).0 == s,
        scanned_routes(dir, tt, round, marks, order, s, b).1 ==> scanned_routes(
            dir,
            tt,
            round,
            marks,
            order,
            s,
            b,
        ).0.steps.len() > s.steps.len(),
    decreases b,
{
    if b <= 0 {
        lemma_grows_not(dir, n, round, s);
    } else {
        lemma_scanned_routes(dir, tt, n, round, marks, order, s, if a < b {
            a
        } else {
            0
        }, b - 1);
        lemma_scanned_routes(dir, tt, n, round, marks, order, s, b - 1, b - 1);
        let (before, any) = scanned_routes(dir, tt, round, marks, order, s, b - 1);
        let after = scanned_routes(dir, tt, round, marks, order, s, b).0;
        let r = order[b - 1] as int;
        assert(mark_ok(tt, r, marks[r]));
        lemma_scanned_route(dir, tt, n, round, r, marks[r], before, any);
        lemma_grows_on(dir, n, round, s, before, after);
        if a < b {
            let start = scanned_routes(dir, tt, round, marks, order, s, a).0;
            lemma_grows_on(dir, n, round, start, before, after);
        } else {
            lemma_grows_not(dir, n, round, after);
        }
    }
}

/// Searching forward, route `r` is taken from position `qs`, where row `row` is in time for trip
/// `b`, to all later positions; that trip leaves no later there than trip `i` leaves position `q`,
/// or it is an earlier trip.
pub open spec fn boards(
    tt: &MmapTimetable,
    s: SearchState,
    row: int,
    r: int,
    i: int,
    q: int,
    b: int,
    qs: int,
) -> bool {
    let stop = tt.stop_at(r, qs).stop_index as int;
    let leaves = tt.time_at(r, b, qs).departure_time.epoch_seconds;
    &&& 0 <= b < tt.n_trips(r)
    &&& 0 <= qs < tt.n_stops(r)
    &&& s.best[row][stop] is Some
    &&& s.best[row][stop]->0.final_time.epoch_seconds <= leaves
    &&& {
        ||| b < i
        ||| leaves < tt.time_at(r, i, q).departure_time.epoch_seconds
        ||| leaves == tt.time_at(r, i, q).departure_time.epoch_seconds && (qs == q ==> b <= i)
    }
    &&& forall|p: int|
        qs < p < tt.n_stops(r) ==> settled(
            Direction::Forward,
            s,
            row + 1,
            (#[trigger] tt.stop_at(r, p)).stop_index as int,
            tt.time_at(r, b, p).arrival_time.epoch_seconds as int,
        )
}

/// The rides from call `j` at stop `stop`, as far as row `row` is there in time, are no news to
/// the row after it.
///
/// Searching back, that holds of every trip that arrives in time, and of every position before
/// that call, on a route whose trips keep their order, and apart where nothing was known.
/// Searching forward, where several stops of a route are known, one of them is boarded at.
pub open spec fn ride_on(
    dir: Direction,
    tt: &MmapTimetable,
    s: SearchState,
    row: int,
    stop: int,
    j: int,
) -> bool {
    let r = tt.stop_route_at(stop, j).route_index as int;
    let q = tt.stop_route_at(stop, j).stop_seq as int;
    s.best[row][stop] is Some ==> match dir {
        Direction::Forward => departs_in_order(tt, r) ==> forall|i: int|
            0 <= i < tt.n_trips(r) && s.best[row][stop]->0.final_time.epoch_seconds <= (
            #[trigger] tt.time_at(r, i, q)).departure_time.epoch_seconds < u32::MAX ==> exists|
                b: int,
                qs: int,
            | #[trigger]
                boards(tt, s, row, r, i, q, b, qs),
        Direction::Backward => steady(tt, r) && apart_since_known(
            tt,
            s,
            row,
            stop,
            r,
        ) ==> forall|i: int, p: int|
            0 <= i < tt.n_trips(r) && 0 <= p < q && tt.time_at(r, i, q).arrival_time.epoch_seconds
                <= s.best[row][stop]->0.final_time.epoch_seconds ==> settled(
                Direction::Backward,
                s,
                row + 1,
                tt.stop_at(r, p).stop_index as int,
                (#[trigger] tt.time_at(r, i, p)).departure_time.epoch_seconds as int,
            ),
    }
}

proof fn lemma_boards_kept(
    tt: &MmapTimetable,
    n: nat,
    s: SearchState,
    row: int,
    t: SearchState,
    to: int,
    r: int,
    i: int,
    q: int,
    b: int,
    qs: int,
)
    requires
        tt.wf(),
        n == tt.stops@.len(),
        0 <= r < tt.routes@.len(),
        boards(tt, s, row, r, i, q, b, qs),
        forall|stop: int|
            0 <= stop < n && (#[trigger] s.best[row][stop]) is Some ==> t.best[to][stop] is Some
                && t.best[to][stop]->0.final_time.epoch_seconds
                <= s.best[row][stop]->0.final_time.epoch_seconds,
        forall|stop: int, time: int|
            0 <= stop < n && #[trigger] settled(Direction::Forward, s, row + 1, stop, time)
                ==> settled(Direction::Forward, t, to + 1, stop, time),
    ensures
        boards(tt, t, to, r, i, q, b, qs),
{
    assert(tt.route_stop_ok(r, qs));
    let stop = tt.stop_at(r, qs).stop_index as int;
    assert(s.best[row][stop] is Some);
    assert forall|p: int| qs < p < tt.n_stops(r) implies settled(
        Direction::Forward,
        t,
        to + 1,
        (#[trigger] tt.stop_at(r, p)).stop_index as int,
        tt.time_at(r, b, p).arrival_time.epoch_seconds as int,
    ) by {
        assert(tt.route_stop_ok(r, p));
        assert(settled(
            Direction::Forward,
            s,
            row + 1,
            tt.stop_at(r, p).stop_index as int,
            tt.time_at(r, b, p).arrival_time.epoch_seconds as int,
        ));
    }
}

/// Rides that are no news to one row are none to later ones, nor later on.
proof fn lemma_ride_on_kept(
    dir: Direction,
    tt: &MmapTimetable,
    n: nat,
    s: SearchState,
    row: int,
    t: SearchState,
    to: int,
    stop: int,
    j: int,
)
    requires
        tt.wf(),
        n == tt.stops@.len(),
        0 <= stop < n,
        0 <= j < tt.n_stop_routes(stop),
        ride_on(dir, tt, s, row, stop, j),
        t.best[to][stop] == s.best[row][stop],
        0 <= row <= to,
        forall|earlier: int| 0 <= earlier <= row ==> #[trigger] t.best[earlier] == s.best[earlier],
        dir == Direction::Forward ==> forall|x: int|
            0 <= x < n && (#[trigger] s.best[row][x]) is Some ==> t.best[to][x] is Some
                && t.best[to][x]->0.final_time.epoch_seconds
                <= s.best[row][x]->0.final_time.epoch_seconds,
        forall|x: int, time: int|
            0 <= x < n && #[trigger] settled(dir, s, row + 1, x, time) ==> settled(
                dir,
                t,
                to + 1,
                x,
                time,
            ),
    ensures
        ride_on(dir, tt, t, to, stop, j),
{
    let r = tt.stop_route_at(stop, j).route_index as int;
    let q = tt.stop_route_at(stop, j).stop_seq as int;
    assert(tt.stop_route_ok(stop, j));
    if s.best[row][stop] is Some {
        let time = s.best[row][stop]->0.final_time.epoch_seconds;
        match dir {
            Direction::Forward => {
                if departs_in_order(tt, r) {
                    assert forall|i: int|
                        0 <= i < tt.n_trips(r) && time <= (#[trigger] tt.time_at(
                            r,
                            i,
                            q,
                        )).departure_time.epoch_seconds < u32::MAX implies exists|b: int, qs: int|
                        #[trigger] boards(tt, t, to, r, i, q, b, qs) by {
                        let (b, qs) = choose|b: int, qs: int| #[trigger]
                            boards(tt, s, row, r, i, q, b, qs);
                        lemma_boards_kept(tt, n, s, row, t, to, r, i, q, b, qs);
                    }
                }
            },
            Direction::Backward => {
                if steady(tt, r) && apart_since_known(tt, t, to, stop, r) {
                    assert(apart_since_known(tt, s, row, stop, r)) by {
                        assert forall|earlier: int|
                            0 <= earlier <= row && s.best[earlier][stop]
                                == s.best[row][stop] implies #[trigger] apart_where_unknown(
                            tt,
                            s,
                            earlier,
                            r,
                        ) by {
                            assert(t.best[earlier] == s.best[earlier]);
                            assert(apart_where_unknown(tt, t, earlier, r));
                            assert forall|a: int, b: int, q: int|
                                0 <= a < tt.n_trips(r) && 0 <= b < tt.n_trips(r) && 0 <= q
                                    < tt.n_stops(r) && s.best[earlier][tt.stop_at(
                                    r,
                                    q,
                                ).stop_index as int] is None implies #[trigger] keeps_apart(
                                tt,
                                r,
                                a,
                                b,
                                q,
                            ) by {}
                        }
                    }
                    assert forall|i: int, p: int|
                        0 <= i < tt.n_trips(r) && 0 <= p < q && tt.time_at(
                            r,
                            i,
                            q,
                        ).arrival_time.epoch_seconds <= time implies settled(
                        Direction::Backward,
                        t,
                        to + 1,
                        tt.stop_at(r, p).stop_index as int,
                        (#[trigger] tt.time_at(r, i, p)).departure_time.epoch_seconds as int,
                    ) by {
                        assert(tt.route_stop_ok(r, p));
                        assert(settled(
                            Direction::Backward,
                            s,
                            row + 1,
                            tt.stop_at(r, p).stop_index as int,
                            tt.time_at(r, i, p).departure_time.epoch_seconds as int,
                        ));
                    }
                }
            },
        }
    }
}

/// After the routes that a round marked were scanned, the rides from a stop that it explored are
/// no news.
proof fn lemma_rides_scanned(
    dir: Direction,
    tt: &MmapTimetable,
    n: nat,
    round: int,
    marks: Seq<TripStopTime>,
    order: Seq<usize>,
    s: SearchState,
    stop: int,
    j: int,
)
    requires
        tt.wf(),
        n == tt.stops@.len(),
        fits(n, s),
        0 < round <= usize::MAX,
        round < s.best.len(),
        marks_in_time(dir, tt, s, round - 1, marks),
        order_fits(order, marks),
        forall|r: int| 0 <= r < marks.len() ==> #[trigger] order.contains(r as usize),
        0 <= stop < n,
        0 <= j < tt.n_stop_routes(stop),
        s.best[round - 1][stop] is Some,
        call_heeded(
            dir,
            tt,
            marks,
            stop,
            j,
            s.best[round - 1][stop]->0.final_time.epoch_seconds as int,
        ),
    ensures
        ride_on(
            dir,
            tt,
            scanned_routes(dir, tt, round, marks, order, s, marks.len() as int).0,
            round - 1,
            stop,
            j,
        ),
{
    let r = tt.stop_route_at(stop, j).route_index as int;
    let q = tt.stop_route_at(stop, j).stop_seq as int;
    let all = marks.len() as int;
    let end = scanned_routes(dir, tt, round, marks, order, s, all).0;
    let time = s.best[round - 1][stop]->0.final_time.epoch_seconds;
    assert(tt.stop_route_ok(stop, j));
    assert(tt.route_ok(r));
    assert(tt.routes.len() == tt.routes@.len());
    assert forall|l: int| 0 <= l < marks.len() implies mark_ok(tt, l, #[trigger] marks[l]) by {
        assert(in_time_for_mark(dir, tt, s, round - 1, l, marks[l]));
    }
    assert(order.contains(r as usize));
    let k = order.index_of(r as usize);
    lemma_scanned_routes(dir, tt, n, round, marks, order, s, k, k);
    lemma_scanned_routes(dir, tt, n, round, marks, order, s, k + 1, all);
    lemma_scanned_routes(dir, tt, n, round, marks, order, s, all, all);
    let (before, any) = scanned_routes(dir, tt, round, marks, order, s, k);
    let after = scanned_routes(dir, tt, round, marks, order, s, k + 1).0;
    assert(before.best[round - 1] == s.best[round - 1]);
    assert(end.best[round - 1] == s.best[round - 1]);
    let m = marks[r];
    assert(in_time_for_mark(dir, tt, s, round - 1, r, m));
    lemma_grows_step(dir, n, round, after, end);
    match dir {
        Direction::Forward => {
            if departs_in_order(tt, r) {
                assert(leave_in_order(tt, r, q));
                assert forall|i: int|
                    0 <= i < tt.n_trips(r) && time <= (#[trigger] tt.time_at(
                        r,
                        i,
                        q,
                    )).departure_time.epoch_seconds < u32::MAX implies exists|b: int, qs: int|
                    #[trigger] boards(tt, end, round - 1, r, i, q, b, qs) by {
                    assert(sooner(tt, r, m, i, q));
                    let qs = m.route_stop_seq as int;
                    let im = m.trip_index - tt.routes@[r].first_route_trip;
                    let known = before.best[round - 1][marked_stop(tt, r, m) as int]->0;
                    assert(leave_in_order(tt, r, qs));
                    lemma_earliest_trip(tt, r, qs, known.final_time);
                    let found = earliest_trip(tt, r, qs, known.final_time);
                    assert(tt.time_at(r, im, qs) == m);
                    assert(found is Some && found->0 <= im);
                    let b = found->0;
                    lemma_scanned_to(
                        tt,
                        n,
                        round,
                        r,
                        b,
                        qs,
                        known.last_step,
                        before,
                        any,
                        tt.n_stops(r),
                    );
                    assert(tt.time_at(r, b, qs).departure_time.epoch_seconds
                        <= m.departure_time.epoch_seconds);
                    assert forall|p: int| qs < p < tt.n_stops(r) implies settled(
                        Direction::Forward,
                        end,
                        round,
                        (#[trigger] tt.stop_at(r, p)).stop_index as int,
                        tt.time_at(r, b, p).arrival_time.epoch_seconds as int,
                    ) by {
                        assert(tt.route_stop_ok(r, p));
                        assert(settled(
                            Direction::Forward,
                            after,
                            round,
                            tt.stop_at(r, p).stop_index as int,
                            tt.time_at(r, b, p).arrival_time.epoch_seconds as int,
                        ));
                    }
                    if qs == q {
                        assert(tt.time_at(r, i, qs).departure_time.epoch_seconds
                            >= known.final_time.epoch_seconds);
                        assert(b <= i);
                    }
                    assert(boards(tt, end, round - 1, r, i, q, b, qs));
                }
            }
        },
        Direction::Backward => {
            if steady(tt, r) && apart_since_known(tt, end, round - 1, stop, r) {
                assert(apart_where_unknown(tt, end, round - 1, r));
                assert(apart_where_unknown(tt, before, round - 1, r)) by {
                    assert forall|a: int, b: int, q: int|
                        0 <= a < tt.n_trips(r) && 0 <= b < tt.n_trips(r) && 0 <= q < tt.n_stops(r)
                            && before.best[round - 1][tt.stop_at(r, q).stop_index as int]
                            is None implies #[trigger] keeps_apart(tt, r, a, b, q) by {}
                }
                assert forall|i: int, p: int|
                    0 <= i < tt.n_trips(r) && 0 <= p < q && tt.time_at(
                        r,
                        i,
                        q,
                    ).arrival_time.epoch_seconds <= time implies settled(
                    Direction::Backward,
                    end,
                    round,
                    tt.stop_at(r, p).stop_index as int,
                    (#[trigger] tt.time_at(r, i, p)).departure_time.epoch_seconds as int,
                ) by {
                    assert(tt.time_at(r, i, q).arrival_time.epoch_seconds <= time);
                    let qs = m.route_stop_seq as int;
                    lemma_last_call(tt, r, marked_stop(tt, r, m), tt.n_stops(r), qs);
                    let q0 = last_call(tt, r, marked_stop(tt, r, m), tt.n_stops(r));
                    lemma_scan_back_catches(tt, n, round, r, q0, before, any, 0, q, i);
                    assert(tt.route_stop_ok(r, p));
                    assert(settled(
                        Direction::Backward,
                        after,
                        round,
                        tt.stop_at(r, p).stop_index as int,
                        tt.time_at(r, i, p).departure_time.epoch_seconds as int,
                    ));
                }
            }
        },
    }
}

/// The stops that row `row` marks are those that a walk leads to.
pub open spec fn ends_on_foot(n: nat, s: SearchState, row: int) -> bool {
    forall|stop: int|
        0 <= stop < n && (#[trigger] s.marks[row][stop]) != StopMark::Unmarked
            ==> s.best[row][stop] is Some
            && s.steps[s.best[row][stop]->0.last_step as int].route is None
}

/// What holds of the search before round `round`: no ride from a stop that a row before the last
/// knew, and no walk from a stop that a ride leads to, was missed.
pub open spec fn nothing_missed(
    dir: Direction,
    tt: &MmapTimetable,
    s: SearchState,
    round: int,
) -> bool {
    let n = tt.stops@.len();
    &&& fits(n, s)
    &&& tidy(dir, n, s)
    &&& s.steps.len() <= usize::MAX
    &&& 0 < round <= s.best.len() <= round + 1
    &&& forall|row: int, stop: int|
        round - 1 <= row < s.best.len() && 0 <= stop < n ==> (#[trigger] s.marks[row][stop])
            != StopMark::MarkedForTransfersOnly
    &&& if round < s.best.len() {
        ends_on_foot(n, s, round)
    } else {
        round == 1 && ends_on_foot(n, s, 0)
    }
    &&& forall|row: int, stop: int|
        0 <= row < round && 0 <= stop < n ==> #[trigger] walks_on(dir, tt, s, row, stop)
    &&& forall|row: int, stop: int, j: int|
        0 <= row < round - 1 && 0 <= stop < n && 0 <= j < tt.n_stop_routes(stop)
            ==> #[trigger] ride_on(dir, tt, s, row, stop, j)
}

proof fn lemma_foot_record(dir: Direction, n: nat, s: SearchState, step: InternalStep, row: int)
    requires
        fits(n, s),
        step.to matches InternalStepLocation::Stop(stop) && stop < n,
        step.round == row,
        row == s.best.len() - 1,
        step.route is None,
        record(dir, s, step).steps.len() <= usize::MAX,
        ends_on_foot(n, s, row),
    ensures
        ends_on_foot(n, record(dir, s, step), row),
{
    let t = record(dir, s, step);
    let stop = step.to->Stop_0 as int;
    if recorded(dir, s, step) {
        let r0 = choose|r0: int|
            step.round <= r0 < s.best.len() && #[trigger] improves(
                dir,
                s.steps,
                s.best[r0][stop],
                step,
            );
        assert(r0 == row);
        assert(t.best[row] == offered_row(dir, s, step, stop, row));
        assert forall|x: int|
            0 <= x < n && (#[trigger] t.marks[row][x]) != StopMark::Unmarked implies t.best[row][x]
            is Some && t.steps[t.best[row][x]->0.last_step as int].route is None by {
            if x != stop {
                assert(s.marks[row][x] != StopMark::Unmarked);
                assert(t.best[row][x] == s.best[row][x]);
                assert(s.best[row][x]->0.last_step < s.steps.len());
            } else {
                assert(t.steps[s.steps.len() as int] == step);
            }
        }
    }
}

proof fn lemma_foot_walked_from(
    dir: Direction,
    tt: &MmapTimetable,
    n: nat,
    round: int,
    s: SearchState,
    stop: int,
    j: int,
)
    requires
        tt.wf(),
        n == tt.stops@.len(),
        fits(n, s),
        0 <= round < usize::MAX,
        round + 2 == s.best.len(),
        0 <= stop < n,
        0 <= j <= tt.n_transfers(stop),
        walked_from(dir, tt, round, s, stop, j).steps.len() <= usize::MAX,
        ends_on_foot(n, s, round + 1),
    ensures
        ends_on_foot(n, walked_from(dir, tt, round, s, stop, j), round + 1),
    decreases j,
{
    if j > 0 {
        let before = walked_from(dir, tt, round, s, stop, j - 1);
        lemma_walked_from(dir, tt, n, round, s, stop, j - 1);
        assert(tt.transfer_ok(stop, j - 1));
        assert(before.best[round] == s.best[round]);
        let known = before.best[round][stop];
        if known is Some && before.steps[known->0.last_step as int].route is Some {
            let step = walk_along(dir, round, tt.transfer_at(stop, j - 1), stop, known->0);
            lemma_offered(dir, n, before, step, round + 1);
            lemma_foot_walked_from(dir, tt, n, round, s, stop, j - 1);
            lemma_foot_record(dir, n, before, step, round + 1);
        } else {
            lemma_foot_walked_from(dir, tt, n, round, s, stop, j - 1);
        }
    }
}

proof fn lemma_foot_walked(
    dir: Direction,
    tt: &MmapTimetable,
    n: nat,
    round: int,
    row: Seq<StopMark>,
    s: SearchState,
    k: int,
)
    requires
        tt.wf(),
        n == tt.stops@.len(),
        fits(n, s),
        0 <= round < usize::MAX,
        round + 2 == s.best.len(),
        0 <= k <= n,
        walked(dir, tt, round, row, s, k).steps.len() <= usize::MAX,
        ends_on_foot(n, s, round + 1),
    ensures
        ends_on_foot(n, walked(dir, tt, round, row, s, k), round + 1),
    decreases k,
{
    if k > 0 {
        let before = walked(dir, tt, round, row, s, k - 1);
        lemma_walked(dir, tt, n, round, row, s, k - 1);
        if row[k - 1] == StopMark::Unmarked {
            lemma_foot_walked(dir, tt, n, round, row, s, k - 1);
        } else {
            assert(tt.transfer_run_ok(k - 1));
            lemma_walked_from(dir, tt, n, round, before, k - 1, tt.n_transfers(k - 1));
            lemma_foot_walked(dir, tt, n, round, row, s, k - 1);
            lemma_foot_walked_from(dir, tt, n, round, before, k - 1, tt.n_transfers(k - 1));
        }
    }
}

/// The rows that a round adds, and the exploring of what the round before marked, change nothing
/// that is known.
proof fn lemma_round_begins(dir: Direction, tt: &MmapTimetable, s: SearchState, round: int)
    requires
        nothing_missed(dir, tt, s, round),
    ensures
        ({
            let n = tt.stops@.len();
            let s1 = extended(n, s, round);
            let s2 = after_exploring(s1, round);
            &&& fits(n, s1)
            &&& tidy(dir, n, s1)
            &&& s1.best.len() == round + 2
            &&& fits(n, s2)
            &&& tidy(dir, n, s2)
            &&& s2.best == s1.best
            &&& s2.steps == s.steps
            &&& s2.query == s.query
            &&& forall|row: int| 0 <= row < s.best.len() ==> #[trigger] s1.best[row] == s.best[row]
            &&& forall|stop: int|
                0 <= stop < n ==> (#[trigger] s1.marks[round - 1][stop]) == s.marks[round - 1][stop]
            &&& forall|stop: int|
                0 <= stop < n ==> (#[trigger] s2.marks[round + 1][stop]) == StopMark::Unmarked
            &&& forall|row: int, stop: int|
                round <= row < round + 2 && 0 <= stop < n ==> (#[trigger] s2.marks[row][stop])
                    != StopMark::MarkedForTransfersOnly
            &&& ends_on_foot(n, s2, round)
            &&& forall|row: int, stop: int, time: int|
                0 <= row < s.best.len() && 0 <= stop < n ==> #[trigger] settled(
                    dir,
                    s,
                    row,
                    stop,
                    time,
                ) == settled(dir, s2, row, stop, time)
        }),
{
    let n = tt.stops@.len();
    let s1 = extended(n, s, round);
    let s2 = after_exploring(s1, round);
    let last = s.best.len() - 1;
    assert(s.best.last() == s.best[last]);
    assert(s1.best.last() == s1.best[round + 1]);
    assert(s1.best[round + 1] == s.best[last]);
    assert forall|row: int, stop: int| 0 <= row < s1.best.len() && 0 <= stop < n implies
        #[trigger] inherits(dir, s1, row, stop) by {
        if row < s.best.len() {
            assert(inherits(dir, s, row, stop));
        } else {
            assert(s1.best[row] == s.best[last]);
            assert(s1.best[row - 1] == s.best[last]);
        }
    }
    assert forall|row: int, stop: int|
        0 <= row < s1.best.len() && 0 <= stop < n && (#[trigger] s1.best[row][stop])
            is Some implies s1.best[row][stop]->0.last_step < s1.steps.len() by {
        if row < s.best.len() {
            assert(s.best[row][stop] is Some);
        } else {
            assert(s.best[last][stop] is Some);
        }
    }
    assert(fits(n, s1));
    assert forall|row: int, stop: int| 0 <= row < s2.best.len() && 0 <= stop < n implies
        #[trigger] inherits(dir, s2, row, stop) by {
        assert(inherits(dir, s1, row, stop));
    }
    assert(fits(n, s2)) by {
        assert forall|row: int, stop: int|
            0 <= row < s2.best.len() && 0 <= stop < n && (#[trigger] s2.best[row][stop])
                is Some implies s2.best[row][stop]->0.last_step < s2.steps.len() by {
            assert(s1.best[row][stop] is Some);
        }
    }
    assert forall|at: int| outrun(dir, s, at) == #[trigger] outrun(dir, s2, at) by {
        if outrun(dir, s, at) {
            let k = choose|k: int|
                0 <= k < s.query.targets.len() && #[trigger] gets_through(dir, s, k, at);
            assert(gets_through(dir, s2, k, at));
        }
        if outrun(dir, s2, at) {
            let k = choose|k: int|
                0 <= k < s2.query.targets.len() && #[trigger] gets_through(dir, s2, k, at);
            assert(gets_through(dir, s, k, at));
        }
    }
    assert forall|stop: int|
        0 <= stop < n && (#[trigger] s2.marks[round][stop]) != StopMark::Unmarked implies
        s2.best[round][stop] is Some && s2.steps[s2.best[round][stop]->0.last_step as int].route
        is None by {
        if round < s.best.len() {
            assert(s.marks[round][stop] != StopMark::Unmarked);
            assert(s2.best[round] == s.best[round]);
        }
    }
    assert forall|row: int, stop: int|
        round <= row < round + 2 && 0 <= stop < n implies (#[trigger] s2.marks[row][stop])
        != StopMark::MarkedForTransfersOnly by {
        if row < s.best.len() {
            assert(s.marks[row][stop] != StopMark::MarkedForTransfersOnly);
        }
    }
}

/// A round misses nothing: afterwards, no ride from a stop that the row before the round knew, and
/// no walk from a stop that a ride of the round leads to, was missed. It reaches a stop exactly if
/// it logs a step.
pub proof fn lemma_round_misses_nothing(
    dir: Direction,
    tt: &MmapTimetable,
    s: SearchState,
    round: int,
)
    requires
        tt.wf(),
        round < usize::MAX,
        nothing_missed(dir, tt, s, round),
        after_round(dir, tt, s, round).steps.len() <= usize::MAX,
    ensures
        nothing_missed(dir, tt, after_round(dir, tt, s, round), round + 1),
        after_round(dir, tt, s, round).best.len() == round + 2,
        round_reaches(dir, tt, s, round) <==> after_round(dir, tt, s, round).steps.len()
            > s.steps.len(),
        after_round(dir, tt, s, round).query == s.query,
        forall|row: int|
            0 <= row < round ==> #[trigger] after_round(dir, tt, s, round).best[row]
                == s.best[row],
        forall|row: int, stop: int, time: int|
            0 <= row < s.best.len() && 0 <= stop < tt.stops@.len() && settled(
                dir,
                s,
                row,
                stop,
                time,
            ) ==> #[trigger] settled(dir, after_round(dir, tt, s, round), row, stop, time),
{
    reveal(after_round);
    reveal(round_reaches);
    let n = tt.stops@.len();
    let s1 = extended(n, s, round);
    let s2 = after_exploring(s1, round);
    lemma_round_begins(dir, tt, s, round);
    let marks = collected(dir, tt, s1, round, n as int);
    lemma_collected(dir, tt, s1, round, n as int);
    let order = scan_order(marks);
    assert(stable_order(scan_keys(marks), order)) by {
        assert(tt.routes.len() == tt.routes@.len());
        let some = lemma_stable_order_exists(scan_keys(marks));
        assert(stable_order(scan_keys(marks), some));
    }
    assert forall|k: int| 0 <= k < order.len() implies #[trigger] order[k] < marks.len() by {}
    assert forall|r: int| 0 <= r < marks.len() implies #[trigger] order.contains(r as usize) by {}
    assert forall|r: int| 0 <= r < marks.len() implies in_time_for_mark(
        dir,
        tt,
        s2,
        round - 1,
        r,
        #[trigger] marks[r],
    ) by {
        assert(in_time_for_mark(dir, tt, s1, round - 1, r, marks[r]));
    }
    assert forall|r: int| 0 <= r < marks.len() implies mark_ok(tt, r, #[trigger] marks[r]) by {
        assert(in_time_for_mark(dir, tt, s1, round - 1, r, marks[r]));
    }
    let all = marks.len() as int;
    let (s3, any) = scanned_routes(dir, tt, round, marks, order, s2, all);
    assert(after_rides(dir, tt, s, round) == (s3, any));
    lemma_scanned_routes(dir, tt, n, round, marks, order, s2, all, all);
    let t = after_round(dir, tt, s, round);
    if any {
        lemma_walked(dir, tt, n, round, s3.marks[round], s3, n as int);
        assert(ends_on_foot(n, s3, round + 1)) by {
            assert(s3.marks[round + 1] == s2.marks[round + 1]);
        }
        lemma_foot_walked(dir, tt, n, round, s3.marks[round], s3, n as int);
    } else {
        lemma_grows_not(dir, n, round + 1, s3);
    }
    assert(grows(dir, n, round + 1, s3, t));
    lemma_grows_step(dir, n, round, s2, s3);
    lemma_grows_step(dir, n, round + 1, s3, t);
    assert(s3.best[round - 1] == s2.best[round - 1]);
    assert(t.best[round - 1] == s3.best[round - 1]);
    assert(t.best[round] == s3.best[round]);
    assert(ends_on_foot(n, t, round + 1)) by {
        if !any {
            assert(t == s2);
        }
    }
    assert forall|row: int, stop: int|
        round <= row < t.best.len() && 0 <= stop < n implies (#[trigger] t.marks[row][stop])
        != StopMark::MarkedForTransfersOnly by {
        assert(s3.marks[row][stop] == s2.marks[row][stop] || s3.marks[row][stop]
            == StopMark::Marked);
        assert(s2.marks[row][stop] != StopMark::MarkedForTransfersOnly);
    }
    assert forall|row: int| 0 <= row < round implies #[trigger] t.best[row] == s.best[row] by {
        assert(t.best[row] == s3.best[row]);
        assert(s3.best[row] == s2.best[row]);
        assert(s1.best[row] == s.best[row]);
    }
    assert forall|row: int, stop: int, time: int|
        0 <= row < s.best.len() && 0 <= stop < n && settled(
            dir,
            s,
            row,
            stop,
            time,
        ) implies #[trigger] settled(dir, t, row, stop, time) by {
        assert(settled(dir, s2, row, stop, time));
        assert(settled(dir, s3, row, stop, time));
    }
    assert forall|row: int, stop: int| 0 <= row < round + 1 && 0 <= stop < n implies
        #[trigger] walks_on(dir, tt, t, row, stop) by {
        lemma_round_walks(dir, tt, s, s2, s3, t, round, any, row, stop);
    }
    assert forall|row: int, stop: int, j: int|
        0 <= row < round && 0 <= stop < n && 0 <= j < tt.n_stop_routes(stop) implies
        #[trigger] ride_on(dir, tt, t, row, stop, j) by {
        assert(t.best[row] == s3.best[row]);
        assert(s3.best[row] == s2.best[row]);
        assert(s1.best[row] == s.best[row]);
        assert forall|earlier: int| 0 <= earlier <= row implies #[trigger] t.best[earlier]
            == s.best[earlier] by {
            assert(t.best[earlier] == s3.best[earlier]);
            assert(s3.best[earlier] == s2.best[earlier]);
            assert(s1.best[earlier] == s.best[earlier]);
        }
        assert forall|earlier: int| 0 <= earlier <= row implies #[trigger] t.best[earlier]
            == s3.best[earlier] by {}
        if row < round - 1 {
            assert(ride_on(dir, tt, s, row, stop, j));
            assert forall|x: int, time: int|
                0 <= x < n && #[trigger] settled(dir, s, row + 1, x, time) implies settled(
                dir,
                t,
                row + 1,
                x,
                time,
            ) by {
                assert(settled(dir, s2, row + 1, x, time));
                assert(settled(dir, s3, row + 1, x, time));
            }
            lemma_ride_on_kept(dir, tt, n, s, row, t, row, stop, j);
        } else if s.marks[row][stop] == StopMark::Marked {
            assert(s1.marks[round - 1][stop] == s.marks[round - 1][stop]);
            assert(inherits(dir, s1, row, stop));
            assert(call_heeded(
                dir,
                tt,
                marks,
                stop,
                j,
                s1.best[round - 1][stop]->0.final_time.epoch_seconds as int,
            ));
            lemma_rides_scanned(dir, tt, n, round, marks, order, s2, stop, j);
            lemma_ride_on_kept(dir, tt, n, s3, row, t, row, stop, j);
        } else {
            assert(s.marks[row][stop] == StopMark::Unmarked);
            assert(inherits(dir, s, row, stop));
            if row > 0 {
                assert(ride_on(dir, tt, s, row - 1, stop, j));
                assert forall|x: int, time: int|
                    0 <= x < n && #[trigger] settled(dir, s, row, x, time) implies settled(
                    dir,
                    t,
                    row + 1,
                    x,
                    time,
                ) by {
                    assert(settled(dir, s2, row, x, time));
                    assert(settled(dir, s3, row, x, time));
                    assert(settled(dir, t, row, x, time));
                    assert(inherits(dir, t, row + 1, x));
                }
                assert forall|x: int| 0 <= x < n && (#[trigger] s.best[row - 1][x]) is Some && dir
                    == Direction::Forward implies t.best[row][x] is Some
                    && t.best[row][x]->0.final_time.epoch_seconds
                    <= s.best[row - 1][x]->0.final_time.epoch_seconds by {
                    assert(inherits(dir, s, row, x));
                }
                lemma_ride_on_kept(dir, tt, n, s, row - 1, t, row, stop, j);
            }
        }
    }
}

proof fn lemma_round_walks(
    dir: Direction,
    tt: &MmapTimetable,
    s: SearchState,
    s2: SearchState,
    s3: SearchState,
    t: SearchState,
    round: int,
    any: bool,
    row: int,
    stop: int,
)
    requires
        tt.wf(),
        nothing_missed(dir, tt, s, round),
        s2 == after_exploring(extended(tt.stops@.len(), s, round), round),
        grows(dir, tt.stops@.len(), round, s2, s3),
        grows(dir, tt.stops@.len(), round + 1, s3, t),
        !any ==> s3 == s2,
        any ==> forall|x: int|
            0 <= x < tt.stops@.len() && s3.marks[round][x] != StopMark::Unmarked
                ==> #[trigger] walks_on(dir, tt, t, round, x),
        0 <= row < round + 1,
        0 <= stop < tt.stops@.len(),
    ensures
        walks_on(dir, tt, t, row, stop),
{
    let n = tt.stops@.len();
    lemma_round_begins(dir, tt, s, round);
    assert(t.best[row] == s3.best[row]);
    if row < round {
        assert(walks_on(dir, tt, s, row, stop));
        assert(s2.best[row] == s.best[row]);
        lemma_walks_begin(dir, tt, s, s2, round, row, stop);
        lemma_walks_on_kept(dir, tt, n, round, s2, s3, row, stop);
        lemma_walks_on_kept(dir, tt, n, round + 1, s3, t, row, stop);
    } else if s3.marks[round][stop] == StopMark::Unmarked {
        assert(tidy(dir, n, s3));
        assert(inherits(dir, s3, round, stop));
        lemma_walks_begin(dir, tt, s, s2, round, round - 1, stop);
        lemma_walks_on_kept(dir, tt, n, round, s2, s3, round - 1, stop);
        lemma_walks_on_kept(dir, tt, n, round + 1, s3, t, round - 1, stop);
        assert(t.best[round - 1] == s3.best[round - 1]);
        assert forall|j: int, time: int|
            0 <= j < tt.n_transfers(stop) && settled(
                dir,
                t,
                round,
                tt.transfer_at(stop, j).to as int,
                time,
            ) implies #[trigger] settled(
            dir,
            t,
            round + 1,
            tt.transfer_at(stop, j).to as int,
            time,
        ) by {
            assert(tt.transfer_ok(stop, j));
            assert(inherits(dir, t, round + 1, tt.transfer_at(stop, j).to as int));
        }
    } else if !any {
        assert(s2.marks[round][stop] != StopMark::Unmarked);
        let i = s3.best[round][stop]->0.last_step as int;
        assert(s3.steps[i].route is None);
        assert(t.steps[i] == s3.steps[i]);
    }
}

/// Walks that were no news stay none when a round begins.
proof fn lemma_walks_begin(
    dir: Direction,
    tt: &MmapTimetable,
    s: SearchState,
    s2: SearchState,
    round: int,
    row: int,
    stop: int,
)
    requires
        tt.wf(),
        nothing_missed(dir, tt, s, round),
        s2 == after_exploring(extended(tt.stops@.len(), s, round), round),
        0 <= row < round,
        0 <= stop < tt.stops@.len(),
    ensures
        walks_on(dir, tt, s2, row, stop),
{
    lemma_round_begins(dir, tt, s, round);
    assert(walks_on(dir, tt, s, row, stop));
    assert(extended(tt.stops@.len(), s, round).best[row] == s.best[row]);
    if s.best[row][stop] is Some {
        let i = s.best[row][stop]->0.last_step as int;
        if s.steps[i].route is Some {
            if row + 1 < s.best.len() {
                assert forall|j: int| 0 <= j < tt.n_transfers(stop) implies settled(
                    dir,
                    s2,
                    row + 1,
                    (#[trigger] tt.transfer_at(stop, j)).to as int,
                    on_foot(
                        dir,
                        s2.best[row][stop]->0.final_time.epoch_seconds as int,
                        tt.transfer_at(stop, j).time as int % 0x1_0000_0000,
                    ),
                ) by {
                    assert(tt.transfer_ok(stop, j));
                    assert(settled(
                        dir,
                        s,
                        row + 1,
                        tt.transfer_at(stop, j).to as int,
                        on_foot(
                            dir,
                            s.best[row][stop]->0.final_time.epoch_seconds as int,
                            tt.transfer_at(stop, j).time as int % 0x1_0000_0000,
                        ),
                    ));
                }
            } else {
                assert(inherits(dir, s, row, stop));
                assert(s.marks[row][stop] != StopMark::Unmarked);
            }
        }
    }
}

/// A search that starts misses nothing, and every stop near the named place is one that it knows
/// of, no later than the walk there takes, or, searching back, no earlier than the walk from
/// there.
pub proof fn lemma_start_misses_nothing(
    dir: Direction,
    tt: &MmapTimetable,
    query: Query,
    time: Time,
    place: LatLng,
    near: Seq<(usize, u32)>,
    k: int,
)
    requires
        stops_exist(tt.stops@.len(), query.targets),
        stops_exist(tt.stops@.len(), near),
        0 <= k <= near.len(),
        started(dir, tt.stops@.len(), query, time, place, near, k).steps.len() <= usize::MAX,
    ensures
        nothing_missed(
            dir,
            tt,
            started(dir, tt.stops@.len(), query, time, place, near, k),
            1,
        ),
        started(dir, tt.stops@.len(), query, time, place, near, k).best.len() == 1,
        started(dir, tt.stops@.len(), query, time, place, near, k).query == query,
        forall|l: int|
            0 <= l < k ==> settled(
                dir,
                started(dir, tt.stops@.len(), query, time, place, near, k),
                0,
                (#[trigger] near[l]).0 as int,
                on_foot(dir, time.epoch_seconds as int, near[l].1 as int),
            ),
    decreases k,
{
    let n = tt.stops@.len();
    let t = started(dir, n, query, time, place, near, k);
    if k <= 0 {
        assert forall|row: int, stop: int| 0 <= row < 1 && 0 <= stop < n implies
            #[trigger] inherits(dir, t, row, stop) by {}
        assert(ends_on_foot(n, t, 0));
        assert forall|row: int, stop: int| 0 <= row < 1 && 0 <= stop < n implies
            #[trigger] walks_on(dir, tt, t, row, stop) by {}
    } else {
        let s = started(dir, n, query, time, place, near, k - 1);
        let step = start_step(dir, time, place, near[k - 1].0, near[k - 1].1);
        assert(near[k - 1].0 < n);
        assert(s.steps.len() <= t.steps.len());
        lemma_start_misses_nothing(dir, tt, query, time, place, near, k - 1);
        lemma_offered(dir, n, s, step, 0);
        lemma_foot_record(dir, n, s, step, 0);
        assert forall|row: int, stop: int|
            0 <= row < 1 && 0 <= stop < n implies (#[trigger] t.marks[row][stop])
            != StopMark::MarkedForTransfersOnly by {
            assert(s.marks[row][stop] != StopMark::MarkedForTransfersOnly);
        }
        assert forall|row: int, stop: int| 0 <= row < 1 && 0 <= stop < n implies
            #[trigger] walks_on(dir, tt, t, row, stop) by {
            assert(inherits(dir, t, 0, stop));
            if t.best[0][stop] is Some {
                assert(t.marks[0][stop] != StopMark::Unmarked);
            }
        }
        assert(settled(dir, t, 0, near[k - 1].0 as int, gained(dir, step)));
        assert forall|l: int| 0 <= l < k implies settled(
            dir,
            t,
            0,
            (#[trigger] near[l]).0 as int,
            on_foot(dir, time.epoch_seconds as int, near[l].1 as int),
        ) by {
            if l < k - 1 {
                assert(settled(
                    dir,
                    s,
                    0,
                    near[l].0 as int,
                    on_foot(dir, time.epoch_seconds as int, near[l].1 as int),
                ));
            }
        }
    }
}

/// A search that misses nothing still does not after `k` rounds.
pub proof fn lemma_search_misses_nothing(
    dir: Direction,
    tt: &MmapTimetable,
    s: SearchState,
    k: int,
)
    requires
        tt.wf(),
        0 <= k < usize::MAX,
        nothing_missed(dir, tt, s, 1),
        forall|j: int|
            0 <= j <= k ==> (#[trigger] after_rounds(dir, tt, s, j)).steps.len() <= usize::MAX,
    ensures
        nothing_missed(dir, tt, after_rounds(dir, tt, s, k), k + 1),
    decreases k,
{
    if k > 0 {
        lemma_search_misses_nothing(dir, tt, s, k - 1);
        assert(after_rounds(dir, tt, s, k).steps.len() <= usize::MAX);
        lemma_round_misses_nothing(dir, tt, after_rounds(dir, tt, s, k - 1), k);
    }
}

/// Later rows know what earlier ones do.
proof fn lemma_reached_on(
    dir: Direction,
    n: nat,
    s: SearchState,
    a: int,
    b: int,
    stop: int,
    time: int,
)
    requires
        fits(n, s),
        tidy(dir, n, s),
        0 <= a <= b < s.best.len(),
        0 <= stop < n,
        reached(dir, s, a, stop, time),
    ensures
        reached(dir, s, b, stop, time),
    decreases b - a,
{
    if a < b {
        lemma_reached_on(dir, n, s, a, b - 1, stop, time);
        assert(inherits(dir, s, b, stop));
    }
}

/// Searching back, one ride more: if a row knows that one may be at stop `stop` as late as `time`,
/// the next one knows of every trip that gets there by then, from every position before, that one
/// may leave there as late as the trip does; or one need not leave the named place before.
pub proof fn lemma_one_ride_more(
    tt: &MmapTimetable,
    s: SearchState,
    round: int,
    row: int,
    stop: int,
    j: int,
    i: int,
    p: int,
    time: int,
)
    requires
        tt.wf(),
        nothing_missed(Direction::Backward, tt, s, round),
        0 <= row < round - 1,
        0 <= stop < tt.stops@.len(),
        0 <= j < tt.n_stop_routes(stop),
        ({
            let r = tt.stop_route_at(stop, j).route_index as int;
            let q = tt.stop_route_at(stop, j).stop_seq as int;
            &&& steady(tt, r)
            &&& apart_since_known(tt, s, row, stop, r)
            &&& 0 <= i < tt.n_trips(r)
            &&& 0 <= p < q
            &&& trip_runs(tt, r, i, p, q)
            &&& tt.time_at(r, i, q).arrival_time.epoch_seconds <= time
        }),
        settled(Direction::Backward, s, row, stop, time),
    ensures
        ({
            let r = tt.stop_route_at(stop, j).route_index as int;
            settled(
                Direction::Backward,
                s,
                row + 1,
                tt.stop_at(r, p).stop_index as int,
                tt.time_at(r, i, p).departure_time.epoch_seconds as int,
            )
        }),
{
    let r = tt.stop_route_at(stop, j).route_index as int;
    let to = tt.stop_at(r, p).stop_index as int;
    let leaves = tt.time_at(r, i, p).departure_time.epoch_seconds as int;
    assert(ride_on(Direction::Backward, tt, s, row, stop, j));
    if reached(Direction::Backward, s, row, stop, time) {
        assert(tt.time_at(r, i, p).departure_time.epoch_seconds == leaves);
    } else {
        assert(settled(Direction::Backward, s, row + 1, to, time));
        lemma_settled_earlier(s, row + 1, to, time, leaves);
    }
}

/// Every direct ride is found: if, after at least one round, a trip gets by the deadline to a stop
/// near the named place, the walk from there included, and calls before that at a target, then one
/// need not leave the place behind some target earlier than for that trip.
pub proof fn lemma_direct_ride_found(
    tt: &MmapTimetable,
    query: Query,
    end_at: Time,
    place: LatLng,
    near: Seq<(usize, u32)>,
    rounds: int,
    m: int,
    j: int,
    i: int,
    p: int,
    k: int,
)
    requires
        tt.wf(),
        stops_exist(tt.stops@.len(), query.targets),
        stops_exist(tt.stops@.len(), near),
        1 <= rounds < usize::MAX,
        ({
            let s = started(
                Direction::Backward,
                tt.stops@.len(),
                query,
                end_at,
                place,
                near,
                near.len() as int,
            );
            &&& forall|l: int|
                0 <= l <= rounds ==> (#[trigger] after_rounds(
                    Direction::Backward,
                    tt,
                    s,
                    l,
                )).steps.len() <= usize::MAX
            &&& apart_since_known(
                tt,
                after_rounds(Direction::Backward, tt, s, rounds),
                0,
                near[m].0 as int,
                tt.stop_route_at(near[m].0 as int, j).route_index as int,
            )
        }),
        0 <= m < near.len(),
        0 <= j < tt.n_stop_routes(near[m].0 as int),
        0 <= k < query.targets.len(),
        ({
            let r = tt.stop_route_at(near[m].0 as int, j).route_index as int;
            let q = tt.stop_route_at(near[m].0 as int, j).stop_seq as int;
            &&& steady(tt, r)
            &&& 0 <= i < tt.n_trips(r)
            &&& 0 <= p < q
            &&& trip_runs(tt, r, i, p, q)
            &&& tt.stop_at(r, p).stop_index == query.targets[k].0
            &&& tt.time_at(r, i, q).arrival_time.epoch_seconds <= on_foot(
                Direction::Backward,
                end_at.epoch_seconds as int,
                near[m].1 as int,
            )
        }),
    ensures
        ({
            let r = tt.stop_route_at(near[m].0 as int, j).route_index as int;
            let s = started(
                Direction::Backward,
                tt.stops@.len(),
                query,
                end_at,
                place,
                near,
                near.len() as int,
            );
            outrun(
                Direction::Backward,
                after_rounds(Direction::Backward, tt, s, rounds),
                tt.time_at(r, i, p).departure_time.epoch_seconds - query.targets[k].1,
            )
        }),
{
    let dir = Direction::Backward;
    let n = tt.stops@.len();
    let s = started(dir, n, query, end_at, place, near, near.len() as int);
    let end = after_rounds(dir, tt, s, rounds);
    let r = tt.stop_route_at(near[m].0 as int, j).route_index as int;
    let by = on_foot(dir, end_at.epoch_seconds as int, near[m].1 as int);
    let leaves = tt.time_at(r, i, p).departure_time.epoch_seconds as int;
    let stop = near[m].0 as int;
    let target = query.targets[k].0 as int;
    assert(after_rounds(dir, tt, s, 0) == s);
    assert(after_rounds(dir, tt, s, 0).steps.len() <= usize::MAX);
    lemma_start_misses_nothing(dir, tt, query, end_at, place, near, near.len() as int);
    lemma_search_misses_nothing(dir, tt, s, rounds);
    lemma_rounds_keep(dir, tt, s, rounds, stop, by);
    assert(near[m].0 < n);
    assert(tt.stop_route_ok(stop, j));
    lemma_one_ride_more(tt, end, rounds + 1, 0, stop, j, i, p, by);
    assert(query.targets[k].0 < n);
    let last = end.best.len() - 1;
    if reached(dir, end, 1, target, leaves) {
        lemma_reached_on(dir, n, end, 1, last, target, leaves);
        assert(end.best.last() == end.best[last]);
        assert(gets_through(dir, end, k, leaves - query.targets[k].1));
    } else {
        let l = choose|l: int|
            0 <= l < end.query.targets.len() && #[trigger] gets_through(dir, end, l, leaves);
        assert(gets_through(dir, end, l, leaves - query.targets[k].1));
    }
}

/// Every direct ride from the only stop of a route that one can start from is found: if, after at
/// least one round, one can walk there in time for a trip that later calls at a target, then one
/// gets to the place behind some target no later than by that trip.
pub proof fn lemma_direct_ride_caught(
    tt: &MmapTimetable,
    query: Query,
    time: Time,
    place: LatLng,
    near: Seq<(usize, u32)>,
    rounds: int,
    m: int,
    j: int,
    i: int,
    p: int,
    k: int,
)
    requires
        tt.wf(),
        stops_exist(tt.stops@.len(), query.targets),
        stops_exist(tt.stops@.len(), near),
        1 <= rounds < usize::MAX,
        ({
            let s = started(
                Direction::Forward,
                tt.stops@.len(),
                query,
                time,
                place,
                near,
                near.len() as int,
            );
            forall|l: int|
                0 <= l <= rounds ==> (#[trigger] after_rounds(
                    Direction::Forward,
                    tt,
                    s,
                    l,
                )).steps.len() <= usize::MAX
        }),
        0 <= m < near.len(),
        0 <= j < tt.n_stop_routes(near[m].0 as int),
        0 <= k < query.targets.len(),
        ({
            let r = tt.stop_route_at(near[m].0 as int, j).route_index as int;
            let q = tt.stop_route_at(near[m].0 as int, j).stop_seq as int;
            let leaves = tt.time_at(r, i, q).departure_time.epoch_seconds;
            &&& departs_in_order(tt, r)
            &&& arrive_in_order(tt, r, p)
            &&& 0 <= i < tt.n_trips(r)
            &&& q < p < tt.n_stops(r)
            &&& trip_runs(tt, r, i, q, p)
            &&& tt.stop_at(r, p).stop_index == query.targets[k].0
            &&& on_foot(Direction::Forward, time.epoch_seconds as int, near[m].1 as int) <= leaves
                < u32::MAX
            &&& forall|qs: int, l: int|
                0 <= qs < tt.n_stops(r) && qs != q && 0 <= l < near.len() ==> (
                #[trigger] tt.stop_at(r, qs)).stop_index != (#[trigger] near[l]).0
        }),
    ensures
        ({
            let r = tt.stop_route_at(near[m].0 as int, j).route_index as int;
            let s = started(
                Direction::Forward,
                tt.stops@.len(),
                query,
                time,
                place,
                near,
                near.len() as int,
            );
            outrun(
                Direction::Forward,
                after_rounds(Direction::Forward, tt, s, rounds),
                tt.time_at(r, i, p).arrival_time.epoch_seconds + query.targets[k].1,
            )
        }),
{
    let dir = Direction::Forward;
    let n = tt.stops@.len();
    let s = started(dir, n, query, time, place, near, near.len() as int);
    let end = after_rounds(dir, tt, s, rounds);
    let r = tt.stop_route_at(near[m].0 as int, j).route_index as int;
    let q = tt.stop_route_at(near[m].0 as int, j).stop_seq as int;
    let by = on_foot(dir, time.epoch_seconds as int, near[m].1 as int);
    let arrives = tt.time_at(r, i, p).arrival_time.epoch_seconds as int;
    let stop = near[m].0 as int;
    let target = query.targets[k].0 as int;
    assert(after_rounds(dir, tt, s, 0) == s);
    assert(after_rounds(dir, tt, s, 0).steps.len() <= usize::MAX);
    lemma_start_misses_nothing(dir, tt, query, time, place, near, near.len() as int);
    lemma_search_misses_nothing(dir, tt, s, rounds);
    assert(near[m].0 < n);
    lemma_rounds_keep(dir, tt, s, rounds, stop, by);
    lemma_first_row_kept(dir, tt, s, rounds);
    lemma_only_near_known(dir, n, query, time, place, near, near.len() as int);
    assert(tt.stop_route_ok(stop, j));
    assert(query.targets[k].0 < n);
    let last = end.best.len() - 1;
    assert(end.best.last() == end.best[last]);
    let at = arrives + query.targets[k].1;
    if reached(dir, end, 0, stop, by) {
        assert(ride_on(dir, tt, end, 0, stop, j));
        assert(tt.time_at(r, i, q).departure_time.epoch_seconds >= by);
        let (b, qs) = choose|b: int, qs: int| #[trigger] boards(tt, end, 0, r, i, q, b, qs);
        assert(boards(tt, end, 0, r, i, q, b, qs));
        assert(tt.route_stop_ok(r, qs));
        assert(qs == q) by {
            let x = tt.stop_at(r, qs).stop_index as int;
            assert(s.best[0][x] is Some);
            let l = choose|l: int| 0 <= l < near.len() && (#[trigger] near[l]).0 == x;
            assert(near[l].0 == x);
        }
        assert(leave_in_order(tt, r, q));
        assert(b <= i);
        let sooner = tt.time_at(r, b, p).arrival_time.epoch_seconds as int;
        assert(sooner <= arrives);
        assert(settled(dir, end, 1, tt.stop_at(r, p).stop_index as int, sooner));
        if reached(dir, end, 1, target, sooner) {
            lemma_reached_on(dir, n, end, 1, last, target, sooner);
            assert(gets_through(dir, end, k, at));
        } else {
            let l = choose|l: int|
                0 <= l < end.query.targets.len() && #[trigger] gets_through(dir, end, l, sooner);
            assert(gets_through(dir, end, l, at));
        }
    } else {
        let l = choose|l: int|
            0 <= l < end.query.targets.len() && #[trigger] gets_through(dir, end, l, by);
        assert(gets_through(dir, end, l, at));
    }
}

/// At the start only stops near the named place are known.
proof fn lemma_only_near_known(
    dir: Direction,
    n: nat,
    query: Query,
    time: Time,
    place: LatLng,
    near: Seq<(usize, u32)>,
    k: int,
)
    requires
        stops_exist(n, near),
        0 <= k <= near.len(),
    ensures
        ({
            let s = started(dir, n, query, time, place, near, k);
            &&& s.best.len() == 1
            &&& s.best[0].len() == n
            &&& forall|x: int|
                0 <= x < n && (#[trigger] s.best[0][x]) is Some ==> exists|l: int|
                    0 <= l < k && (#[trigger] near[l]).0 == x
        }),
    decreases k,
{
    if k > 0 {
        lemma_only_near_known(dir, n, query, time, place, near, k - 1);
        let s = started(dir, n, query, time, place, near, k - 1);
        let t = started(dir, n, query, time, place, near, k);
        let step = start_step(dir, time, place, near[k - 1].0, near[k - 1].1);
        assert forall|x: int| 0 <= x < n && (#[trigger] t.best[0][x]) is Some implies exists|l: int|
            0 <= l < k && (#[trigger] near[l]).0 == x by {
            if recorded(dir, s, step) {
                assert(t.best[0] == offered_row(dir, s, step, near[k - 1].0 as int, 0));
            }
            if x == near[k - 1].0 {
                assert(near[k - 1].0 == x);
            } else {
                assert(s.best[0][x] is Some);
                let l = choose|l: int| 0 <= l < k - 1 && (#[trigger] near[l]).0 == x;
                assert(near[l].0 == x);
            }
        }
    }
}

proof fn lemma_first_row_kept(dir: Direction, tt: &MmapTimetable, s: SearchState, k: int)
    requires
        tt.wf(),
        0 <= k < usize::MAX,
        nothing_missed(dir, tt, s, 1),
        forall|j: int|
            0 <= j <= k ==> (#[trigger] after_rounds(dir, tt, s, j)).steps.len() <= usize::MAX,
    ensures
        after_rounds(dir, tt, s, k).best[0] == s.best[0],
    decreases k,
{
    if k > 0 {
        lemma_first_row_kept(dir, tt, s, k - 1);
        lemma_search_misses_nothing(dir, tt, s, k - 1);
        assert(after_rounds(dir, tt, s, k).steps.len() <= usize::MAX);
        lemma_round_misses_nothing(dir, tt, after_rounds(dir, tt, s, k - 1), k);
    }
}

/// What the first row knows stays known, and the query the same.
proof fn lemma_rounds_keep(
    dir: Direction,
    tt: &MmapTimetable,
    s: SearchState,
    k: int,
    stop: int,
    time: int,
)
    requires
        tt.wf(),
        0 <= k < usize::MAX,
        nothing_missed(dir, tt, s, 1),
        forall|j: int|
            0 <= j <= k ==> (#[trigger] after_rounds(dir, tt, s, j)).steps.len() <= usize::MAX,
        0 <= stop < tt.stops@.len(),
        settled(dir, s, 0, stop, time),
    ensures
        settled(dir, after_rounds(dir, tt, s, k), 0, stop, time),
        after_rounds(dir, tt, s, k).query == s.query,
        k > 0 ==> after_rounds(dir, tt, s, k).best.len() == k + 2,
    decreases k,
{
    if k > 0 {
        lemma_rounds_keep(dir, tt, s, k - 1, stop, time);
        lemma_search_misses_nothing(dir, tt, s, k - 1);
        assert(after_rounds(dir, tt, s, k).steps.len() <= usize::MAX);
        lemma_round_misses_nothing(dir, tt, after_rounds(dir, tt, s, k - 1), k);
    }
}

} // verus!
