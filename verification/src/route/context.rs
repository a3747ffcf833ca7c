//! What the search knows: the best time per round and stop, the stops to continue from, and the
//! log of the steps that led there.

use crate::timetable::{MmapTimetable, Route, Time, Trip};
use vstd::prelude::*;

verus! {

/// Whether the search runs from a start time on, or from a deadline back.
#[derive(Clone, Copy, PartialEq, Eq, Structural, Debug)]
pub enum Direction {
    Forward,
    Backward,
}

/// Degrees of latitude and longitude, each by its bit pattern.
#[derive(Clone, Copy, PartialEq, Eq, Structural, Debug)]
pub struct LatLng {
    pub lat_bits: u64,
    pub lng_bits: u64,
}

/// Where a step begins or ends: at a stop, or at a place that the traveller named.
#[derive(Clone, Copy, PartialEq, Eq, Structural, Debug)]
pub enum InternalStepLocation {
    Stop(usize),
    Location(LatLng),
}

/// One ride, walk or start, and the step of the log that it continues.
#[derive(Clone, Copy, PartialEq, Eq, Structural, Debug)]
pub struct InternalStep {
    pub previous_step: usize,
    pub round: usize,
    pub from: InternalStepLocation,
    pub to: InternalStepLocation,
    pub route: Option<Route>,
    pub departure: Time,
    pub arrival: Time,
    pub trip: Option<Trip>,
}

/// The best way known to a stop: its last step, and the time that this step gives the stop.
#[derive(Clone, Copy, PartialEq, Eq, Structural, Debug)]
pub struct InternalItinerary {
    pub last_step: usize,
    pub final_time: Time,
}

/// Whether a round reached a stop, and whether its routes were followed since.
#[derive(Clone, Copy, PartialEq, Eq, Structural, Debug)]
pub enum StopMark {
    Unmarked,
    Marked,
    MarkedForTransfersOnly,
}

/// What was asked for: the targets, each with the walk between it and the named place, and how
/// many rounds to run at most, in all and beyond the first that reaches a target.
pub struct Query {
    pub targets: Seq<(usize, u32)>,
    pub max_steps: Option<usize>,
    pub max_step_delta: Option<usize>,
}

/// The search as a value: rows of best times and of marks by round and stop, the log, and what was
/// asked for.
#[verifier::ext_equal]
pub struct SearchState {
    pub best: Seq<Seq<Option<InternalItinerary>>>,
    pub marks: Seq<Seq<StopMark>>,
    pub steps: Seq<InternalStep>,
    pub query: Query,
}

/// Every stop that is named exists.
pub open spec fn stops_exist(n: nat, near: Seq<(usize, u32)>) -> bool {
    forall|k: int| 0 <= k < near.len() ==> (#[trigger] near[k]).0 < n
}

/// The time that a step gives the stop it leads to: when one gets there, or, searching back,
/// when one has to leave there.
pub open spec fn step_time(dir: Direction, step: InternalStep) -> Time {
    match dir {
        Direction::Forward => step.arrival,
        Direction::Backward => step.departure,
    }
}

/// Whether `step` beats what is known of the stop that it leads to.
///
/// Forward, an earlier arrival wins, and of equal arrivals one that takes no more rounds and
/// leaves later. Back, a later departure wins, and of equal ones the one that takes no more
/// rounds.
pub open spec fn improves(
    dir: Direction,
    steps: Seq<InternalStep>,
    known: Option<InternalItinerary>,
    step: InternalStep,
) -> bool {
    match known {
        None => true,
        Some(known) => {
            let last = steps[known.last_step as int];
            match dir {
                Direction::Forward => {
                    ||| step.arrival.epoch_seconds < known.final_time.epoch_seconds
                    ||| step.arrival == known.final_time && step.round <= last.round
                        && step.departure.epoch_seconds > last.departure.epoch_seconds
                },
                Direction::Backward => {
                    ||| step.departure.epoch_seconds > known.final_time.epoch_seconds
                    ||| step.departure == known.final_time && step.round <= last.round
                },
            }
        },
    }
}

/// Whether `step` beats what some row from its own round on knows of stop `stop`.
pub open spec fn improves_some_row(
    dir: Direction,
    s: SearchState,
    step: InternalStep,
    stop: int,
) -> bool {
    exists|r: int|
        step.round <= r < s.best.len() && #[trigger] improves(dir, s.steps, s.best[r][stop], step)
}

/// Whether a step with time `time` cannot be part of a better way to target `k` than the one that
/// is known, the walk between target and named place included: forward, it arrives no earlier than
/// one gets to the named place; back, it leaves no later than one has to leave there.
pub open spec fn beaten(dir: Direction, s: SearchState, time: Time, k: int) -> bool {
    s.best.last()[s.query.targets[k].0 as int] matches Some(known) && match dir {
        Direction::Forward => time.epoch_seconds >= known.final_time.epoch_seconds
            + s.query.targets[k].1,
        Direction::Backward => time.epoch_seconds <= known.final_time.epoch_seconds
            - s.query.targets[k].1,
    }
}

/// Whether a step with time `time` is beaten at a target, and so need not be followed. Any known
/// way to a target counts, also a walk alone.
pub open spec fn pruned(dir: Direction, s: SearchState, time: Time) -> bool {
    exists|k: int| 0 <= k < s.query.targets.len() && #[trigger] beaten(dir, s, time, k)
}

/// Row `r` once `step`, logged as entry `s.steps.len()`, has been offered to it.
pub open spec fn offered_row(
    dir: Direction,
    s: SearchState,
    step: InternalStep,
    stop: int,
    r: int,
) -> Seq<Option<InternalItinerary>> {
    if step.round <= r && improves(dir, s.steps, s.best[r][stop], step) {
        s.best[r].update(
            stop,
            Some(
                InternalItinerary {
                    last_step: s.steps.len() as usize,
                    final_time: step_time(dir, step),
                },
            ),
        )
    } else {
        s.best[r]
    }
}

/// Whether offering `step` changes anything: it leads to a stop, beats what some row knows of it,
/// and is not beaten at a target.
pub open spec fn recorded(dir: Direction, s: SearchState, step: InternalStep) -> bool {
    match step.to {
        InternalStepLocation::Location(_) => false,
        InternalStepLocation::Stop(stop) => improves_some_row(dir, s, step, stop as int)
            && !pruned(dir, s, step_time(dir, step)),
    }
}

/// The search after `step` was offered to every row from its own round on: where it beats what
/// a row knows it takes its place there, and if it does so anywhere, it is logged once and its
/// stop is marked in its round. A step that is beaten at a target changes nothing.
pub open spec fn record(dir: Direction, s: SearchState, step: InternalStep) -> SearchState {
    match step.to {
        InternalStepLocation::Location(_) => s,
        InternalStepLocation::Stop(stop) => if recorded(dir, s, step) {
            SearchState {
                best: Seq::new(
                    s.best.len(),
                    |r: int| offered_row(dir, s, step, stop as int, r),
                ),
                marks: s.marks.update(
                    step.round as int,
                    s.marks[step.round as int].update(stop as int, StopMark::Marked),
                ),
                steps: s.steps.push(step),
                query: s.query,
            }
        } else {
            s
        },
    }
}

/// An entry of row `r` for stop `stop`: it names a logged step that leads to that stop, in a
/// round no later than the row, and repeats the time of that step.
pub open spec fn entry_ok(
    dir: Direction,
    s: SearchState,
    r: int,
    stop: int,
) -> bool {
    match s.best[r][stop] {
        None => s.marks[r][stop] == StopMark::Unmarked,
        Some(it) => {
            &&& 0 < it.last_step < s.steps.len()
            &&& s.steps[it.last_step as int].to == InternalStepLocation::Stop(stop as usize)
            &&& s.steps[it.last_step as int].round <= r
            &&& it.final_time == step_time(dir, s.steps[it.last_step as int])
        },
    }
}

pub open spec fn log_ok(s: SearchState, i: int) -> bool {
    &&& i > 0 ==> s.steps[i].previous_step < i
    &&& i == 0 ==> s.steps[i].previous_step == 0
}

/// Whether time `a` is at least as good as time `b`.
pub open spec fn no_worse(dir: Direction, a: Time, b: Time) -> bool {
    match dir {
        Direction::Forward => a.epoch_seconds <= b.epoch_seconds,
        Direction::Backward => a.epoch_seconds >= b.epoch_seconds,
    }
}

/// Row `r + 1` knows a time for stop `stop` that is at least as good as the one in row `r`.
pub open spec fn kept(dir: Direction, s: SearchState, r: int, stop: int) -> bool {
    s.best[r][stop] matches Some(it) ==> {
        &&& s.best[r + 1][stop] matches Some(next)
        &&& no_worse(dir, next.final_time, it.final_time)
    }
}

/// What holds of every search over `n` stops: the rows have one entry per stop, every entry
/// names a step that explains it, marked stops have a time, no row is worse than the one before
/// it, the log leads back to its first entry, and the targets exist.
pub open spec fn state_ok(dir: Direction, n: nat, s: SearchState) -> bool {
    &&& s.best.len() == s.marks.len()
    &&& s.steps.len() > 0
    &&& s.steps.len() <= usize::MAX
    &&& n <= usize::MAX
    &&& stops_exist(n, s.query.targets)
    &&& forall|r: int| 0 <= r < s.best.len() ==> (#[trigger] s.best[r]).len() == n
    &&& forall|r: int| 0 <= r < s.best.len() ==> (#[trigger] s.marks[r]).len() == n
    &&& forall|r: int, stop: int|
        0 <= r < s.best.len() && 0 <= stop < n ==> #[trigger] entry_ok(dir, s, r, stop)
    &&& forall|r: int, stop: int|
        0 <= r < s.best.len() - 1 && 0 <= stop < n ==> #[trigger] kept(dir, s, r, stop)
    &&& forall|i: int| 0 <= i < s.steps.len() ==> #[trigger] log_ok(s, i)
}

/// The step with these parts.
pub open spec fn step_of(
    previous_step: usize,
    round: usize,
    from: InternalStepLocation,
    to: InternalStepLocation,
    route: Option<Route>,
    departure: Time,
    arrival: Time,
    trip: Option<Trip>,
) -> InternalStep {
    InternalStep { previous_step, round, from, to, route, departure, arrival, trip }
}

/// A step that may be offered: if its round has a row, it continues a logged step, and a stop that
/// it leads to exists.
pub open spec fn offer_ok(n: nat, s: SearchState, step: InternalStep) -> bool {
    step.round < s.best.len() ==> {
        &&& step.previous_step < s.steps.len()
        &&& match step.to {
            InternalStepLocation::Stop(stop) => stop < n,
            InternalStepLocation::Location(_) => true,
        }
    }
}

/// Offering a step keeps the search in order.
pub proof fn lemma_record_ok(dir: Direction, n: nat, s: SearchState, step: InternalStep)
    requires
        state_ok(dir, n, s),
        offer_ok(n, s, step),
        s.steps.len() < usize::MAX,
    ensures
        state_ok(dir, n, record(dir, s, step)),
        record(dir, s, step).best.len() == s.best.len(),
        record(dir, s, step).steps.len() >= s.steps.len(),
        forall|i: int| 0 <= i < s.steps.len() ==> record(dir, s, step).steps[i] == s.steps[i],
{
    let t = record(dir, s, step);
    if recorded(dir, s, step) {
        let stop = step.to->Stop_0;
        assert forall|r: int, st: int| 0 <= r < t.best.len() && 0 <= st < n implies
            #[trigger] entry_ok(dir, t, r, st) by {
            assert(entry_ok(dir, s, r, st));
            assert(t.best[r] == offered_row(dir, s, step, stop as int, r));
            if st == stop && r == step.round {
                let r0 = choose|r0: int|
                    step.round <= r0 < s.best.len() && #[trigger] improves(
                        dir,
                        s.steps,
                        s.best[r0][stop as int],
                        step,
                    );
            }
        }
        assert forall|r: int, st: int| 0 <= r < t.best.len() - 1 && 0 <= st < n implies
            #[trigger] kept(dir, t, r, st) by {
            assert(kept(dir, s, r, st));
            assert(t.best[r] == offered_row(dir, s, step, stop as int, r));
            assert(t.best[r + 1] == offered_row(dir, s, step, stop as int, r + 1));
        }
        assert forall|i: int| 0 <= i < t.steps.len() implies #[trigger] log_ok(t, i) by {
            if i < s.steps.len() {
                assert(log_ok(s, i));
            }
        }
    }
}

/// A running search.
#[derive(Debug)]
pub struct RouterContext<'a> {
    pub best_times_per_round: Vec<Vec<Option<InternalItinerary>>>,
    pub marked_stops: Vec<Vec<StopMark>>,
    pub timetable: &'a MmapTimetable,
    pub targets: Vec<(usize, u32)>,
    pub max_steps: Option<usize>,
    pub max_step_delta: Option<usize>,
    pub step_log: Vec<InternalStep>,
}

/// The contents of nested vectors.
pub open spec fn rows<T>(v: Seq<Vec<T>>) -> Seq<Seq<T>> {
    Seq::new(v.len(), |i: int| v[i]@)
}

impl<'a> RouterContext<'a> {
    /// The search as a value: all but the timetable, which it only reads.
    pub open spec fn state(&self) -> SearchState {
        SearchState {
            best: rows(self.best_times_per_round@),
            marks: rows(self.marked_stops@),
            steps: self.step_log@,
            query: self.query(),
        }
    }

    /// What was asked for.
    pub open spec fn query(&self) -> Query {
        Query {
            targets: self.targets@,
            max_steps: self.max_steps,
            max_step_delta: self.max_step_delta,
        }
    }

    /// What holds of the search between its operations.
    pub open spec fn ok(&self, dir: Direction) -> bool {
        state_ok(dir, self.timetable.stops@.len(), self.state())
    }

    /// Whether everything but the state of the search is as in `other`.
    pub open spec fn same_query(&self, other: &RouterContext<'a>) -> bool {
        &&& self.timetable == other.timetable
        &&& self.targets == other.targets
        &&& self.max_steps == other.max_steps
        &&& self.max_step_delta == other.max_step_delta
    }

    fn beats(&self, dir: Direction, known: &Option<InternalItinerary>, step: &InternalStep) -> (b:
        bool)
        requires
            known matches Some(it) ==> it.last_step < self.step_log@.len(),
        ensures
            b == improves(dir, self.step_log@, *known, *step),
    {
        match known {
            None => true,
            Some(known) => {
                let last: &InternalStep = &self.step_log[known.last_step];
                match dir {
                    Direction::Forward => {
                        step.arrival.epoch_seconds < known.final_time.epoch_seconds || (
                        step.arrival.epoch_seconds == known.final_time.epoch_seconds
                            && step.round <= last.round && step.departure.epoch_seconds
                            > last.departure.epoch_seconds)
                    },
                    Direction::Backward => {
                        step.departure.epoch_seconds > known.final_time.epoch_seconds || (
                        step.departure.epoch_seconds == known.final_time.epoch_seconds
                            && step.round <= last.round)
                    },
                }
            },
        }
    }

    /// Whether a step with this time is beaten at a target.
    fn is_pruned(&self, dir: Direction, time: Time) -> (b: bool)
        requires
            self.ok(dir),
            self.best_times_per_round@.len() > 0,
        ensures
            b == pruned(dir, self.state(), time),
    {
        let ghost s = self.state();
        let ghost n = self.timetable.stops@.len();
        let last: usize = self.best_times_per_round.len() - 1;
        assert(s.best.last() == s.best[last as int]);
        assert(s.best[last as int].len() == n);
        assert(self.best_times_per_round@[last as int]@ == s.best.last());
        let mut k: usize = 0;
        while k < self.targets.len()
            invariant
                s == self.state(),
                n == self.timetable.stops@.len(),
                stops_exist(n, self.targets@),
                last < self.best_times_per_round@.len(),
                self.best_times_per_round@[last as int]@ == s.best.last(),
                s.best.last().len() == n,
                k <= self.targets@.len(),
                forall|j: int| 0 <= j < k ==> !#[trigger] beaten(dir, s, time, j),
            decreases self.targets@.len() - k,
        {
            let (stop, cost): (usize, u32) = self.targets[k];
            assert(self.targets@[k as int].0 < n);
            if let Some(known) = self.best_times_per_round[last][stop] {
                let here: u64 = time.epoch_seconds() as u64;
                let there: u64 = known.final_time.epoch_seconds() as u64;
                let beats: bool = match dir {
                    Direction::Forward => here >= there + cost as u64,
                    Direction::Backward => here + cost as u64 <= there,
                };
                if beats {
                    assert(beaten(dir, s, time, k as int));
                    return true;
                }
            }
            k = k + 1;
        }
        false
    }

    /// Offers a step to every row from its round on.
    fn offer(&mut self, dir: Direction, step: InternalStep) -> (marked: bool)
        requires
            old(self).ok(dir),
            offer_ok(old(self).timetable.stops@.len(), old(self).state(), step),
        ensures
            final(self).ok(dir),
            final(self).state() == record(dir, old(self).state(), step),
            marked == recorded(dir, old(self).state(), step),
            marked ==> old(self).step_log@.len() < usize::MAX,
            final(self).same_query(old(self)),
    {
        let ghost s = self.state();
        let ghost n = self.timetable.stops@.len();
        let stop: usize = match step.to {
            InternalStepLocation::Location(_) => {
                return false;
            },
            InternalStepLocation::Stop(stop) => stop,
        };
        let step_log_idx: usize = self.step_log.len();
        let time: Time = match dir {
            Direction::Forward => step.arrival,
            Direction::Backward => step.departure,
        };
        if step.round >= self.best_times_per_round.len() || self.is_pruned(dir, time) {
            return false;
        }
        let mut marked: bool = false;
        let mut r: usize = step.round;
        let rounds: usize = self.best_times_per_round.len();
        while r < rounds
            invariant
                state_ok(dir, n, s),
                stop < n,
                !pruned(dir, s, time),
                step.to == InternalStepLocation::Stop(stop),
                time == step_time(dir, step),
                step.round <= r <= rounds == s.best.len(),
                step_log_idx == s.steps.len(),
                self.best_times_per_round@.len() == rounds,
                forall|k: int|
                    0 <= k < rounds ==> (#[trigger] self.best_times_per_round@[k])@ == (if k < r {
                        offered_row(dir, s, step, stop as int, k)
                    } else {
                        s.best[k]
                    }),
                marked == exists|k: int|
                    step.round <= k < r && #[trigger] improves(
                        dir,
                        s.steps,
                        s.best[k][stop as int],
                        step,
                    ),
                self.step_log@ == (if marked {
                    s.steps.push(step)
                } else {
                    s.steps
                }),
                s == old(self).state(),
                rows(self.marked_stops@) == s.marks,
                self.same_query(old(self)),
            decreases rounds - r,
        {
            assert(entry_ok(dir, s, r as int, stop as int));
            assert(s.best[r as int].len() == n);
            let known: Option<InternalItinerary> = self.best_times_per_round[r][stop];
            assert(known == s.best[r as int][stop as int]);
            let better: bool = self.beats(dir, &known, &step);
            assert(better == improves(dir, s.steps, s.best[r as int][stop as int], step));
            if better {
                if !marked {
                    self.step_log.push(step);
                }
                self.best_times_per_round[r][stop] = Some(
                    InternalItinerary { last_step: step_log_idx, final_time: time },
                );
                marked = true;
            }
            r = r + 1;
        }
        if marked {
            assert(s.marks[step.round as int].len() == n);
            assert(rows(self.marked_stops@)[step.round as int]
                == self.marked_stops@[step.round as int]@);
            self.marked_stops[step.round][stop] = StopMark::Marked;
            assert(rows(self.marked_stops@) =~= s.marks.update(
                step.round as int,
                s.marks[step.round as int].update(stop as int, StopMark::Marked),
            ));
            assert(self.step_log.len() == s.steps.len() + 1);
            proof {
                lemma_record_ok(dir, n, s, step);
            }
        } else {
            assert(forall|k: int|
                0 <= k < rounds ==> offered_row(dir, s, step, stop as int, k) == s.best[k]);
        }
        assert(self.state().best =~= record(dir, s, step).best);
        assert(self.state() =~= record(dir, s, step));
        marked
    }

    /// Offers the arrival at `to` to every round from `round` on, unless it is no earlier than a
    /// known way gets to the place behind a target.
    pub fn maybe_update_arrival_time_and_route(
        &mut self,
        round: usize,
        from: &InternalStepLocation,
        departure_time: Time,
        to: &InternalStepLocation,
        arrival_time: Time,
        via: Option<Route>,
        on_trip: Option<Trip>,
        previous_step: usize,
    ) -> (marked: bool)
        requires
            old(self).ok(Direction::Forward),
            offer_ok(
                old(self).timetable.stops@.len(),
                old(self).state(),
                step_of(
                    previous_step,
                    round,
                    *from,
                    *to,
                    via,
                    departure_time,
                    arrival_time,
                    on_trip,
                ),
            ),
        ensures
            final(self).ok(Direction::Forward),
            final(self).state() == record(
                Direction::Forward,
                old(self).state(),
                step_of(
                    previous_step,
                    round,
                    *from,
                    *to,
                    via,
                    departure_time,
                    arrival_time,
                    on_trip,
                ),
            ),
            marked == recorded(
                Direction::Forward,
                old(self).state(),
                step_of(
                    previous_step,
                    round,
                    *from,
                    *to,
                    via,
                    departure_time,
                    arrival_time,
                    on_trip,
                ),
            ),
            marked ==> old(self).step_log@.len() < usize::MAX,
            marked ==> forall|k: int|
                0 <= k < old(self).targets@.len() ==> !#[trigger] beaten(
                    Direction::Forward,
                    old(self).state(),
                    arrival_time,
                    k,
                ),
            !marked ==> final(self).state() == old(self).state(),
            final(self).same_query(old(self)),
    {
        self.offer(
            Direction::Forward,
            InternalStep {
                previous_step,
                round,
                from: *from,
                to: *to,
                route: via,
                departure: departure_time,
                arrival: arrival_time,
                trip: on_trip,
            },
        )
    }

    /// Offers the departure from `to` to every round from `round` on; the later one is better. One
    /// that is no later than a known way leaves the place behind a target is passed over.
    pub fn maybe_update_departure_time(
        &mut self,
        round: usize,
        from: &InternalStepLocation,
        departure_time: Time,
        to: &InternalStepLocation,
        arrival_time: Time,
        via: Option<Route>,
        on_trip: Option<Trip>,
        previous_step: usize,
    ) -> (marked: bool)
        requires
            old(self).ok(Direction::Backward),
            offer_ok(
                old(self).timetable.stops@.len(),
                old(self).state(),
                step_of(
                    previous_step,
                    round,
                    *from,
                    *to,
                    via,
                    departure_time,
                    arrival_time,
                    on_trip,
                ),
            ),
        ensures
            final(self).ok(Direction::Backward),
            final(self).state() == record(
                Direction::Backward,
                old(self).state(),
                step_of(
                    previous_step,
                    round,
                    *from,
                    *to,
                    via,
                    departure_time,
                    arrival_time,
                    on_trip,
                ),
            ),
            marked == recorded(
                Direction::Backward,
                old(self).state(),
                step_of(
                    previous_step,
                    round,
                    *from,
                    *to,
                    via,
                    departure_time,
                    arrival_time,
                    on_trip,
                ),
            ),
            marked ==> old(self).step_log@.len() < usize::MAX,
            marked ==> forall|k: int|
                0 <= k < old(self).targets@.len() ==> !#[trigger] beaten(
                    Direction::Backward,
                    old(self).state(),
                    departure_time,
                    k,
                ),
            !marked ==> final(self).state() == old(self).state(),
            final(self).same_query(old(self)),
    {
        self.offer(
            Direction::Backward,
            InternalStep {
                previous_step,
                round,
                from: *from,
                to: *to,
                route: via,
                departure: departure_time,
                arrival: arrival_time,
                trip: on_trip,
            },
        )
    }
}

} // verus!
