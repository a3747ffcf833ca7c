//! The search as a whole: how it starts, how many rounds it runs, and what it ends with.

use crate::route::completeness::{
    lemma_start_misses_nothing, nothing_missed, on_foot, settled,
};
use crate::route::context::{
    entry_ok, kept, log_ok, no_worse, record, state_ok, step_of, stops_exist, Direction,
    InternalItinerary, InternalStep, InternalStepLocation, LatLng, Query, RouterContext,
    SearchState, StopMark,
};
use crate::route::journeys::{feasible, starts};
use crate::route::picking::knows_target;
use crate::route::progress::{fresh, fresh_entry, weight};
use crate::route::rounds::{after_round, lemma_record_sound, round_reaches};
use crate::timetable::{MmapTimetable, Time};
use vstd::prelude::*;

verus! {

/// The entry that the log begins with. Steps that continue nothing name it as their predecessor.
pub open spec fn log_root() -> InternalStep {
    step_of(
        0,
        0,
        InternalStepLocation::Location(LatLng { lat_bits: 0, lng_bits: 0 }),
        InternalStepLocation::Location(LatLng { lat_bits: 0, lng_bits: 0 }),
        None,
        Time { epoch_seconds: 0 },
        Time { epoch_seconds: 0 },
        None,
    )
}

/// A search in which nothing is known yet, over `n` stops.
pub open spec fn blank(n: nat, query: Query) -> SearchState {
    SearchState {
        best: seq![Seq::new(n, |i: int| None)],
        marks: seq![Seq::new(n, |i: int| StopMark::Unmarked)],
        steps: seq![log_root()],
        query,
    }
}

/// The walk between the place that the traveller named and a stop `cost` seconds away: begun at
/// `time`, or, searching back, begun so as to end at `time`.
pub open spec fn start_step(
    dir: Direction,
    time: Time,
    place: LatLng,
    stop: usize,
    cost: u32,
) -> InternalStep {
    step_of(
        0,
        0,
        InternalStepLocation::Location(place),
        InternalStepLocation::Stop(stop),
        None,
        match dir {
            Direction::Forward => time,
            Direction::Backward => time.minus(cost),
        },
        match dir {
            Direction::Forward => time.plus(cost),
            Direction::Backward => time.minus(cost),
        },
        None,
    )
}

/// The search after the first `k` stops near the named place, with the walks to them, were
/// offered.
pub open spec fn started(
    dir: Direction,
    n: nat,
    query: Query,
    time: Time,
    place: LatLng,
    near: Seq<(usize, u32)>,
    k: int,
) -> SearchState
    decreases k,
{
    if k <= 0 {
        blank(n, query)
    } else {
        record(
            dir,
            started(dir, n, query, time, place, near, k - 1),
            start_step(dir, time, place, near[k - 1].0, near[k - 1].1),
        )
    }
}

/// A walk between the named place and one of the stops near it.
pub open spec fn begins(
    dir: Direction,
    time: Time,
    place: LatLng,
    near: Seq<(usize, u32)>,
    step: InternalStep,
) -> bool {
    exists|k: int|
        0 <= k < near.len() && step == start_step(
            dir,
            time,
            place,
            (#[trigger] near[k]).0,
            near[k].1,
        )
}

/// Whether row `r` knows a way to a target.
pub open spec fn reaches_target(
    best: Seq<Seq<Option<InternalItinerary>>>,
    targets: Seq<(usize, u32)>,
    r: int,
) -> bool {
    exists|k: int| 0 <= k < targets.len() && best[r][(#[trigger] targets[k]).0 as int] is Some
}

/// The first round, from `r` on, that knows a way to a target.
pub open spec fn fewest_rounds_from(
    best: Seq<Seq<Option<InternalItinerary>>>,
    targets: Seq<(usize, u32)>,
    r: int,
) -> Option<int>
    decreases best.len() - r,
{
    if r >= best.len() {
        None
    } else if reaches_target(best, targets, r) {
        Some(r)
    } else {
        fewest_rounds_from(best, targets, r + 1)
    }
}

/// The first round that knows a way to a target.
pub open spec fn fewest_rounds(
    best: Seq<Seq<Option<InternalItinerary>>>,
    targets: Seq<(usize, u32)>,
) -> Option<int> {
    fewest_rounds_from(best, targets, 0)
}

/// Whether the limits of the query rule out round `round`.
pub open spec fn limited(s: SearchState, round: int) -> bool {
    ||| s.query.max_steps matches Some(max_steps) && round > max_steps
    ||| s.query.max_step_delta matches Some(delta) && fewest_rounds(
        s.best,
        s.query.targets,
    ) matches Some(fewest) && round >= fewest + delta
}

/// The search after its first `k` rounds.
pub open spec fn after_rounds(
    dir: Direction,
    tt: &MmapTimetable,
    s: SearchState,
    k: int,
) -> SearchState
    decreases k,
{
    if k <= 0 {
        s
    } else {
        after_round(dir, tt, after_rounds(dir, tt, s, k - 1), k)
    }
}

/// Whether another round follows the first `k`: the last of them reached a stop, and no limit
/// rules the next one out.
pub open spec fn goes_on(
    dir: Direction,
    tt: &MmapTimetable,
    s: SearchState,
    k: int,
) -> bool {
    &&& k > 0 ==> round_reaches(dir, tt, after_rounds(dir, tt, s, k - 1), k)
    &&& !limited(after_rounds(dir, tt, s, k), k + 1)
}

/// The search runs exactly `k` rounds.
pub open spec fn runs(
    dir: Direction,
    tt: &MmapTimetable,
    s: SearchState,
    k: int,
) -> bool {
    &&& 0 <= k
    &&& forall|j: int| 0 <= j < k ==> #[trigger] goes_on(dir, tt, s, j)
    &&& !goes_on(dir, tt, s, k)
}

/// The number of rounds that a search runs is determined.
pub proof fn lemma_runs_unique(
    dir: Direction,
    tt: &MmapTimetable,
    s: SearchState,
    j: int,
    k: int,
)
    requires
        runs(dir, tt, s, j),
        runs(dir, tt, s, k),
    ensures
        j == k,
{
    if j < k {
        assert(goes_on(dir, tt, s, j));
    } else if k < j {
        assert(goes_on(dir, tt, s, k));
    }
}

/// A later round never knows a worse time for a stop than an earlier one, nor forgets a stop.
pub proof fn lemma_rounds_improve(dir: Direction, n: nat, s: SearchState, a: int, b: int, stop: int)
    requires
        state_ok(dir, n, s),
        0 <= a <= b < s.best.len(),
        0 <= stop < n,
    ensures
        s.best[a][stop] matches Some(earlier) ==> {
            &&& s.best[b][stop] matches Some(later)
            &&& no_worse(dir, later.final_time, earlier.final_time)
        },
    decreases b - a,
{
    if a < b {
        lemma_rounds_improve(dir, n, s, a, b - 1, stop);
        assert(kept(dir, s, b - 1, stop));
    }
}

/// Whether the query lets round `round` be run, given what is known before it: it is no later than
/// the number of rounds that was asked for, and less than `max_step_delta` rounds later than every
/// row that knows a target.
pub open spec fn allowed(s: SearchState, round: int) -> bool {
    &&& s.query.max_steps matches Some(most) ==> round <= most
    &&& s.query.max_step_delta matches Some(delta) ==> forall|f: int|
        0 <= f < s.best.len() && f <= round - delta ==> !#[trigger] knows_target(s, f)
}

/// The query lets each of the first `k` rounds be run.
pub open spec fn rounds_allowed(
    dir: Direction,
    tt: &MmapTimetable,
    s: SearchState,
    k: int,
) -> bool {
    forall|j: int| 0 <= j < k ==> allowed(#[trigger] after_rounds(dir, tt, s, j), j + 1)
}

/// How a search that began as `s` has ended as `t`, after `k` rounds: it missed nothing, ran no
/// round that the query does not allow, and stopped only because the last round logged no step or
/// the next is not allowed.
pub open spec fn ended(
    dir: Direction,
    tt: &MmapTimetable,
    s: SearchState,
    t: SearchState,
    k: int,
) -> bool {
    &&& 0 <= k
    &&& nothing_missed(dir, tt, t, k + 1)
    &&& rounds_allowed(dir, tt, s, k)
    &&& {
        ||| k > 0 && t.steps.len() == after_rounds(dir, tt, s, k - 1).steps.len()
        ||| !allowed(t, k + 1)
    }
}

/// The limits of the query rule a round out exactly if the query does not allow it.
pub proof fn lemma_limited(s: SearchState, round: int)
    ensures
        limited(s, round) <==> !allowed(s, round),
{
    let targets = s.query.targets;
    lemma_fewest_rounds(s.best, targets, 0);
    assert forall|f: int| 0 <= f < s.best.len() implies #[trigger] knows_target(s, f)
        == reaches_target(s.best, targets, f) by {}
    let fewest = fewest_rounds(s.best, targets);
    if fewest is Some {
        assert(knows_target(s, fewest->0));
        if s.query.max_step_delta is Some && round < fewest->0 + s.query.max_step_delta->0 {
            assert forall|f: int|
                0 <= f < s.best.len() && f <= round - s.query.max_step_delta->0 implies
                !#[trigger] knows_target(s, f) by {
                assert(!reaches_target(s.best, targets, f));
            }
        }
    } else {
        assert forall|f: int| 0 <= f < s.best.len() implies !#[trigger] knows_target(s, f) by {
            assert(!reaches_target(s.best, targets, f));
        }
    }
}

impl<'a> RouterContext<'a> {
    /// A search that has not begun.
    pub fn new(
        timetable: &'a MmapTimetable,
        targets: Vec<(usize, u32)>,
        max_steps: Option<usize>,
        max_step_delta: Option<usize>,
    ) -> (context: RouterContext<'a>)
        ensures
            context.timetable == timetable,
            context.targets == targets,
            context.max_steps == max_steps,
            context.max_step_delta == max_step_delta,
            context.best_times_per_round@.len() == 0,
            context.marked_stops@.len() == 0,
            context.step_log@ == seq![log_root()],
    {
        let nowhere: InternalStepLocation = InternalStepLocation::Location(
            LatLng { lat_bits: 0, lng_bits: 0 },
        );
        let root: InternalStep = InternalStep {
            previous_step: 0,
            round: 0,
            from: nowhere,
            to: nowhere,
            route: None,
            departure: Time::epoch(),
            arrival: Time::epoch(),
            trip: None,
        };
        let mut step_log: Vec<InternalStep> = Vec::new();
        step_log.push(root);
        assert(step_log@ =~= seq![log_root()]);
        RouterContext {
            best_times_per_round: Vec::new(),
            marked_stops: Vec::new(),
            timetable,
            targets,
            max_steps,
            max_step_delta,
            step_log,
        }
    }

    /// Offers the stops near the named place.
    fn start(&mut self, dir: Direction, time: Time, place: LatLng, near: &[(usize, u32)])
        requires
            old(self).timetable.wf(),
            old(self).best_times_per_round@.len() == 0,
            old(self).marked_stops@.len() == 0,
            old(self).step_log@ == seq![log_root()],
            stops_exist(old(self).timetable.stops@.len(), near@),
            stops_exist(old(self).timetable.stops@.len(), old(self).targets@),
        ensures
            final(self).running(dir),
            final(self).state() == started(
                dir,
                old(self).timetable.stops@.len(),
                old(self).query(),
                time,
                place,
                near@,
                near@.len() as int,
            ),
            final(self).best_times_per_round@.len() == 1,
            fresh(final(self).state(), 1),
            nothing_missed(dir, old(self).timetable, final(self).state(), 1),
            forall|k: int|
                0 <= k < near@.len() ==> settled(
                    dir,
                    final(self).state(),
                    0,
                    (#[trigger] near@[k]).0 as int,
                    on_foot(dir, time.epoch_seconds as int, near@[k].1 as int),
                ),
            final(self).same_query(old(self)),
            forall|i: int|
                0 < i < final(self).step_log@.len() ==> begins(
                    dir,
                    time,
                    place,
                    near@,
                    #[trigger] final(self).step_log@[i],
                ),
    {
        let n: usize = self.timetable.stop_count();
        let row: Vec<Option<InternalItinerary>> = vec![None; n];
        assert(row@ =~= Seq::new(n as nat, |i: int| None));
        let marks: Vec<StopMark> = vec![StopMark::Unmarked; n];
        assert(marks@ =~= Seq::new(n as nat, |i: int| StopMark::Unmarked));
        self.best_times_per_round.push(row);
        self.marked_stops.push(marks);
        proof {
            let s = self.state();
            assert(s.best =~= blank(n as nat, self.query()).best);
            assert(s.marks =~= blank(n as nat, self.query()).marks);
            assert(s =~= blank(n as nat, self.query()));
            assert forall|r: int, stop: int|
                0 <= r < s.best.len() && 0 <= stop < n implies #[trigger] entry_ok(
                dir,
                s,
                r,
                stop,
            ) by {}
            assert forall|i: int| 0 <= i < s.steps.len() implies #[trigger] log_ok(s, i) by {}
            assert forall|stop: int| 0 <= stop < s.best.last().len() implies #[trigger] fresh_entry(
                s,
                1,
                stop,
            ) by {}
            assert(feasible(dir, self.timetable, s));
        }
        let mut k: usize = 0;
        while k < near.len()
            invariant
                k <= near@.len(),
                n == self.timetable.stops@.len(),
                stops_exist(n as nat, near@),
                self.running(dir),
                self.state() == started(dir, n as nat, self.query(), time, place, near@, k as int),
                self.best_times_per_round@.len() == 1,
                fresh(self.state(), 1),
                self.same_query(old(self)),
                forall|i: int|
                    0 < i < self.step_log@.len() ==> begins(
                        dir,
                        time,
                        place,
                        near@,
                        #[trigger] self.step_log@[i],
                    ),
            decreases near@.len() - k,
        {
            let ghost s = self.state();
            let (stop, cost): (usize, u32) = near[k];
            assert(near@[k as int].0 < n);
            let from: InternalStepLocation = InternalStepLocation::Location(place);
            let to: InternalStepLocation = InternalStepLocation::Stop(stop);
            let ghost step = start_step(dir, time, place, stop, cost);
            proof {
                assert(starts(dir, step));
                lemma_record_sound(dir, self.timetable, s, step);
            }
            let marked: bool = match dir {
                Direction::Forward => {
                    let arrival: Time = time.plus_seconds(cost);
                    self.maybe_update_arrival_time_and_route(
                        0,
                        &from,
                        time,
                        &to,
                        arrival,
                        None,
                        None,
                        0,
                    )
                },
                Direction::Backward => {
                    let latest: Time = time.minus_seconds(cost);
                    self.maybe_update_departure_time(0, &from, latest, &to, latest, None, None, 0)
                },
            };
            assert(self.state() == record(dir, s, step));
            assert(begins(dir, time, place, near@, step)) by {
                assert(near@[k as int] == (stop, cost));
            }
            assert forall|st: int| 0 <= st < self.state().best.last().len() implies
                #[trigger] fresh_entry(self.state(), 1, st) by {
                assert(fresh_entry(s, 1, st));
                assert(entry_ok(dir, s, 0, st));
            }
            k = k + 1;
        }
        proof {
            assert(self.step_log.len() == self.state().steps.len());
            lemma_start_misses_nothing(
                dir,
                self.timetable,
                self.query(),
                time,
                place,
                near@,
                near@.len() as int,
            );
        }
    }

    /// Begins a search at `time` from `start_location`, given the stops near it and how many
    /// seconds away on foot each is.
    pub fn init(&mut self, time: Time, start_location: LatLng, near: &[(usize, u32)])
        requires
            old(self).timetable.wf(),
            old(self).best_times_per_round@.len() == 0,
            old(self).marked_stops@.len() == 0,
            old(self).step_log@ == seq![log_root()],
            stops_exist(old(self).timetable.stops@.len(), near@),
            stops_exist(old(self).timetable.stops@.len(), old(self).targets@),
        ensures
            final(self).running(Direction::Forward),
            final(self).state() == started(
                Direction::Forward,
                old(self).timetable.stops@.len(),
                old(self).query(),
                time,
                start_location,
                near@,
                near@.len() as int,
            ),
            final(self).best_times_per_round@.len() == 1,
            fresh(final(self).state(), 1),
            nothing_missed(Direction::Forward, old(self).timetable, final(self).state(), 1),
            forall|k: int|
                0 <= k < near@.len() ==> settled(
                    Direction::Forward,
                    final(self).state(),
                    0,
                    (#[trigger] near@[k]).0 as int,
                    on_foot(Direction::Forward, time.epoch_seconds as int, near@[k].1 as int),
                ),
            final(self).same_query(old(self)),
            forall|i: int|
                0 < i < final(self).step_log@.len() ==> begins(
                    Direction::Forward,
                    time,
                    start_location,
                    near@,
                    #[trigger] final(self).step_log@[i],
                ),
    {
        self.start(Direction::Forward, time, start_location, near)
    }

    /// Begins a search that is to end at `end_at` at `target_location`, given the stops near it
    /// and how many seconds away on foot each is.
    pub fn init_backward(&mut self, end_at: Time, target_location: LatLng, near: &[(usize, u32)])
        requires
            old(self).timetable.wf(),
            old(self).best_times_per_round@.len() == 0,
            old(self).marked_stops@.len() == 0,
            old(self).step_log@ == seq![log_root()],
            stops_exist(old(self).timetable.stops@.len(), near@),
            stops_exist(old(self).timetable.stops@.len(), old(self).targets@),
        ensures
            final(self).running(Direction::Backward),
            final(self).state() == started(
                Direction::Backward,
                old(self).timetable.stops@.len(),
                old(self).query(),
                end_at,
                target_location,
                near@,
                near@.len() as int,
            ),
            final(self).best_times_per_round@.len() == 1,
            fresh(final(self).state(), 1),
            nothing_missed(Direction::Backward, old(self).timetable, final(self).state(), 1),
            forall|k: int|
                0 <= k < near@.len() ==> settled(
                    Direction::Backward,
                    final(self).state(),
                    0,
                    (#[trigger] near@[k]).0 as int,
                    on_foot(Direction::Backward, end_at.epoch_seconds as int, near@[k].1 as int),
                ),
            final(self).same_query(old(self)),
            forall|i: int|
                0 < i < final(self).step_log@.len() ==> begins(
                    Direction::Backward,
                    end_at,
                    target_location,
                    near@,
                    #[trigger] final(self).step_log@[i],
                ),
    {
        self.start(Direction::Backward, end_at, target_location, near)
    }
}

/// What the first round is that knows a way to a target: it does, and no earlier one does.
pub proof fn lemma_fewest_rounds(
    best: Seq<Seq<Option<InternalItinerary>>>,
    targets: Seq<(usize, u32)>,
    r: int,
)
    requires
        0 <= r,
    ensures
        fewest_rounds_from(best, targets, r) matches Some(first) ==> r <= first < best.len()
            && reaches_target(best, targets, first) && forall|k: int|
            r <= k < first ==> !#[trigger] reaches_target(best, targets, k),
        fewest_rounds_from(best, targets, r) is None ==> forall|k: int|
            r <= k < best.len() ==> !#[trigger] reaches_target(best, targets, k),
    decreases best.len() - r,
{
    if r < best.len() && !reaches_target(best, targets, r) {
        lemma_fewest_rounds(best, targets, r + 1);
    }
}

impl<'a> RouterContext<'a> {
    /// Every row of best times has an entry for each stop.
    pub open spec fn rows_fit(&self) -> bool {
        forall|r: int|
            0 <= r < self.state().best.len() ==> (#[trigger] self.state().best[r]).len()
                == self.timetable.stops@.len()
    }

    fn round_reaches_target(&self, round: usize) -> (b: bool)
        requires
            self.rows_fit(),
            round < self.best_times_per_round@.len(),
            stops_exist(self.timetable.stops@.len(), self.targets@),
        ensures
            b == reaches_target(self.state().best, self.targets@, round as int),
    {
        let mut k: usize = 0;
        assert(self.state().best[round as int].len() == self.timetable.stops@.len());
        while k < self.targets.len()
            invariant
                self.state().best[round as int].len() == self.timetable.stops@.len(),
                round < self.best_times_per_round@.len(),
                stops_exist(self.timetable.stops@.len(), self.targets@),
                k <= self.targets@.len(),
                forall|j: int|
                    0 <= j < k ==> self.state().best[round as int][(
                    #[trigger] self.targets@[j]).0 as int] is None,
            decreases self.targets@.len() - k,
        {
            let id: usize = self.targets[k].0;
            assert(self.targets@[k as int].0 < self.timetable.stops@.len());
            assert(self.best_times_per_round@[round as int]@ == self.state().best[round as int]);
            if self.best_times_per_round[round][id].is_some() {
                return true;
            }
            k = k + 1;
        }
        false
    }

    /// The first round that knows a way to a target.
    pub fn fewest_rounds_to_target(&self) -> (round: Option<usize>)
        requires
            self.rows_fit(),
            stops_exist(self.timetable.stops@.len(), self.targets@),
        ensures
            round is Some <==> fewest_rounds(self.state().best, self.targets@) is Some,
            round matches Some(r) ==> fewest_rounds(self.state().best, self.targets@) == Some(
                r as int,
            ),
    {
        let mut round: usize = 0;
        while round < self.best_times_per_round.len()
            invariant
                self.rows_fit(),
                stops_exist(self.timetable.stops@.len(), self.targets@),
                round <= self.best_times_per_round@.len(),
                fewest_rounds(self.state().best, self.targets@) == fewest_rounds_from(
                    self.state().best,
                    self.targets@,
                    round as int,
                ),
            decreases self.best_times_per_round@.len() - round,
        {
            if self.round_reaches_target(round) {
                return Some(round);
            }
            round = round + 1;
        }
        None
    }
}

impl<'a> RouterContext<'a> {
    /// Whether the limits of the query rule out a round.
    fn rules_out(&self, round: usize) -> (b: bool)
        requires
            self.rows_fit(),
            stops_exist(self.timetable.stops@.len(), self.targets@),
        ensures
            b == limited(self.state(), round as int),
    {
        if let Some(max_steps) = self.max_steps {
            if round > max_steps {
                return true;
            }
        }
        if let Some(delta) = self.max_step_delta {
            if let Some(fewest) = self.fewest_rounds_to_target() {
                return round >= fewest && round - fewest >= delta;
            }
        }
        false
    }

    /// Runs rounds until one reaches no stop or a limit is met.
    fn search(&mut self, dir: Direction)
        requires
            old(self).running(dir),
            old(self).best_times_per_round@.len() == 1,
            fresh(old(self).state(), 1),
        ensures
            final(self).running(dir),
            final(self).carries_on(old(self)),
            exists|k: int| #[trigger]
                runs(dir, old(self).timetable, old(self).state(), k)
                    && final(self).state() == after_rounds(
                    dir,
                    old(self).timetable,
                    old(self).state(),
                    k,
                ) && (nothing_missed(dir, old(self).timetable, old(self).state(), 1) ==> ended(
                    dir,
                    old(self).timetable,
                    old(self).state(),
                    final(self).state(),
                    k,
                )),
    {
        let ghost s0 = self.state();
        let ghost tt = self.timetable;
        let mut round: usize = 1;
        let mut reached: bool = true;
        while reached
            invariant
                tt == self.timetable,
                tt == old(self).timetable,
                s0 == old(self).state(),
                self.running(dir),
                self.carries_on(old(self)),
                nothing_missed(dir, tt, s0, 1) ==> nothing_missed(
                    dir,
                    tt,
                    self.state(),
                    round as int,
                ) && rounds_allowed(dir, tt, s0, round - 1),
                nothing_missed(dir, tt, s0, 1) && round > 1 ==> (reached
                    <==> self.step_log@.len() > after_rounds(dir, tt, s0, round - 2).steps.len()),
                round > 1 ==> self.step_log@.len() >= after_rounds(
                    dir,
                    tt,
                    s0,
                    round - 2,
                ).steps.len(),
                0 < round,
                round <= self.best_times_per_round@.len() <= round + 1,
                self.state() == after_rounds(dir, tt, s0, round - 1),
                forall|j: int| 0 <= j < round - 1 ==> #[trigger] goes_on(dir, tt, s0, j),
                fresh(self.state(), round as int),
                round > 1 ==> reached == round_reaches(
                    dir,
                    tt,
                    after_rounds(dir, tt, s0, round - 2),
                    round - 1,
                ),
                round == 1 ==> reached,
            decreases
                weight(dir, self.state()),
                if reached {
                    1int
                } else {
                    0int
                },
        {
            proof {
                lemma_limited(self.state(), round as int);
            }
            if self.rules_out(round) {
                assert(!goes_on(dir, tt, s0, round - 1));
                assert(runs(dir, tt, s0, round - 1));
                return;
            }
            assert(goes_on(dir, tt, s0, round - 1));
            reached =
            match dir {
                Direction::Forward => self.do_round(round),
                Direction::Backward => self.do_round_backward(round),
            };
            assert(self.best_times_per_round.len() == round + 2);
            round = round + 1;
        }
        assert(!goes_on(dir, tt, s0, round - 1));
        assert(runs(dir, tt, s0, round - 1));
        assert(nothing_missed(dir, tt, s0, 1) ==> ended(dir, tt, s0, self.state(), round - 1));
    }

    /// Searches from a start time on.
    pub fn route(&mut self)
        requires
            old(self).running(Direction::Forward),
            old(self).best_times_per_round@.len() == 1,
            fresh(old(self).state(), 1),
        ensures
            final(self).running(Direction::Forward),
            final(self).carries_on(old(self)),
            exists|k: int| #[trigger]
                runs(
                    Direction::Forward,
                    old(self).timetable,
                    old(self).state(),
                    k,
                ) && final(self).state() == after_rounds(
                    Direction::Forward,
                    old(self).timetable,
                    old(self).state(),
                    k,
                ) && (nothing_missed(
                    Direction::Forward,
                    old(self).timetable,
                    old(self).state(),
                    1,
                ) ==> ended(
                    Direction::Forward,
                    old(self).timetable,
                    old(self).state(),
                    final(self).state(),
                    k,
                )),
    {
        self.search(Direction::Forward)
    }

    /// Searches from a deadline back.
    pub fn route_backward(&mut self)
        requires
            old(self).running(Direction::Backward),
            old(self).best_times_per_round@.len() == 1,
            fresh(old(self).state(), 1),
        ensures
            final(self).running(Direction::Backward),
            final(self).carries_on(old(self)),
            exists|k: int| #[trigger]
                runs(
                    Direction::Backward,
                    old(self).timetable,
                    old(self).state(),
                    k,
                ) && final(self).state() == after_rounds(
                    Direction::Backward,
                    old(self).timetable,
                    old(self).state(),
                    k,
                ) && (nothing_missed(
                    Direction::Backward,
                    old(self).timetable,
                    old(self).state(),
                    1,
                ) ==> ended(
                    Direction::Backward,
                    old(self).timetable,
                    old(self).state(),
                    final(self).state(),
                    k,
                )),
    {
        self.search(Direction::Backward)
    }
}

} // verus!
