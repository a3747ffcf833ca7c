//! Why the search ends: every round that reaches a stop lowers a weight that cannot fall
//! forever.

use crate::route::context::{
    entry_ok, improves, offer_ok, offered_row, record, recorded, state_ok, step_time, Direction,
    InternalItinerary, InternalStep, SearchState,
};
use crate::timetable::Time;
use vstd::prelude::*;

verus! {

/// How much better a time could still become.
pub open spec fn slack(dir: Direction, t: Time) -> nat {
    match dir {
        Direction::Forward => t.epoch_seconds as nat,
        Direction::Backward => (u32::MAX - t.epoch_seconds) as nat,
    }
}

/// The weight of what is known of a stop: better times weigh less, and at the same time a ride
/// weighs less than a walk.
pub open spec fn entry_weight(
    dir: Direction,
    steps: Seq<InternalStep>,
    known: Option<InternalItinerary>,
) -> nat {
    match known {
        None => 0x2_0000_0002,
        Some(it) => 2 * slack(dir, it.final_time) + if steps[it.last_step as int].route is None {
            1nat
        } else {
            0nat
        },
    }
}

/// The weight of the first `k` entries of a row.
pub open spec fn row_weight(
    dir: Direction,
    steps: Seq<InternalStep>,
    row: Seq<Option<InternalItinerary>>,
    k: int,
) -> nat
    decreases k,
{
    if k <= 0 {
        0
    } else {
        row_weight(dir, steps, row, k - 1) + entry_weight(dir, steps, row[k - 1])
    }
}

/// The weight of what the search knows so far.
pub open spec fn weight(dir: Direction, s: SearchState) -> nat {
    row_weight(dir, s.steps, s.best.last(), s.best.last().len() as int)
}

/// Rows that differ in one entry differ in weight by that entry.
proof fn lemma_row_weight_update(
    dir: Direction,
    steps: Seq<InternalStep>,
    row: Seq<Option<InternalItinerary>>,
    more: Seq<InternalStep>,
    changed: Seq<Option<InternalItinerary>>,
    at: int,
    k: int,
)
    requires
        0 <= k <= row.len() == changed.len(),
        forall|i: int|
            0 <= i < k && i != at ==> entry_weight(dir, more, #[trigger] changed[i])
                == entry_weight(dir, steps, row[i]),
    ensures
        0 <= at < k ==> row_weight(dir, more, changed, k) + entry_weight(dir, steps, row[at])
            == row_weight(dir, steps, row, k) + entry_weight(dir, more, changed[at]),
        !(0 <= at < k) ==> row_weight(dir, more, changed, k) == row_weight(dir, steps, row, k),
    decreases k,
{
    if k > 0 {
        lemma_row_weight_update(dir, steps, row, more, changed, at, k - 1);
        assert(k - 1 != at ==> entry_weight(dir, more, changed[k - 1]) == entry_weight(
            dir,
            steps,
            row[k - 1],
        ));
    }
}

/// The last row names no step of a later round than `round`, and no ride of that round.
pub open spec fn fresh_entry(s: SearchState, round: int, stop: int) -> bool {
    s.best.last()[stop] matches Some(it) ==> {
        &&& s.steps[it.last_step as int].round <= round
        &&& s.steps[it.last_step as int].route is Some ==> s.steps[it.last_step as int].round
            < round
    }
}

pub open spec fn fresh(s: SearchState, round: int) -> bool {
    forall|stop: int| 0 <= stop < s.best.last().len() ==> #[trigger] fresh_entry(s, round, stop)
}

pub open spec fn no_later(s: SearchState, round: int, stop: int) -> bool {
    s.best.last()[stop] matches Some(it) ==> s.steps[it.last_step as int].round <= round
}

/// While rides are offered in round `round`: its row and the next one agree, and once one ride
/// was taken up, the weight is below `w`, where it began.
pub open spec fn riding(dir: Direction, s: SearchState, round: int, w: nat, any: bool) -> bool {
    &&& 0 < round
    &&& s.best.len() == round + 2
    &&& s.best[round] == s.best[round + 1]
    &&& forall|stop: int| 0 <= stop < s.best.last().len() ==> #[trigger] no_later(s, round, stop)
    &&& weight(dir, s) <= w
    &&& any ==> weight(dir, s) < w
    &&& !any ==> fresh(s, round)
}

/// While walks are offered after round `round`.
pub open spec fn walking(dir: Direction, s: SearchState, round: int, w: nat) -> bool {
    &&& 0 < round
    &&& s.best.len() == round + 2
    &&& fresh(s, round + 1)
    &&& weight(dir, s) < w
}

/// Offering a ride keeps `riding`.
pub proof fn lemma_riding(
    dir: Direction,
    n: nat,
    s: SearchState,
    step: InternalStep,
    round: int,
    w: nat,
    any: bool,
)
    requires
        state_ok(dir, n, s),
        offer_ok(n, s, step),
        riding(dir, s, round, w, any),
        step.round == round,
        step.route is Some,
        step.to is Stop,
        recorded(dir, s, step) ==> s.steps.len() < usize::MAX,
    ensures
        riding(dir, record(dir, s, step), round, w, any || recorded(dir, s, step)),
{
    let t = record(dir, s, step);
    let stop = step.to->Stop_0 as int;
    if recorded(dir, s, step) {
        let last = round + 1;
        let r0 = choose|r0: int|
            step.round <= r0 < s.best.len() && #[trigger] improves(
                dir,
                s.steps,
                s.best[r0][stop],
                step,
            );
        assert(r0 == round || r0 == round + 1);
        assert(improves(dir, s.steps, s.best[last][stop], step));
        assert(t.best[round] == offered_row(dir, s, step, stop, round));
        assert(t.best[last] == offered_row(dir, s, step, stop, last));
        assert(s.best[last].len() == n);
        let row = s.best[last];
        let changed = t.best[last];
        assert forall|i: int| 0 <= i < n && i != stop implies entry_weight(
            dir,
            t.steps,
            #[trigger] changed[i],
        ) == entry_weight(dir, s.steps, row[i]) by {
            assert(entry_ok(dir, s, last, i));
        }
        lemma_row_weight_update(dir, s.steps, row, t.steps, changed, stop, n as int);
        assert(entry_ok(dir, s, last, stop));
        assert(no_later(s, round, stop));
        assert(t.steps[s.steps.len() as int] == step);
        assert(changed[stop] == Some(
            InternalItinerary {
                last_step: s.steps.len() as usize,
                final_time: step_time(dir, step),
            },
        ));
        assert(entry_weight(dir, t.steps, changed[stop]) <= entry_weight(dir, s.steps, row[stop]));
        if !any {
            assert(fresh_entry(s, round, stop));
            assert(entry_weight(dir, t.steps, changed[stop]) < entry_weight(
                dir,
                s.steps,
                row[stop],
            ));
        }
        assert forall|i: int| 0 <= i < t.best.last().len() implies #[trigger] no_later(
            t,
            round,
            i,
        ) by {
            assert(no_later(s, round, i));
            assert(entry_ok(dir, s, last, i));
        }
    }
}

/// Offering a walk keeps `walking`.
pub proof fn lemma_walking(
    dir: Direction,
    n: nat,
    s: SearchState,
    step: InternalStep,
    round: int,
    w: nat,
)
    requires
        state_ok(dir, n, s),
        offer_ok(n, s, step),
        walking(dir, s, round, w),
        step.round == round + 1,
        step.route is None,
        step.to is Stop,
        recorded(dir, s, step) ==> s.steps.len() < usize::MAX,
    ensures
        walking(dir, record(dir, s, step), round, w),
{
    let t = record(dir, s, step);
    let stop = step.to->Stop_0 as int;
    if recorded(dir, s, step) {
        let last = round + 1;
        let r0 = choose|r0: int|
            step.round <= r0 < s.best.len() && #[trigger] improves(
                dir,
                s.steps,
                s.best[r0][stop],
                step,
            );
        assert(r0 == last);
        assert(t.best[last] == offered_row(dir, s, step, stop, last));
        assert(s.best[last].len() == n);
        let row = s.best[last];
        let changed = t.best[last];
        assert forall|i: int| 0 <= i < n && i != stop implies entry_weight(
            dir,
            t.steps,
            #[trigger] changed[i],
        ) == entry_weight(dir, s.steps, row[i]) by {
            assert(entry_ok(dir, s, last, i));
        }
        lemma_row_weight_update(dir, s.steps, row, t.steps, changed, stop, n as int);
        assert(entry_ok(dir, s, last, stop));
        assert(fresh_entry(s, round + 1, stop));
        assert(t.steps[s.steps.len() as int] == step);
        assert(entry_weight(dir, t.steps, changed[stop]) <= entry_weight(dir, s.steps, row[stop]));
        assert forall|i: int| 0 <= i < t.best.last().len() implies #[trigger] fresh_entry(
            t,
            round + 1,
            i,
        ) by {
            assert(fresh_entry(s, round + 1, i));
            assert(entry_ok(dir, s, last, i));
        }
    }
}

} // verus!
