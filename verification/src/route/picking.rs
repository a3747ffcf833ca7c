//! Which of the itineraries that a search found are worth showing.

use crate::route::context::{
    entry_ok, stops_exist, Direction, InternalItinerary, InternalStep, RouterContext, SearchState,
};
use crate::route::journeys::well_shaped;
use crate::route::search::{fewest_rounds, lemma_fewest_rounds, reaches_target};
use crate::timetable::Time;
use vstd::prelude::*;

verus! {

/// How many half seconds a second of walking counts for in scenario `w`: walking is weighed half,
/// once and twice.
pub open spec fn halves(w: int) -> nat {
    if w == 0 {
        1
    } else if w == 1 {
        2
    } else {
        4
    }
}

/// `seconds` weighed by `h` halves, in whole seconds, as far as 32 bits hold them.
pub open spec fn scaled(seconds: nat, h: nat) -> nat {
    if seconds * h / 2 <= u32::MAX {
        seconds * h / 2
    } else {
        u32::MAX as nat
    }
}

/// A walk weighed by one half, two or four counts for half its time, for its time, or for twice its
/// time, as far as 32 bits hold it.
pub proof fn lemma_scaled(seconds: nat)
    requires
        seconds <= u32::MAX,
    ensures
        scaled(seconds, 1) == seconds / 2,
        scaled(seconds, 2) == seconds,
        scaled(seconds, 4) == (if 2 * seconds <= 0xffff_ffff {
            2 * seconds
        } else {
            0xffff_ffff
        }),
        halves(0) == 1,
        halves(1) == 2,
        halves(2) == 4,
{
}

/// When an itinerary ends, with the walk that it may end with weighed by `h` halves.
pub open spec fn scaled_end(steps: Seq<InternalStep>, it: InternalItinerary, h: nat) -> nat {
    let last = steps[it.last_step as int];
    if last.trip is None {
        last.departure.epoch_seconds as nat + scaled(
            (last.arrival.epoch_seconds - last.departure.epoch_seconds) as nat,
            h,
        )
    } else {
        last.arrival.epoch_seconds as nat
    }
}

/// The itinerary that row `r` knows for target `k`, if a ride leads there.
pub open spec fn candidate(
    s: SearchState,
    costs: Seq<(usize, u32)>,
    r: int,
    k: int,
) -> Option<InternalItinerary> {
    match s.best[r][costs[k].0 as int] {
        Some(it) => if s.steps[it.last_step as int].route is Some {
            Some(it)
        } else {
            None
        },
        None => None,
    }
}

/// What candidates are compared by: forward, when one gets to the named place; back, when one
/// has to leave it.
pub open spec fn pick_key(
    dir: Direction,
    steps: Seq<InternalStep>,
    it: InternalItinerary,
    cost: u32,
    h: nat,
) -> int {
    match dir {
        Direction::Forward => (scaled_end(steps, it, h) + scaled(cost as nat, h)) as int,
        Direction::Backward => it.final_time.minus(cost).epoch_seconds as int,
    }
}

/// Which of the first `k` targets row `r` serves best, if it serves any: forward, the first with
/// the smallest key; back, the last with the largest.
pub open spec fn preferred(
    dir: Direction,
    s: SearchState,
    costs: Seq<(usize, u32)>,
    r: int,
    h: nat,
    k: int,
) -> Option<int>
    decreases k,
{
    if k <= 0 {
        None
    } else {
        let before = preferred(dir, s, costs, r, h, k - 1);
        match candidate(s, costs, r, k - 1) {
            None => before,
            Some(it) => match before {
                None => Some(k - 1),
                Some(b) => {
                    let key = pick_key(dir, s.steps, it, costs[k - 1].1, h);
                    let known = pick_key(
                        dir,
                        s.steps,
                        candidate(s, costs, r, b)->0,
                        costs[b].1,
                        h,
                    );
                    let wins = match dir {
                        Direction::Forward => key < known,
                        Direction::Backward => key >= known,
                    };
                    if wins {
                        Some(k - 1)
                    } else {
                        before
                    }
                },
            },
        }
    }
}

/// The preferred target is one that a ride leads to, and no other such target has a better key.
pub proof fn lemma_preferred(
    dir: Direction,
    s: SearchState,
    costs: Seq<(usize, u32)>,
    r: int,
    h: nat,
    k: int,
)
    requires
        0 <= k <= costs.len(),
    ensures
        preferred(dir, s, costs, r, h, k) is None ==> forall|j: int|
            0 <= j < k ==> #[trigger] candidate(s, costs, r, j) is None,
        preferred(dir, s, costs, r, h, k) matches Some(b) ==> {
            &&& 0 <= b < k
            &&& candidate(s, costs, r, b) is Some
            &&& forall|j: int|
                0 <= j < k && (#[trigger] candidate(s, costs, r, j)) is Some ==> {
                    let key = pick_key(
                        dir,
                        s.steps,
                        candidate(s, costs, r, b)->0,
                        costs[b].1,
                        h,
                    );
                    let other = pick_key(
                        dir,
                        s.steps,
                        candidate(s, costs, r, j)->0,
                        costs[j].1,
                        h,
                    );
                    match dir {
                        Direction::Forward => key <= other && (key == other ==> b <= j),
                        Direction::Backward => key >= other && (key == other ==> b >= j),
                    }
                }
        },
    decreases k,
{
    if k > 0 {
        lemma_preferred(dir, s, costs, r, h, k - 1);
    }
}

/// What was picked so far: the best time per scenario, and the itineraries.
#[verifier::ext_equal]
pub struct Picks {
    pub best: Seq<Option<Time>>,
    pub chosen: Set<InternalItinerary>,
}

/// Whether time `a` is better than time `b`.
pub open spec fn better(dir: Direction, a: Time, b: Time) -> bool {
    match dir {
        Direction::Forward => a.epoch_seconds < b.epoch_seconds,
        Direction::Backward => a.epoch_seconds > b.epoch_seconds,
    }
}

/// The picks after scenario `w` looked at row `r`: its preferred itinerary is picked, if it is
/// better than what the scenario picked before.
pub open spec fn picked_in_scenario(
    dir: Direction,
    s: SearchState,
    costs: Seq<(usize, u32)>,
    r: int,
    w: int,
    picks: Picks,
) -> Picks {
    match preferred(dir, s, costs, r, halves(w), costs.len() as int) {
        None => picks,
        Some(k) => {
            let it = candidate(s, costs, r, k)->0;
            let wins = picks.best[w] matches Some(known) ==> better(dir, it.final_time, known);
            if wins {
                Picks {
                    best: picks.best.update(w, Some(it.final_time)),
                    chosen: picks.chosen.insert(it),
                }
            } else {
                picks
            }
        },
    }
}

/// The picks after the first `w` scenarios looked at row `r`.
pub open spec fn picked_in_round(
    dir: Direction,
    s: SearchState,
    costs: Seq<(usize, u32)>,
    r: int,
    picks: Picks,
    w: int,
) -> Picks
    decreases w,
{
    if w <= 0 {
        picks
    } else {
        picked_in_scenario(
            dir,
            s,
            costs,
            r,
            w - 1,
            picked_in_round(dir, s, costs, r, picks, w - 1),
        )
    }
}

/// The picks from the first `r` rows.
pub open spec fn picked(dir: Direction, s: SearchState, costs: Seq<(usize, u32)>, r: int) -> Picks
    decreases r,
{
    if r <= 0 {
        Picks { best: seq![None, None, None], chosen: Set::empty() }
    } else {
        picked_in_round(dir, s, costs, r - 1, picked(dir, s, costs, r - 1), 3)
    }
}

/// How many rows itineraries are picked from, given the first that reaches a target.
pub open spec fn picked_rounds(s: SearchState, fewest: int) -> int {
    let rounds = s.best.len() as int;
    let within_delta = match s.query.max_step_delta {
        Some(delta) => if rounds < fewest + delta {
            rounds
        } else {
            fewest + delta
        },
        None => rounds,
    };
    match s.query.max_steps {
        Some(max_steps) => if within_delta < max_steps {
            within_delta
        } else {
            max_steps as int
        },
        None => within_delta,
    }
}

/// The itineraries that are picked: none where no target was reached.
pub open spec fn picks(
    dir: Direction,
    s: SearchState,
    costs: Seq<(usize, u32)>,
) -> Set<InternalItinerary> {
    match fewest_rounds(s.best, s.query.targets) {
        None => Set::empty(),
        Some(fewest) => picked(dir, s, costs, picked_rounds(s, fewest)).chosen,
    }
}

/// Whether itinerary `a` is shown before `b`: it has the better time, or the same in fewer
/// rounds.
pub open spec fn shown_before(
    dir: Direction,
    steps: Seq<InternalStep>,
    a: InternalItinerary,
    b: InternalItinerary,
) -> bool {
    ||| better(dir, a.final_time, b.final_time)
    ||| a.final_time == b.final_time && steps[a.last_step as int].round
        < steps[b.last_step as int].round
}

/// Itineraries in the order in which they are shown.
pub open spec fn in_show_order(
    dir: Direction,
    steps: Seq<InternalStep>,
    its: Seq<InternalItinerary>,
) -> bool {
    forall|i: int, j: int|
        0 <= i < j < its.len() ==> !shown_before(dir, steps, #[trigger] its[j], #[trigger] its[i])
}

/// Every picked itinerary is one that some row knows for a target that a ride leads to.
pub proof fn lemma_picked_from_table(
    dir: Direction,
    s: SearchState,
    costs: Seq<(usize, u32)>,
    r: int,
    it: InternalItinerary,
)
    requires
        0 <= r <= s.best.len(),
        picked(dir, s, costs, r).chosen.contains(it),
    ensures
        exists|row: int, k: int|
            0 <= row < r && 0 <= k < costs.len() && #[trigger] candidate(s, costs, row, k) == Some(
                it,
            ),
    decreases r,
{
    if r > 0 {
        let before = picked(dir, s, costs, r - 1);
        assert forall|w: int| 0 <= w <= 3 && #[trigger] picked_in_round(
            dir,
            s,
            costs,
            r - 1,
            before,
            w,
        ).chosen.contains(it) && !before.chosen.contains(it) implies exists|k: int|
            0 <= k < costs.len() && #[trigger] candidate(s, costs, r - 1, k) == Some(it) by {
            lemma_picked_in_round(dir, s, costs, r - 1, before, w, it);
        }
        if before.chosen.contains(it) {
            lemma_picked_from_table(dir, s, costs, r - 1, it);
            let (row, k) = choose|row: int, k: int|
                0 <= row < r - 1 && 0 <= k < costs.len() && #[trigger] candidate(s, costs, row, k)
                    == Some(it);
            assert(candidate(s, costs, row, k) == Some(it));
        } else {
            assert(picked_in_round(dir, s, costs, r - 1, before, 3).chosen.contains(it));
        }
    }
}

proof fn lemma_picked_in_round(
    dir: Direction,
    s: SearchState,
    costs: Seq<(usize, u32)>,
    r: int,
    before: Picks,
    w: int,
    it: InternalItinerary,
)
    requires
        0 <= w <= 3,
        picked_in_round(dir, s, costs, r, before, w).chosen.contains(it),
        !before.chosen.contains(it),
    ensures
        exists|k: int|
            0 <= k < costs.len() && #[trigger] candidate(s, costs, r, k) == Some(it),
    decreases w,
{
    if w > 0 {
        if picked_in_round(dir, s, costs, r, before, w - 1).chosen.contains(it) {
            lemma_picked_in_round(dir, s, costs, r, before, w - 1, it);
        } else {
            lemma_preferred(dir, s, costs, r, halves(w - 1), costs.len() as int);
            let k = preferred(dir, s, costs, r, halves(w - 1), costs.len() as int)->0;
            assert(candidate(s, costs, r, k) == Some(it));
        }
    }
}

/// Row `r` knows a way to target `k` that ends with a ride.
pub open spec fn rides_to(s: SearchState, costs: Seq<(usize, u32)>, r: int, k: int) -> bool {
    &&& 0 <= k < costs.len()
    &&& s.best[r][costs[k].0 as int] is Some
    &&& s.steps[way_to(s, costs, r, k).last_step as int].route is Some
}

/// The way to target `k` that row `r` knows.
pub open spec fn way_to(
    s: SearchState,
    costs: Seq<(usize, u32)>,
    r: int,
    k: int,
) -> InternalItinerary {
    s.best[r][costs[k].0 as int]->0
}

/// When, as scenario `w` counts it, one who takes the way to target `k` gets to the named place;
/// searching back, has to leave it. Forward, the walk counts for half its time, for its time, or
/// for twice its time.
pub open spec fn counted(
    dir: Direction,
    s: SearchState,
    costs: Seq<(usize, u32)>,
    r: int,
    w: int,
    k: int,
) -> int {
    let time = way_to(s, costs, r, k).final_time.epoch_seconds as int;
    let walk = costs[k].1 as int;
    match dir {
        Direction::Forward => time + (if w == 0 {
            walk / 2
        } else if w == 1 {
            walk
        } else if 2 * walk <= 0xffff_ffff {
            2 * walk
        } else {
            0xffff_ffff
        }),
        Direction::Backward => if time >= walk {
            time - walk
        } else {
            0
        },
    }
}

/// Of the ways of row `r` that end with a ride, the one to target `k` counts best in scenario `w`:
/// forward, it is the earliest, and the first of equal ones; back, the latest, and the last of
/// equal ones.
pub open spec fn leads(
    dir: Direction,
    s: SearchState,
    costs: Seq<(usize, u32)>,
    r: int,
    w: int,
    k: int,
) -> bool {
    &&& rides_to(s, costs, r, k)
    &&& forall|j: int| #[trigger]
        rides_to(s, costs, r, j) ==> match dir {
            Direction::Forward => {
                ||| counted(dir, s, costs, r, w, k) < counted(dir, s, costs, r, w, j)
                ||| counted(dir, s, costs, r, w, k) == counted(dir, s, costs, r, w, j) && k <= j
            },
            Direction::Backward => {
                ||| counted(dir, s, costs, r, w, k) > counted(dir, s, costs, r, w, j)
                ||| counted(dir, s, costs, r, w, k) == counted(dir, s, costs, r, w, j) && k >= j
            },
        }
}

/// The way to target `k` leads in row `r`, and has a strictly better time than what leads in every
/// row before it: one gets to its last stop earlier, or, searching back, leaves its first later.
pub open spec fn outdoes(
    dir: Direction,
    s: SearchState,
    costs: Seq<(usize, u32)>,
    r: int,
    w: int,
    k: int,
) -> bool {
    &&& leads(dir, s, costs, r, w, k)
    &&& forall|q: int, l: int|
        0 <= q < r && #[trigger] leads(dir, s, costs, q, w, l) ==> {
            let time = way_to(s, costs, r, k).final_time.epoch_seconds;
            let other = way_to(s, costs, q, l).final_time.epoch_seconds;
            match dir {
                Direction::Forward => time < other,
                Direction::Backward => time > other,
            }
        }
}

/// Row `r` knows a way to a place that was asked for.
pub open spec fn knows_target(s: SearchState, r: int) -> bool {
    exists|k: int|
        0 <= k < s.query.targets.len() && s.best[r][(#[trigger] s.query.targets[k]).0 as int]
            is Some
}

/// The limits let row `r` be shown: it is no later than the number of rounds that was asked for,
/// and less than `max_step_delta` rounds later than every row that knows a target.
pub open spec fn looked_at(s: SearchState, r: int) -> bool {
    &&& 0 <= r < s.best.len()
    &&& s.query.max_steps matches Some(most) ==> r < most
    &&& s.query.max_step_delta matches Some(delta) ==> forall|f: int|
        0 <= f <= r - delta ==> !#[trigger] knows_target(s, f)
    &&& exists|f: int| 0 <= f < s.best.len() && #[trigger] knows_target(s, f)
}

/// `it` is what row `r` has to show in scenario `w`.
pub open spec fn worth_showing(
    dir: Direction,
    s: SearchState,
    costs: Seq<(usize, u32)>,
    it: InternalItinerary,
    r: int,
    w: int,
    k: int,
) -> bool {
    &&& looked_at(s, r)
    &&& 0 <= w < 3
    &&& outdoes(dir, s, costs, r, w, k)
    &&& it == way_to(s, costs, r, k)
}

proof fn lemma_leads(
    dir: Direction,
    context: &RouterContext,
    costs: Seq<(usize, u32)>,
    r: int,
    w: int,
)
    requires
        context.running(dir),
        stops_exist(context.timetable.stops@.len(), costs),
        0 <= r < context.state().best.len(),
        0 <= w < 3,
    ensures
        ({
            let s = context.state();
            let p = preferred(dir, s, costs, r, halves(w), costs.len() as int);
            &&& p matches Some(b) ==> leads(dir, s, costs, r, w, b) && candidate(s, costs, r, b)
                == Some(way_to(s, costs, r, b))
            &&& forall|k: int| #[trigger] leads(dir, s, costs, r, w, k) ==> p == Some(k)
        }),
{
    let s = context.state();
    let h = halves(w);
    lemma_preferred(dir, s, costs, r, h, costs.len() as int);
    assert forall|k: int| #[trigger] rides_to(s, costs, r, k) implies candidate(s, costs, r, k)
        == Some(way_to(s, costs, r, k)) && pick_key(
        dir,
        s.steps,
        way_to(s, costs, r, k),
        costs[k].1,
        h,
    ) == counted(dir, s, costs, r, w, k) by {
        assert(costs[k].0 < context.timetable.stops@.len());
        assert(entry_ok(dir, s, r, costs[k].0 as int));
        assert(well_shaped(
            context.timetable,
            s.steps[way_to(s, costs, r, k).last_step as int],
        ));
        let walk = costs[k].1 as int;
        assert(walk * 2 / 2 == walk);
        assert(walk * 4 / 2 == 2 * walk);
        assert(walk * 1 / 2 == walk / 2);
    }
    assert forall|j: int| 0 <= j < costs.len() && (#[trigger] candidate(s, costs, r, j))
        is Some implies rides_to(s, costs, r, j) by {}
    let p = preferred(dir, s, costs, r, h, costs.len() as int);
    assert forall|k: int| #[trigger] leads(dir, s, costs, r, w, k) implies p == Some(k) by {
        assert(rides_to(s, costs, r, k));
        assert(candidate(s, costs, r, k) is Some);
        let b = p->0;
        assert(rides_to(s, costs, r, b));
    }
    if p is Some {
        let b = p->0;
        assert(rides_to(s, costs, r, b));
        assert forall|j: int| #[trigger] rides_to(s, costs, r, j) implies match dir {
            Direction::Forward => {
                ||| counted(dir, s, costs, r, w, b) < counted(dir, s, costs, r, w, j)
                ||| counted(dir, s, costs, r, w, b) == counted(dir, s, costs, r, w, j) && b <= j
            },
            Direction::Backward => {
                ||| counted(dir, s, costs, r, w, b) > counted(dir, s, costs, r, w, j)
                ||| counted(dir, s, costs, r, w, b) == counted(dir, s, costs, r, w, j) && b >= j
            },
        } by {
            assert(candidate(s, costs, r, j) is Some);
        }
    }
}

/// Whether time `t` of scenario `w` is the best of what leads in the first `r` rows, if any does.
spec fn best_so_far(
    dir: Direction,
    s: SearchState,
    costs: Seq<(usize, u32)>,
    r: int,
    w: int,
    t: Option<Time>,
) -> bool {
    &&& t matches Some(t) ==> {
        &&& exists|q: int, k: int|
            0 <= q < r && #[trigger] leads(dir, s, costs, q, w, k) && way_to(
                s,
                costs,
                q,
                k,
            ).final_time == t
        &&& forall|q: int, k: int|
            0 <= q < r && #[trigger] leads(dir, s, costs, q, w, k) ==> match dir {
                Direction::Forward => t.epoch_seconds <= way_to(
                    s,
                    costs,
                    q,
                    k,
                ).final_time.epoch_seconds,
                Direction::Backward => t.epoch_seconds >= way_to(
                    s,
                    costs,
                    q,
                    k,
                ).final_time.epoch_seconds,
            }
    }
    &&& t is None ==> forall|q: int, k: int|
        0 <= q < r ==> !#[trigger] leads(dir, s, costs, q, w, k)
}

/// `it` outdoes in one of the first `r` rows, or in row `r` in one of the first `v` scenarios.
spec fn outdone_before(
    dir: Direction,
    s: SearchState,
    costs: Seq<(usize, u32)>,
    r: int,
    v: int,
    it: InternalItinerary,
) -> bool {
    exists|q: int, w: int, k: int|
        0 <= w < 3 && (0 <= q < r || q == r && w < v) && #[trigger] outdoes(
            dir,
            s,
            costs,
            q,
            w,
            k,
        ) && it == way_to(s, costs, q, k)
}

proof fn lemma_picked_scenarios(
    dir: Direction,
    context: &RouterContext,
    costs: Seq<(usize, u32)>,
    r: int,
    before: Picks,
    v: int,
)
    requires
        context.running(dir),
        stops_exist(context.timetable.stops@.len(), costs),
        0 <= r < context.state().best.len(),
        0 <= v <= 3,
        before.best.len() == 3,
        forall|w: int|
            0 <= w < 3 ==> best_so_far(
                dir,
                context.state(),
                costs,
                r,
                w,
                #[trigger] before.best[w],
            ),
        forall|it: InternalItinerary| #[trigger]
            before.chosen.contains(it) <==> outdone_before(dir, context.state(), costs, r, 0, it),
    ensures
        ({
            let s = context.state();
            let after = picked_in_round(dir, s, costs, r, before, v);
            &&& after.best.len() == 3
            &&& forall|w: int|
                0 <= w < 3 ==> best_so_far(
                    dir,
                    s,
                    costs,
                    if w < v {
                        r + 1
                    } else {
                        r
                    },
                    w,
                    #[trigger] after.best[w],
                )
            &&& forall|it: InternalItinerary| #[trigger]
                after.chosen.contains(it) <==> outdone_before(dir, s, costs, r, v, it)
        }),
    decreases v,
{
    if v > 0 {
        let s = context.state();
        lemma_picked_scenarios(dir, context, costs, r, before, v - 1);
        lemma_leads(dir, context, costs, r, v - 1);
        let had = picked_in_round(dir, s, costs, r, before, v - 1);
        let after = picked_in_round(dir, s, costs, r, before, v);
        assert(best_so_far(dir, s, costs, r, v - 1, had.best[v - 1]));
        let p = preferred(dir, s, costs, r, halves(v - 1), costs.len() as int);
        if p is Some {
            let k = p->0;
            assert(leads(dir, s, costs, r, v - 1, k));
            let it = way_to(s, costs, r, k);
            let wins = had.best[v - 1] matches Some(known) ==> better(dir, it.final_time, known);
            assert(wins == outdoes(dir, s, costs, r, v - 1, k)) by {
                if had.best[v - 1] is Some && !wins {
                    let (q, l) = choose|q: int, l: int|
                        0 <= q < r && #[trigger] leads(dir, s, costs, q, v - 1, l) && way_to(
                            s,
                            costs,
                            q,
                            l,
                        ).final_time == had.best[v - 1]->0;
                    assert(leads(dir, s, costs, q, v - 1, l));
                }
            }
            assert(best_so_far(dir, s, costs, r + 1, v - 1, after.best[v - 1])) by {
                if !wins {
                    let (q, l) = choose|q: int, l: int|
                        0 <= q < r && #[trigger] leads(dir, s, costs, q, v - 1, l) && way_to(
                            s,
                            costs,
                            q,
                            l,
                        ).final_time == had.best[v - 1]->0;
                    assert(leads(dir, s, costs, q, v - 1, l));
                }
            }
        } else {
            assert(best_so_far(dir, s, costs, r + 1, v - 1, after.best[v - 1])) by {
                if had.best[v - 1] is Some {
                    let (q, l) = choose|q: int, l: int|
                        0 <= q < r && #[trigger] leads(dir, s, costs, q, v - 1, l) && way_to(
                            s,
                            costs,
                            q,
                            l,
                        ).final_time == had.best[v - 1]->0;
                    assert(leads(dir, s, costs, q, v - 1, l));
                }
            }
        }
        assert forall|w: int| 0 <= w < 3 implies best_so_far(
            dir,
            s,
            costs,
            if w < v {
                r + 1
            } else {
                r
            },
            w,
            #[trigger] after.best[w],
        ) by {
            assert(had.best[w] == had.best[w]);
            if w != v - 1 {
                assert(after.best[w] == had.best[w]);
            }
        }
        assert forall|it: InternalItinerary| #[trigger]
            after.chosen.contains(it) <==> outdone_before(dir, s, costs, r, v, it) by {
            assert(had.chosen.contains(it) <==> outdone_before(dir, s, costs, r, v - 1, it));
            if outdone_before(dir, s, costs, r, v, it) && !outdone_before(
                dir,
                s,
                costs,
                r,
                v - 1,
                it,
            ) {
                let (q, w, k) = choose|q: int, w: int, k: int|
                    0 <= w < 3 && (0 <= q < r || q == r && w < v) && #[trigger] outdoes(
                        dir,
                        s,
                        costs,
                        q,
                        w,
                        k,
                    ) && it == way_to(s, costs, q, k);
                assert(outdoes(dir, s, costs, q, w, k));
                assert(leads(dir, s, costs, r, v - 1, k));
            }
            if had.chosen.contains(it) {
                let (q, w, k) = choose|q: int, w: int, k: int|
                    0 <= w < 3 && (0 <= q < r || q == r && w < v - 1) && #[trigger] outdoes(
                        dir,
                        s,
                        costs,
                        q,
                        w,
                        k,
                    ) && it == way_to(s, costs, q, k);
                assert(outdoes(dir, s, costs, q, w, k));
            }
        }
    }
}

proof fn lemma_picked_rows(
    dir: Direction,
    context: &RouterContext,
    costs: Seq<(usize, u32)>,
    r: int,
)
    requires
        context.running(dir),
        stops_exist(context.timetable.stops@.len(), costs),
        0 <= r <= context.state().best.len(),
    ensures
        picked(dir, context.state(), costs, r).best.len() == 3,
        forall|w: int|
            0 <= w < 3 ==> best_so_far(
                dir,
                context.state(),
                costs,
                r,
                w,
                #[trigger] picked(dir, context.state(), costs, r).best[w],
            ),
        forall|it: InternalItinerary| #[trigger]
            picked(dir, context.state(), costs, r).chosen.contains(it) <==> outdone_before(
                dir,
                context.state(),
                costs,
                r,
                0,
                it,
            ),
    decreases r,
{
    if r > 0 {
        let s = context.state();
        let before = picked(dir, s, costs, r - 1);
        lemma_picked_rows(dir, context, costs, r - 1);
        lemma_picked_scenarios(dir, context, costs, r - 1, before, 3);
        let after = picked(dir, s, costs, r);
        assert forall|w: int| 0 <= w < 3 implies best_so_far(
            dir,
            s,
            costs,
            r,
            w,
            #[trigger] after.best[w],
        ) by {}
        assert forall|it: InternalItinerary|
            outdone_before(dir, s, costs, r - 1, 3, it) <==> #[trigger] outdone_before(
                dir,
                s,
                costs,
                r,
                0,
                it,
            ) by {
            if outdone_before(dir, s, costs, r - 1, 3, it) {
                let (q, w, k) = choose|q: int, w: int, k: int|
                    0 <= w < 3 && (0 <= q < r - 1 || q == r - 1 && w < 3) && #[trigger] outdoes(
                        dir,
                        s,
                        costs,
                        q,
                        w,
                        k,
                    ) && it == way_to(s, costs, q, k);
                assert(outdoes(dir, s, costs, q, w, k));
            }
            if outdone_before(dir, s, costs, r, 0, it) {
                let (q, w, k) = choose|q: int, w: int, k: int|
                    0 <= w < 3 && (0 <= q < r || q == r && w < 0) && #[trigger] outdoes(
                        dir,
                        s,
                        costs,
                        q,
                        w,
                        k,
                    ) && it == way_to(s, costs, q, k);
                assert(outdoes(dir, s, costs, q, w, k));
            }
        }
    }
}

/// What is picked: of every row that the limits let be shown, and every way to weigh walking, the
/// way that counts best, if it has a better time than what counts best in every earlier row.
/// Nothing else is picked.
pub proof fn lemma_picks(dir: Direction, context: &RouterContext, costs: Seq<(usize, u32)>)
    requires
        context.running(dir),
        stops_exist(context.timetable.stops@.len(), costs),
    ensures
        forall|it: InternalItinerary| #[trigger]
            picks(dir, context.state(), costs).contains(it) <==> exists|r: int, w: int, k: int|
                #[trigger] worth_showing(dir, context.state(), costs, it, r, w, k),
{
    let s = context.state();
    let targets = s.query.targets;
    lemma_fewest_rounds(s.best, targets, 0);
    let fewest = fewest_rounds(s.best, targets);
    assert forall|f: int| 0 <= f < s.best.len() implies #[trigger] knows_target(s, f)
        == reaches_target(s.best, targets, f) by {}
    if fewest is Some {
        let rounds = picked_rounds(s, fewest->0);
        let upto = if rounds < 0 {
            0
        } else {
            rounds
        };
        lemma_picked_rows(dir, context, costs, upto);
        assert(picked(dir, s, costs, rounds) == picked(dir, s, costs, upto));
        assert(knows_target(s, fewest->0));
        assert forall|r: int| 0 <= r < upto <==> #[trigger] looked_at(s, r) by {
            if looked_at(s, r) && s.query.max_step_delta is Some {
                if fewest->0 <= r - s.query.max_step_delta->0 {
                    assert(knows_target(s, fewest->0));
                }
            }
            if 0 <= r < upto {
                assert forall|f: int|
                    s.query.max_step_delta is Some && 0 <= f <= r
                        - s.query.max_step_delta->0 implies !#[trigger] knows_target(s, f) by {
                    assert(f < fewest->0);
                    assert(!reaches_target(s.best, targets, f));
                }
            }
        }
        assert forall|it: InternalItinerary| #[trigger]
            picks(dir, s, costs).contains(it) <==> exists|r: int, w: int, k: int|
                #[trigger] worth_showing(dir, s, costs, it, r, w, k) by {
            if outdone_before(dir, s, costs, upto, 0, it) {
                let (q, w, k) = choose|q: int, w: int, k: int|
                    0 <= w < 3 && (0 <= q < upto || q == upto && w < 0) && #[trigger] outdoes(
                        dir,
                        s,
                        costs,
                        q,
                        w,
                        k,
                    ) && it == way_to(s, costs, q, k);
                assert(looked_at(s, q));
                assert(worth_showing(dir, s, costs, it, q, w, k));
            }
            if exists|r: int, w: int, k: int| #[trigger]
                worth_showing(dir, s, costs, it, r, w, k) {
                let (r, w, k) = choose|r: int, w: int, k: int| #[trigger]
                    worth_showing(dir, s, costs, it, r, w, k);
                assert(looked_at(s, r));
                assert(outdoes(dir, s, costs, r, w, k));
            }
        }
    } else {
        assert forall|f: int| 0 <= f < s.best.len() implies !#[trigger] knows_target(s, f) by {
            assert(!reaches_target(s.best, targets, f));
        }
    }
}

/// Nothing better is passed over: for every row that the limits let be shown, and every way to
/// weigh walking, something is picked whose time is at least as good as that of the way which
/// counts best in that row.
pub proof fn lemma_picks_good(
    dir: Direction,
    context: &RouterContext,
    costs: Seq<(usize, u32)>,
    r: int,
    w: int,
    k: int,
) -> (it: InternalItinerary)
    requires
        context.running(dir),
        stops_exist(context.timetable.stops@.len(), costs),
        looked_at(context.state(), r),
        0 <= w < 3,
        leads(dir, context.state(), costs, r, w, k),
    ensures
        picks(dir, context.state(), costs).contains(it),
        match dir {
            Direction::Forward => it.final_time.epoch_seconds <= way_to(
                context.state(),
                costs,
                r,
                k,
            ).final_time.epoch_seconds,
            Direction::Backward => it.final_time.epoch_seconds >= way_to(
                context.state(),
                costs,
                r,
                k,
            ).final_time.epoch_seconds,
        },
    decreases r,
{
    let s = context.state();
    lemma_picks(dir, context, costs);
    if outdoes(dir, s, costs, r, w, k) {
        let it = way_to(s, costs, r, k);
        assert(worth_showing(dir, s, costs, it, r, w, k));
        it
    } else {
        let (q, l) = choose|q: int, l: int|
            0 <= q < r && #[trigger] leads(dir, s, costs, q, w, l) && match dir {
                Direction::Forward => way_to(s, costs, q, l).final_time.epoch_seconds <= way_to(
                    s,
                    costs,
                    r,
                    k,
                ).final_time.epoch_seconds,
                Direction::Backward => way_to(s, costs, q, l).final_time.epoch_seconds >= way_to(
                    s,
                    costs,
                    r,
                    k,
                ).final_time.epoch_seconds,
            };
        assert(looked_at(s, q));
        lemma_picks_good(dir, context, costs, q, w, l)
    }
}

/// How many half seconds a second of walking counts for in a scenario.
fn walking_halves(w: usize) -> (h: u64)
    ensures
        h == halves(w as int),
{
    if w == 0 {
        1
    } else if w == 1 {
        2
    } else {
        4
    }
}

fn scale(seconds: u32, h: u64) -> (t: u64)
    requires
        h <= 4,
    ensures
        t == scaled(seconds as nat, h as nat),
{
    assert(seconds * h <= u32::MAX * 4) by (nonlinear_arith)
        requires
            h <= 4,
            0 <= seconds <= u32::MAX,
    ;
    let t: u64 = seconds as u64 * h / 2;
    if t <= u32::MAX as u64 {
        t
    } else {
        u32::MAX as u64
    }
}

/// When an itinerary ends, with the walk that it may end with weighed by `h` half seconds per
/// second.
pub fn cost_scaling_final_transfer(
    context: &RouterContext,
    itinerary: &InternalItinerary,
    h: u64,
) -> (end: u64)
    requires
        h <= 4,
        itinerary.last_step < context.step_log@.len(),
        context.step_log@[itinerary.last_step as int].trip is None
            ==> context.step_log@[itinerary.last_step as int].departure.epoch_seconds
            <= context.step_log@[itinerary.last_step as int].arrival.epoch_seconds,
    ensures
        end == scaled_end(context.step_log@, *itinerary, h as nat),
        ({
            let last = context.step_log@[itinerary.last_step as int];
            let walk = last.arrival.epoch_seconds - last.departure.epoch_seconds;
            &&& last.trip is Some ==> end == last.arrival.epoch_seconds
            &&& last.trip is None && h == 1 ==> end == last.departure.epoch_seconds + walk / 2
            &&& last.trip is None && h == 2 ==> end == last.arrival.epoch_seconds
            &&& last.trip is None && h == 4 && 2 * walk <= 0xffff_ffff ==> end
                == last.arrival.epoch_seconds + walk
        }),
{
    let last: &InternalStep = &context.step_log[itinerary.last_step];
    let departure: u32 = last.departure.epoch_seconds();
    let arrival: u32 = last.arrival.epoch_seconds();
    if last.trip.is_none() {
        proof {
            lemma_scaled((arrival - departure) as nat);
        }
        departure as u64 + scale(arrival - departure, h)
    } else {
        arrival as u64
    }
}

fn find_candidate(
    dir: Direction,
    context: &RouterContext,
    costs: &[(usize, u32)],
    r: usize,
    k: usize,
) -> (it: Option<InternalItinerary>)
    requires
        context.running(dir),
        stops_exist(context.timetable.stops@.len(), costs@),
        r < context.best_times_per_round@.len(),
        k < costs@.len(),
    ensures
        it == candidate(context.state(), costs@, r as int, k as int),
        it matches Some(it) ==> 0 < it.last_step < context.step_log@.len()
            && context.step_log@[it.last_step as int].trip is Some,
{
    let ghost s = context.state();
    let stop: usize = costs[k].0;
    assert(costs@[k as int].0 < context.timetable.stops@.len());
    assert(s.best[r as int].len() == context.timetable.stops@.len());
    assert(entry_ok(dir, s, r as int, stop as int));
    match context.best_times_per_round[r][stop] {
        None => None,
        Some(it) => {
            assert(well_shaped(context.timetable, s.steps[it.last_step as int]));
            if context.step_log[it.last_step].route.is_some() {
                Some(it)
            } else {
                None
            }
        },
    }
}

fn key_of(
    dir: Direction,
    context: &RouterContext,
    it: &InternalItinerary,
    cost: u32,
    h: u64,
) -> (key: u64)
    requires
        h <= 4,
        it.last_step < context.step_log@.len(),
        context.step_log@[it.last_step as int].trip is Some,
    ensures
        key == pick_key(dir, context.step_log@, *it, cost, h as nat),
{
    match dir {
        Direction::Forward => cost_scaling_final_transfer(context, it, h) + scale(cost, h),
        Direction::Backward => it.final_time.minus_seconds(cost).epoch_seconds() as u64,
    }
}

fn find_preferred(
    dir: Direction,
    context: &RouterContext,
    costs: &[(usize, u32)],
    r: usize,
    h: u64,
) -> (it: Option<InternalItinerary>)
    requires
        h <= 4,
        context.running(dir),
        stops_exist(context.timetable.stops@.len(), costs@),
        r < context.best_times_per_round@.len(),
    ensures
        it == match preferred(
            dir,
            context.state(),
            costs@,
            r as int,
            h as nat,
            costs@.len() as int,
        ) {
            Some(k) => candidate(context.state(), costs@, r as int, k),
            None => None,
        },
        it matches Some(it) ==> it.last_step < context.step_log@.len(),
{
    let ghost s = context.state();
    let mut found: Option<(usize, InternalItinerary)> = None;
    let mut k: usize = 0;
    while k < costs.len()
        invariant
            h <= 4,
            k <= costs@.len(),
            s == context.state(),
            context.running(dir),
            stops_exist(context.timetable.stops@.len(), costs@),
            r < context.best_times_per_round@.len(),
            found is None <==> preferred(dir, s, costs@, r as int, h as nat, k as int) is None,
            found matches Some((b, it)) ==> {
                &&& b < k
                &&& preferred(dir, s, costs@, r as int, h as nat, k as int) == Some(b as int)
                &&& candidate(s, costs@, r as int, b as int) == Some(it)
                &&& it.last_step < context.step_log@.len()
                &&& context.step_log@[it.last_step as int].trip is Some
            },
        decreases costs@.len() - k,
    {
        let next: Option<InternalItinerary> = find_candidate(dir, context, costs, r, k);
        if let Some(it) = next {
            match found {
                None => {
                    found = Some((k, it));
                },
                Some((b, known)) => {
                    let key: u64 = key_of(dir, context, &it, costs[k].1, h);
                    let known_key: u64 = key_of(dir, context, &known, costs[b].1, h);
                    let wins: bool = match dir {
                        Direction::Forward => key < known_key,
                        Direction::Backward => key >= known_key,
                    };
                    if wins {
                        found = Some((k, it));
                    }
                },
            }
        }
        k = k + 1;
    }
    match found {
        Some((_, it)) => Some(it),
        None => None,
    }
}

fn comes_before(
    dir: Direction,
    context: &RouterContext,
    a: &InternalItinerary,
    b: &InternalItinerary,
) -> (before: bool)
    requires
        a.last_step < context.step_log@.len(),
        b.last_step < context.step_log@.len(),
    ensures
        before == shown_before(dir, context.step_log@, *a, *b),
{
    let a_time: u32 = a.final_time.epoch_seconds();
    let b_time: u32 = b.final_time.epoch_seconds();
    if a_time == b_time {
        context.step_log[a.last_step].round < context.step_log[b.last_step].round
    } else {
        match dir {
            Direction::Forward => a_time < b_time,
            Direction::Backward => a_time > b_time,
        }
    }
}

/// A list of itineraries in the order in which they are shown, each once.
pub open spec fn shown(
    dir: Direction,
    steps: Seq<InternalStep>,
    its: Seq<InternalItinerary>,
) -> bool {
    &&& in_show_order(dir, steps, its)
    &&& its.no_duplicates()
    &&& forall|i: int| 0 <= i < its.len() ==> (#[trigger] its[i]).last_step < steps.len()
}

/// Adds an itinerary to those that are shown, unless it is one of them.
fn show(
    dir: Direction,
    context: &RouterContext,
    its: &mut Vec<InternalItinerary>,
    it: InternalItinerary,
)
    requires
        shown(dir, context.step_log@, old(its)@),
        it.last_step < context.step_log@.len(),
    ensures
        shown(dir, context.step_log@, final(its)@),
        forall|x: InternalItinerary| #[trigger]
            final(its)@.contains(x) <==> old(its)@.contains(x) || x == it,
{
    let ghost steps = context.step_log@;
    let ghost before = its@;
    let mut at: usize = its.len();
    let mut i: usize = 0;
    while i < its.len()
        invariant
            i <= its@.len(),
            its@ == before,
            steps == context.step_log@,
            shown(dir, steps, before),
            it.last_step < steps.len(),
            forall|k: int| 0 <= k < i ==> #[trigger] its@[k] != it,
            at == its@.len() || at < i,
            forall|k: int|
                0 <= k < i && k < at ==> !shown_before(dir, steps, it, #[trigger] its@[k]),
            at < i ==> shown_before(dir, steps, it, its@[at as int]),
        decreases its@.len() - i,
    {
        if its[i] == it {
            return;
        }
        if at == its.len() && comes_before(dir, context, &it, &its[i]) {
            at = i;
        }
        i = i + 1;
    }
    its.insert(at, it);
    let ghost after = its@;
    assert(after == before.insert(at as int, it));
    assert forall|i: int, j: int| 0 <= i < j < after.len() implies !shown_before(
        dir,
        steps,
        #[trigger] after[j],
        #[trigger] after[i],
    ) by {
        let ib = if i < at { i } else { i - 1 };
        let jb = if j < at { j } else { j - 1 };
        if i != at && j != at {
            assert(!shown_before(dir, steps, before[jb], before[ib]));
        } else if i == at {
            assert(shown_before(dir, steps, it, before[at as int]));
            if jb > at {
                assert(!shown_before(dir, steps, before[jb], before[at as int]));
            }
        } else {
            assert(!shown_before(dir, steps, it, before[i]));
        }
    }
    assert(after.no_duplicates()) by {
        assert forall|i: int, j: int| 0 <= i < after.len() && 0 <= j < after.len() && i
            != j implies after[i] != after[j] by {
            let ib = if i < at { i } else { i - 1 };
            let jb = if j < at { j } else { j - 1 };
            if i != at && j != at {
                assert(before[ib] != before[jb]);
            }
        }
    }
    assert forall|x: InternalItinerary| #[trigger]
        after.contains(x) <==> before.contains(x) || x == it by {
        if before.contains(x) {
            let i = before.index_of(x);
            assert(after[if i < at { i } else { i + 1 }] == x);
        }
        if x == it {
            assert(after[at as int] == x);
        }
        if after.contains(x) && x != it {
            let i = after.index_of(x);
            assert(before[if i < at { i } else { i - 1 }] == x);
        }
    }
    assert forall|i: int| 0 <= i < after.len() implies (#[trigger] after[i]).last_step
        < steps.len() by {
        if i != at {
            let ib = if i < at { i } else { i - 1 };
            assert(before[ib].last_step < steps.len());
        }
    }
}

/// How many rows itineraries are picked from.
fn rounds_to_pick_from(context: &RouterContext, fewest: usize) -> (rounds: usize)
    requires
        fewest < context.best_times_per_round@.len(),
    ensures
        rounds == picked_rounds(context.state(), fewest as int),
        rounds <= context.best_times_per_round@.len(),
{
    let mut rounds: usize = context.best_times_per_round.len();
    if let Some(delta) = context.max_step_delta {
        if delta <= rounds - fewest {
            rounds = fewest + delta;
        }
    }
    if let Some(max_steps) = context.max_steps {
        if max_steps <= rounds {
            rounds = max_steps;
        }
    }
    rounds
}

/// Picks the itineraries that are worth showing.
fn pick(dir: Direction, context: &RouterContext, costs: &[(usize, u32)]) -> (its: Vec<
    InternalItinerary,
>)
    requires
        context.running(dir),
        stops_exist(context.timetable.stops@.len(), context.targets@),
        stops_exist(context.timetable.stops@.len(), costs@),
    ensures
        shown(dir, context.step_log@, its@),
        forall|it: InternalItinerary| #[trigger]
            its@.contains(it) <==> picks(
                dir,
                context.state(),
                costs@,
            ).contains(it),
{
    let ghost s = context.state();
    let mut its: Vec<InternalItinerary> = Vec::new();
    assert forall|r: int| 0 <= r < s.best.len() implies (#[trigger] s.best[r]).len()
        == context.timetable.stops@.len() by {}
    let fewest: usize = match context.fewest_rounds_to_target() {
        Some(fewest) => fewest,
        None => {
            return its;
        },
    };
    proof {
        lemma_fewest_rounds(s.best, context.targets@, 0);
    }
    let rounds: usize = rounds_to_pick_from(context, fewest);
    let mut best: Vec<Option<Time>> = vec![None; 3];
    assert(best@ =~= seq![None, None, None]);
    let mut round: usize = 0;
    while round < rounds
        invariant
            s == context.state(),
            context.running(dir),
            stops_exist(context.timetable.stops@.len(), costs@),
            round <= rounds <= context.best_times_per_round@.len(),
            best@.len() == 3,
            best@ == picked(dir, s, costs@, round as int).best,
            shown(dir, context.step_log@, its@),
            forall|it: InternalItinerary| #[trigger]
                its@.contains(it) <==> picked(dir, s, costs@, round as int).chosen.contains(it),
        decreases rounds - round,
    {
        let ghost before = picked(dir, s, costs@, round as int);
        let mut w: usize = 0;
        while w < 3
            invariant
                s == context.state(),
                context.running(dir),
                stops_exist(context.timetable.stops@.len(), costs@),
                round < rounds <= context.best_times_per_round@.len(),
                w <= 3,
                best@.len() == 3,
                best@ == picked_in_round(
                    dir,
                    s,
                    costs@,
                    round as int,
                    before,
                    w as int,
                ).best,
                shown(dir, context.step_log@, its@),
                forall|it: InternalItinerary| #[trigger]
                    its@.contains(it) <==> picked_in_round(
                        dir,
                        s,
                        costs@,
                        round as int,
                        before,
                        w as int,
                    ).chosen.contains(it),
            decreases 3 - w,
        {
            let h: u64 = walking_halves(w);
            if let Some(it) = find_preferred(dir, context, costs, round, h) {
                let wins: bool = match best[w] {
                    None => true,
                    Some(known) => match dir {
                        Direction::Forward => it.final_time.epoch_seconds()
                            < known.epoch_seconds(),
                        Direction::Backward => it.final_time.epoch_seconds()
                            > known.epoch_seconds(),
                    },
                };
                proof {
                    lemma_preferred(
                        dir,
                        s,
                        costs@,
                        round as int,
                        halves(w as int),
                        costs@.len() as int,
                    );
                }
                if wins {
                    best[w] = Some(it.final_time);
                    show(dir, context, &mut its, it);
                }
            } else {
                proof {
                    lemma_preferred(
                        dir,
                        s,
                        costs@,
                        round as int,
                        halves(w as int),
                        costs@.len() as int,
                    );
                }
            }
            w = w + 1;
        }
        round = round + 1;
    }
    its
}

/// The itineraries to show after a search from a start time on.
///
/// Of each round and each way to weigh walking, the itinerary that gets to the named place first
/// is picked, if it reaches its last stop before those picked in earlier rounds did. Earlier
/// arrivals are shown first, and of equal ones those that take fewer rounds.
pub fn pick_best_itineraries(context: &RouterContext, target_costs: &[(usize, u32)]) -> (its: Vec<
    InternalItinerary,
>)
    requires
        context.running(Direction::Forward),
        stops_exist(context.timetable.stops@.len(), context.targets@),
        stops_exist(context.timetable.stops@.len(), target_costs@),
    ensures
        shown(Direction::Forward, context.step_log@, its@),
        forall|it: InternalItinerary| #[trigger]
            its@.contains(it) <==> picks(
                Direction::Forward,
                context.state(),
                target_costs@,
            ).contains(it),
        forall|it: InternalItinerary| #[trigger]
            its@.contains(it) <==> exists|r: int, w: int, k: int| #[trigger]
                worth_showing(
                    Direction::Forward,
                    context.state(),
                    target_costs@,
                    it,
                    r,
                    w,
                    k,
                ),
        forall|i: int, j: int|
            0 <= i < j < its@.len() ==> {
                let a = #[trigger] its@[i];
                let b = #[trigger] its@[j];
                &&& a.final_time.epoch_seconds <= b.final_time.epoch_seconds
                &&& a.final_time == b.final_time
                    ==> context.step_log@[a.last_step as int].round
                    <= context.step_log@[b.last_step as int].round
            },
{
    proof {
        lemma_picks(Direction::Forward, context, target_costs@);
    }
    pick(Direction::Forward, context, target_costs)
}

/// The itineraries to show after a search from a deadline back.
///
/// Of each round, the itinerary that leaves the named place last is picked, if it leaves its
/// first stop after those picked in earlier rounds do. Later departures are shown first, and of
/// equal ones those that take fewer rounds.
pub fn pick_best_itineraries_backward(
    context: &RouterContext,
    start_costs: &[(usize, u32)],
) -> (its: Vec<InternalItinerary>)
    requires
        context.running(Direction::Backward),
        stops_exist(context.timetable.stops@.len(), context.targets@),
        stops_exist(context.timetable.stops@.len(), start_costs@),
    ensures
        shown(Direction::Backward, context.step_log@, its@),
        forall|it: InternalItinerary| #[trigger]
            its@.contains(it) <==> picks(
                Direction::Backward,
                context.state(),
                start_costs@,
            ).contains(it),
        forall|it: InternalItinerary| #[trigger]
            its@.contains(it) <==> exists|r: int, w: int, k: int| #[trigger]
                worth_showing(
                    Direction::Backward,
                    context.state(),
                    start_costs@,
                    it,
                    r,
                    w,
                    k,
                ),
        forall|i: int, j: int|
            0 <= i < j < its@.len() ==> {
                let a = #[trigger] its@[i];
                let b = #[trigger] its@[j];
                &&& a.final_time.epoch_seconds >= b.final_time.epoch_seconds
                &&& a.final_time == b.final_time
                    ==> context.step_log@[a.last_step as int].round
                    <= context.step_log@[b.last_step as int].round
            },
{
    proof {
        lemma_picks(Direction::Backward, context, start_costs@);
    }
    pick(Direction::Backward, context, start_costs)
}

} // verus!
