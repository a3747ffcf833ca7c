//! The transfers of a timetable: which stops one can walk between, and how they are stored.

use crate::counting::rising;
use crate::timetable::distance::Distance;
use crate::timetable::{MmapTimetable, Transfer};
use vstd::prelude::*;

verus! {

/// The bit pattern of the double 1000: how many metres apart two stops may be.
pub const TRANSFER_RADIUS_BITS: u64 = 0x408f_4000_0000_0000;

/// How far apart two stops may be to walk between them: 1000 metres.
pub open spec fn transfer_radius() -> Distance {
    Distance { rank: Some(0x408f_4000_0000_0000i64) }
}

/// The stops to walk to from `stop`, of those from number `k` on that were found, the nearest
/// first: all up to the first that lies beyond `radius`, but for `stop` itself.
pub open spec fn candidates(
    found: Seq<(usize, Distance)>,
    stop: usize,
    radius: Distance,
    k: int,
) -> Seq<usize>
    decreases found.len() - k,
{
    if k >= found.len() || radius.below(found[k].1) {
        Seq::empty()
    } else if found[k].0 == stop {
        candidates(found, stop, radius, k + 1)
    } else {
        seq![found[k].0] + candidates(found, stop, radius, k + 1)
    }
}

/// The entry that was found as number `k`, and every one before it, lies no farther than 1000
/// metres away; one whose distance is no number counts as near.
pub open spec fn within_reach(found: Seq<(usize, Distance)>, k: int) -> bool {
    forall|i: int|
        0 <= i <= k ==> ((#[trigger] found[i]).1.rank matches Some(rank) ==> rank
            <= 0x408f_4000_0000_0000)
}

/// `stops` are the other stops within reach of `stop`, all of them, in the order in which they
/// were found; `from` says where each was found.
pub open spec fn reachable_stops(
    found: Seq<(usize, Distance)>,
    stop: usize,
    stops: Seq<usize>,
    from: Seq<int>,
) -> bool {
    &&& from.len() == stops.len()
    &&& rising(from)
    &&& forall|j: int|
        0 <= j < from.len() ==> {
            &&& 0 <= #[trigger] from[j] < found.len()
            &&& found[from[j]].0 == stops[j]
            &&& stops[j] != stop
            &&& within_reach(found, from[j])
        }
    &&& forall|k: int|
        0 <= k < found.len() && found[k].0 != stop && within_reach(found, k)
            ==> #[trigger] from.contains(k)
}

/// The candidates to walk to are the other stops within reach, all of them, in the order in which
/// they were found.
pub proof fn lemma_candidates_reachable(found: Seq<(usize, Distance)>, stop: usize) -> (from: Seq<
    int,
>)
    ensures
        reachable_stops(found, stop, candidates(found, stop, transfer_radius(), 0), from),
{
    lemma_candidates_from(found, stop, 0)
}

proof fn lemma_candidates_from(found: Seq<(usize, Distance)>, stop: usize, k: int) -> (from: Seq<
    int,
>)
    requires
        0 <= k <= found.len(),
        within_reach(found, k - 1),
    ensures
        from.len() == candidates(found, stop, transfer_radius(), k).len(),
        rising(from),
        forall|j: int|
            0 <= j < from.len() ==> {
                &&& k <= #[trigger] from[j] < found.len()
                &&& found[from[j]].0 == candidates(found, stop, transfer_radius(), k)[j]
                &&& found[from[j]].0 != stop
                &&& within_reach(found, from[j])
            },
        forall|l: int|
            k <= l < found.len() && found[l].0 != stop && within_reach(found, l)
                ==> #[trigger] from.contains(l),
    decreases found.len() - k,
{
    if k >= found.len() {
        Seq::empty()
    } else if transfer_radius().below(found[k].1) {
        assert forall|l: int| k <= l < found.len() implies !within_reach(found, l) by {
            assert(found[k].1.rank is Some);
        }
        Seq::empty()
    } else {
        assert(within_reach(found, k));
        let rest = lemma_candidates_from(found, stop, k + 1);
        if found[k].0 == stop {
            rest
        } else {
            let from = seq![k] + rest;
            let all = candidates(found, stop, transfer_radius(), k);
            assert forall|j: int| 0 <= j < from.len() implies {
                &&& k <= #[trigger] from[j] < found.len()
                &&& found[from[j]].0 == all[j]
                &&& found[from[j]].0 != stop
                &&& within_reach(found, from[j])
            } by {
                if j > 0 {
                    assert(from[j] == rest[j - 1]);
                }
            }
            assert forall|i: int, j: int| 0 <= i < j < from.len() implies #[trigger] from[i]
                < #[trigger] from[j] by {
                assert(from[j] == rest[j - 1]);
                if i > 0 {
                    assert(from[i] == rest[i - 1]);
                }
            }
            assert forall|l: int|
                k <= l < found.len() && found[l].0 != stop && within_reach(
                    found,
                    l,
                ) implies #[trigger] from.contains(l) by {
                if l == k {
                    assert(from[0] == k);
                } else {
                    assert(rest.contains(l));
                    let j = rest.index_of(l);
                    assert(from[j + 1] == l);
                }
            }
            from
        }
    }
}

/// The stops to walk to from a stop, given those that were found around it, the nearest first.
pub fn generate_transfer_candidates(found: &[(usize, Distance)], stop: usize) -> (stops: Vec<usize>)
    ensures
        stops@ == candidates(found@, stop, transfer_radius(), 0),
        !stops@.contains(stop),
        exists|from: Seq<int>| #[trigger] reachable_stops(found@, stop, stops@, from),
{
    let radius: Distance = Distance::from_bits(TRANSFER_RADIUS_BITS);
    assert(radius == transfer_radius());
    let mut stops: Vec<usize> = Vec::new();
    let mut k: usize = 0;
    while k < found.len()
        invariant
            k <= found@.len(),
            radius == transfer_radius(),
            candidates(found@, stop, radius, 0) == stops@ + candidates(
                found@,
                stop,
                radius,
                k as int,
            ),
            forall|i: int| 0 <= i < stops@.len() ==> #[trigger] stops@[i] != stop,
        decreases found@.len() - k,
    {
        let (to, distance): (usize, Distance) = found[k];
        if radius.is_below(&distance) {
            assert(stops@ + Seq::<usize>::empty() =~= stops@);
            proof {
                let from = lemma_candidates_reachable(found@, stop);
                assert(reachable_stops(
                    found@,
                    stop,
                    candidates(found@, stop, transfer_radius(), 0),
                    from,
                ));
            }
            return stops;
        }
        if to != stop {
            proof {
                let rest = candidates(found@, stop, radius, k + 1);
                assert(stops@ + (seq![to] + rest) =~= stops@.push(to) + rest);
            }
            stops.push(to);
        }
        k = k + 1;
    }
    assert(stops@ + Seq::<usize>::empty() =~= stops@);
    proof {
        let from = lemma_candidates_reachable(found@, stop);
        assert(reachable_stops(
            found@,
            stop,
            candidates(found@, stop, transfer_radius(), 0),
            from,
        ));
    }
    stops
}

/// The transfers from `stop` to the first `k` candidates, of each of which it is known how many
/// millimetres away on foot it is, or that no way leads there.
pub open spec fn transfers_to(
    stop: usize,
    measured: Seq<(usize, Option<u64>)>,
    speed: u64,
    k: int,
) -> Seq<Transfer>
    decreases k,
{
    if k <= 0 {
        Seq::empty()
    } else {
        let before = transfers_to(stop, measured, speed, k - 1);
        match measured[k - 1].1 {
            Some(mm) => before.push(
                Transfer { to: measured[k - 1].0, from: stop, time: mm / speed },
            ),
            None => before,
        }
    }
}

/// `transfers` are the walks from `stop` to those measured stops that a way leads to, all of them,
/// in their order, each with the whole seconds that it takes at `speed`; `from` says where each was
/// measured.
pub open spec fn timed_walks(
    stop: usize,
    measured: Seq<(usize, Option<u64>)>,
    speed: u64,
    transfers: Seq<Transfer>,
    from: Seq<int>,
) -> bool {
    &&& from.len() == transfers.len()
    &&& rising(from)
    &&& forall|j: int|
        0 <= j < from.len() ==> {
            &&& 0 <= #[trigger] from[j] < measured.len()
            &&& transfers[j].from == stop
            &&& transfers[j].to == measured[from[j]].0
            &&& measured[from[j]].1 matches Some(mm)
            &&& transfers[j].time * speed <= mm < (transfers[j].time + 1) * speed
        }
    &&& forall|k: int|
        0 <= k < measured.len() && measured[k].1 is Some ==> #[trigger] from.contains(k)
}

/// The transfers to measured stops are the walks to all of them that a way leads to, and take as
/// many whole seconds as the way does at that speed.
pub proof fn lemma_transfers_timed(
    stop: usize,
    measured: Seq<(usize, Option<u64>)>,
    speed: u64,
    k: int,
) -> (from: Seq<int>)
    requires
        speed > 0,
        0 <= k <= measured.len(),
    ensures
        timed_walks(
            stop,
            measured.take(k),
            speed,
            transfers_to(stop, measured, speed, k),
            from,
        ),
    decreases k,
{
    if k <= 0 {
        assert(measured.take(k).len() == 0);
        Seq::empty()
    } else {
        let before = lemma_transfers_timed(stop, measured, speed, k - 1);
        let had = transfers_to(stop, measured, speed, k - 1);
        let all = transfers_to(stop, measured, speed, k);
        let part = measured.take(k - 1);
        let whole = measured.take(k);
        assert forall|j: int| 0 <= j < before.len() implies {
            &&& 0 <= #[trigger] before[j] < k - 1
            &&& whole[before[j]] == part[before[j]]
        } by {}
        match measured[k - 1].1 {
            None => {
                assert forall|l: int| 0 <= l < whole.len() && whole[l].1 is Some implies
                    #[trigger] before.contains(l) by {
                    assert(part[l] == whole[l]);
                }
                before
            },
            Some(mm) => {
                let from = before.push(k - 1);
                let time = (mm / speed) as int;
                assert(time * speed <= mm < (time + 1) * speed) by (nonlinear_arith)
                    requires
                        speed > 0,
                        time == mm / speed,
                ;
                assert forall|j: int| 0 <= j < from.len() implies {
                    &&& 0 <= #[trigger] from[j] < whole.len()
                    &&& all[j].from == stop
                    &&& all[j].to == whole[from[j]].0
                    &&& whole[from[j]].1 matches Some(mm)
                    &&& all[j].time * speed <= mm < (all[j].time + 1) * speed
                } by {
                    if j < before.len() {
                        assert(from[j] == before[j]);
                        assert(all[j] == had[j]);
                    }
                }
                assert forall|i: int, j: int| 0 <= i < j < from.len() implies #[trigger] from[i]
                    < #[trigger] from[j] by {
                    assert(from[i] == before[i]);
                    if j < before.len() {
                        assert(from[j] == before[j]);
                    }
                }
                assert forall|l: int| 0 <= l < whole.len() && whole[l].1 is Some implies
                    #[trigger] from.contains(l) by {
                    if l < k - 1 {
                        assert(part[l] == whole[l]);
                        assert(before.contains(l));
                        let j = before.index_of(l);
                        assert(from[j] == l);
                    } else {
                        assert(from[before.len() as int] == l);
                    }
                }
                from
            },
        }
    }
}

/// The transfers from a stop to those of its candidates that a way leads to, at a speed in
/// millimetres per second.
pub fn calculate_transfer_matrix(
    stop: usize,
    measured: &[(usize, Option<u64>)],
    speed: u64,
) -> (transfers: Vec<Transfer>)
    requires
        speed > 0,
    ensures
        transfers@ == transfers_to(stop, measured@, speed, measured@.len() as int),
        forall|j: int|
            0 <= j < transfers@.len() ==> (#[trigger] transfers@[j]).from == stop && exists|k: int|
                0 <= k < measured@.len() && (#[trigger] measured@[k]).0 == transfers@[j].to,
        exists|from: Seq<int>| #[trigger]
            timed_walks(stop, measured@, speed, transfers@, from),
{
    proof {
        let n = measured@.len() as int;
        let from = lemma_transfers_timed(stop, measured@, speed, n);
        assert(measured@.take(n) =~= measured@);
        assert(timed_walks(
            stop,
            measured@,
            speed,
            transfers_to(stop, measured@, speed, n),
            from,
        ));
    }
    let mut transfers: Vec<Transfer> = Vec::new();
    let mut k: usize = 0;
    while k < measured.len()
        invariant
            speed > 0,
            k <= measured@.len(),
            transfers@ == transfers_to(stop, measured@, speed, k as int),
            forall|j: int|
                0 <= j < transfers@.len() ==> (#[trigger] transfers@[j]).from == stop && exists|
                    k: int,
                |
                    0 <= k < measured@.len() && (#[trigger] measured@[k]).0 == transfers@[j].to,
        decreases measured@.len() - k,
    {
        let (to, distance): (usize, Option<u64>) = measured[k];
        if let Some(mm) = distance {
            transfers.push(Transfer { to, from: stop, time: mm / speed });
        }
        k = k + 1;
    }
    transfers
}

/// Where the transfers of stop `s` begin: behind those of the stops before it.
pub open spec fn offset(all: Seq<Vec<Transfer>>, s: int) -> int
    decreases s,
{
    if s <= 0 {
        0
    } else {
        offset(all, s - 1) + all[s - 1]@.len()
    }
}

/// The transfers of the first `s` stops, one stop after the other.
pub open spec fn flattened(all: Seq<Vec<Transfer>>, s: int) -> Seq<Transfer>
    decreases s,
{
    if s <= 0 {
        Seq::empty()
    } else {
        flattened(all, s - 1) + all[s - 1]@
    }
}

/// The transfers of every stop leave from it and lead to stops.
pub open spec fn leave_their_stop(all: Seq<Vec<Transfer>>, n: nat) -> bool {
    forall|s: int, j: int|
        0 <= s < all.len() && 0 <= j < all[s]@.len() ==> {
            let t = #[trigger] all[s]@[j];
            t.from == s && t.to < n
        }
}

proof fn lemma_offsets(all: Seq<Vec<Transfer>>, a: int, b: int)
    requires
        0 <= a <= b <= all.len(),
    ensures
        0 <= offset(all, a) <= offset(all, b),
        flattened(all, b).len() == offset(all, b),
        a < b ==> offset(all, a) + all[a]@.len() <= offset(all, b),
        a < b ==> flattened(all, b).subrange(offset(all, a), offset(all, a) + all[a]@.len())
            == all[a]@,
    decreases b,
{
    if b > 0 {
        lemma_offsets(all, 0, b - 1);
        if a < b {
            lemma_offsets(all, a, b - 1);
            let whole = flattened(all, b);
            let run = whole.subrange(offset(all, a), offset(all, a) + all[a]@.len());
            if a < b - 1 {
                let before = flattened(all, b - 1);
                assert(run =~= before.subrange(offset(all, a), offset(all, a) + all[a]@.len()));
            } else {
                assert(run =~= all[a]@);
            }
        }
    }
}

impl MmapTimetable {
    /// Stores the transfers of every stop, in place of those that were stored.
    ///
    /// The transfers that are read for a stop are then the ones that were given for it.
    pub fn write_transfers(&mut self, all: &Vec<Vec<Transfer>>)
        requires
            all@.len() == old(self).stops@.len(),
            offset(all@, all@.len() as int) <= usize::MAX,
        ensures
            final(self).transfer_index@.len() == all@.len(),
            forall|s: int|
                0 <= s < all@.len() ==> #[trigger] final(self).transfer_index@[s] == offset(
                    all@,
                    s,
                ),
            final(self).transfers@ == flattened(all@, all@.len() as int),
            forall|s: int|
                0 <= s < all@.len() ==> #[trigger] final(self).transfers_at(s) == all@[s]@,
            leave_their_stop(all@, old(self).stops@.len()) ==> final(self).transfers_wf(),
            final(self).routes == old(self).routes,
            final(self).route_stops == old(self).route_stops,
            final(self).route_trips == old(self).route_trips,
            final(self).stops == old(self).stops,
            final(self).stop_routes == old(self).stop_routes,
            final(self).trip_stop_times == old(self).trip_stop_times,
    {
        let mut offsets: Vec<usize> = Vec::new();
        let mut transfers: Vec<Transfer> = Vec::new();
        let mut s: usize = 0;
        while s < all.len()
            invariant
                s <= all@.len(),
                offset(all@, all@.len() as int) <= usize::MAX,
                offsets@.len() == s,
                forall|k: int| 0 <= k < s ==> #[trigger] offsets@[k] == offset(all@, k),
                transfers@ == flattened(all@, s as int),
            decreases all@.len() - s,
        {
            proof {
                lemma_offsets(all@, s as int, all@.len() as int);
                lemma_offsets(all@, s as int, s as int);
            }
            offsets.push(transfers.len());
            let row: &Vec<Transfer> = &all[s];
            let ghost before = transfers@;
            let mut j: usize = 0;
            while j < row.len()
                invariant
                    j <= row@.len(),
                    transfers@ == before + row@.take(j as int),
                decreases row@.len() - j,
            {
                transfers.push(row[j]);
                assert(row@.take(j + 1) =~= row@.take(j as int).push(row@[j as int]));
                j = j + 1;
            }
            assert(row@.take(row@.len() as int) =~= row@);
            s = s + 1;
        }
        self.transfer_index = offsets;
        self.transfers = transfers;
        proof {
            let n = all@.len() as int;
            lemma_offsets(all@, n, n);
            assert forall|s: int| 0 <= s < n implies #[trigger] self.transfers_at(s)
                == all@[s]@ by {
                lemma_offsets(all@, s, n);
                lemma_offsets(all@, s + 1, n);
                assert(self.transfer_index@[s] == offset(all@, s));
                if s + 1 < n {
                    assert(self.transfer_index@[s + 1] == offset(all@, s + 1));
                }
                assert(self.transfers_end(s) == offset(all@, s) + all@[s]@.len());
            }
            if leave_their_stop(all@, self.stops@.len()) {
                assert forall|s: int| 0 <= s < n implies #[trigger] self.transfer_run_ok(s) by {
                    lemma_offsets(all@, s, n);
                    lemma_offsets(all@, s + 1, n);
                    assert(self.transfer_index@[s] == offset(all@, s));
                    if s + 1 < n {
                        assert(self.transfer_index@[s + 1] == offset(all@, s + 1));
                    }
                }
                assert forall|s: int, j: int| 0 <= s < n && 0 <= j < self.n_transfers(
                    s,
                ) implies #[trigger] self.transfer_ok(s, j) by {
                    assert(self.transfers_at(s) == all@[s]@);
                    assert(self.transfer_run_ok(s));
                    assert(self.transfers_at(s)[j] == self.transfer_at(s, j));
                    assert(all@[s]@[j].from == s);
                }
            }
        }
    }
}

} // verus!
