//! How far the compact graph could be reduced: the degrees of its nodes, and what follows from
//! them.

use crate::counting::{lemma_none, lemma_one_more, positions};
use crate::transfers::patterns::{frequency, most_frequent, top_keys};
use crate::transfers::records::CompactGraphEdgeRecord;
use crate::transfers::staging::PreparedTransferGraph;
use std::collections::HashSet;
use vstd::prelude::*;

verus! {

/// `n`, as far as 32 bits hold it.
pub open spec fn saturated(n: nat) -> u32 {
    if n <= u32::MAX {
        n as u32
    } else {
        u32::MAX
    }
}

/// How many of the first `k` ways leave node `n`.
pub open spec fn leaving(edges: Seq<CompactGraphEdgeRecord>, n: int, k: int) -> nat
    decreases k,
{
    if k <= 0 {
        0
    } else {
        leaving(edges, n, k - 1) + if edges[k - 1].from == n {
            1nat
        } else {
            0nat
        }
    }
}

/// How many of the first `k` ways lead to node `n`.
pub open spec fn arriving(edges: Seq<CompactGraphEdgeRecord>, n: int, k: int) -> nat
    decreases k,
{
    if k <= 0 {
        0
    } else {
        arriving(edges, n, k - 1) + if edges[k - 1].to == n {
            1nat
        } else {
            0nat
        }
    }
}

/// How many ways of the first `s` shards leave node `n`.
pub open spec fn leaving_in(shards: Seq<Vec<CompactGraphEdgeRecord>>, n: int, s: int) -> nat
    decreases s,
{
    if s <= 0 {
        0
    } else {
        leaving_in(shards, n, s - 1) + leaving(shards[s - 1]@, n, shards[s - 1]@.len() as int)
    }
}

/// How many ways of the first `s` shards lead to node `n`.
pub open spec fn arriving_in(shards: Seq<Vec<CompactGraphEdgeRecord>>, n: int, s: int) -> nat
    decreases s,
{
    if s <= 0 {
        0
    } else {
        arriving_in(shards, n, s - 1) + arriving(shards[s - 1]@, n, shards[s - 1]@.len() as int)
    }
}

/// Whether one of the first `k` ways leads from node `n` to itself.
pub open spec fn loops(edges: Seq<CompactGraphEdgeRecord>, n: int, k: int) -> bool {
    exists|i: int| 0 <= i < k && (#[trigger] edges[i]).from == n && edges[i].to == n
}

/// Whether a way of the first `s` shards leads from node `n` to itself.
pub open spec fn loops_in(shards: Seq<Vec<CompactGraphEdgeRecord>>, n: int, s: int) -> bool {
    exists|i: int| 0 <= i < s && #[trigger] loops(shards[i]@, n, shards[i]@.len() as int)
}

/// How many ways the first `s` shards have.
pub open spec fn ways_in(shards: Seq<Vec<CompactGraphEdgeRecord>>, s: int) -> nat
    decreases s,
{
    if s <= 0 {
        0
    } else {
        ways_in(shards, s - 1) + shards[s - 1]@.len()
    }
}

/// The end of a way that ways are grouped by, and the other one.
pub open spec fn ends(edge: CompactGraphEdgeRecord, by_from: bool) -> (u32, u32) {
    if by_from {
        (edge.from, edge.to)
    } else {
        (edge.to, edge.from)
    }
}

/// Ways in a row that share an end are taken together: the end, the other ends that were seen,
/// and how many different ones each node had so far.
#[verifier::ext_equal]
pub struct Run {
    pub current: Option<u32>,
    pub seen: Set<u32>,
    pub totals: Seq<u32>,
}

/// The totals once the run has ended.
pub open spec fn flushed(run: Run) -> Seq<u32> {
    match run.current {
        None => run.totals,
        Some(node) => run.totals.update(
            node as int,
            saturated(run.totals[node as int] as nat + saturated(run.seen.len()) as nat),
        ),
    }
}

/// The run after another way.
pub open spec fn continued(run: Run, ends: (u32, u32)) -> Run {
    if run.current == Some(ends.0) {
        Run { seen: run.seen.insert(ends.1), ..run }
    } else {
        Run {
            current: Some(ends.0),
            seen: Set::<u32>::empty().insert(ends.1),
            totals: flushed(run),
        }
    }
}

/// The run after the first `k` ways of a shard.
pub open spec fn run_along(
    edges: Seq<CompactGraphEdgeRecord>,
    by_from: bool,
    totals: Seq<u32>,
    k: int,
) -> Run
    decreases k,
{
    if k <= 0 {
        Run { current: None, seen: Set::empty(), totals }
    } else {
        continued(run_along(edges, by_from, totals, k - 1), ends(edges[k - 1], by_from))
    }
}

/// The totals after the first `s` shards.
pub open spec fn totals_after(
    shards: Seq<Vec<CompactGraphEdgeRecord>>,
    by_from: bool,
    totals: Seq<u32>,
    s: int,
) -> Seq<u32>
    decreases s,
{
    if s <= 0 {
        totals
    } else {
        let edges = shards[s - 1]@;
        flushed(
            run_along(
                edges,
                by_from,
                totals_after(shards, by_from, totals, s - 1),
                edges.len() as int,
            ),
        )
    }
}

/// How many different neighbours each node has, counted run by run: those that ways lead to, and
/// then those that ways come from.
pub open spec fn neighbours_in(shards: Seq<Vec<CompactGraphEdgeRecord>>, nodes: nat) -> Seq<u32> {
    let none = Seq::new(nodes, |i: int| 0u32);
    let s = shards.len() as int;
    totals_after(shards, false, totals_after(shards, true, none, s), s)
}

/// Every way joins two of the first `nodes` nodes.
pub open spec fn ways_fit(shards: Seq<Vec<CompactGraphEdgeRecord>>, nodes: nat) -> bool {
    forall|s: int, i: int|
        0 <= s < shards.len() && 0 <= i < shards[s]@.len() ==> {
            let edge = #[trigger] shards[s]@[i];
            edge.from < nodes && edge.to < nodes
        }
}

/// What is known of a node: how many ways lead to it and leave it, how many neighbours were
/// counted, and whether a way leads from it to itself.
#[derive(Clone, Copy, PartialEq, Eq, Structural, Debug)]
pub struct NodeDegrees {
    pub in_degree: u32,
    pub out_degree: u32,
    pub neighbors: u32,
    pub self_loop: bool,
}

/// What the ways of all shards say of node `n`.
pub open spec fn degrees_of(
    shards: Seq<Vec<CompactGraphEdgeRecord>>,
    nodes: nat,
    n: int,
) -> NodeDegrees {
    let s = shards.len() as int;
    NodeDegrees {
        in_degree: saturated(arriving_in(shards, n, s)),
        out_degree: saturated(leaving_in(shards, n, s)),
        neighbors: neighbours_in(shards, nodes)[n],
        self_loop: loops_in(shards, n, s),
    }
}

fn add_saturating(a: u32, b: usize) -> (c: u32)
    ensures
        c == saturated(a as nat + saturated(b as nat) as nat),
{
    let b: u32 = if b <= u32::MAX as usize {
        b as u32
    } else {
        u32::MAX
    };
    if b <= u32::MAX - a {
        a + b
    } else {
        u32::MAX
    }
}

/// Adds up how many different ends each node's ways have, run by run.
fn add_neighbours(shards: &Vec<Vec<CompactGraphEdgeRecord>>, by_from: bool, totals: &mut Vec<u32>)
    requires
        ways_fit(shards@, old(totals)@.len()),
    ensures
        final(totals)@ == totals_after(shards@, by_from, old(totals)@, shards@.len() as int),
        final(totals)@.len() == old(totals)@.len(),
{
    broadcast use vstd::std_specs::hash::group_hash_axioms;

    let ghost before = totals@;
    let ghost nodes = totals@.len();
    let mut s: usize = 0;
    while s < shards.len()
        invariant
            s <= shards@.len(),
            ways_fit(shards@, nodes),
            totals@.len() == nodes,
            totals@ == totals_after(shards@, by_from, before, s as int),
        decreases shards@.len() - s,
    {
        let edges: &Vec<CompactGraphEdgeRecord> = &shards[s];
        let ghost start = totals@;
        let mut current: Option<u32> = None;
        let mut seen: HashSet<u32> = HashSet::new();
        let mut i: usize = 0;
        assert(Run { current, seen: seen@, totals: totals@ } =~= run_along(
            edges@,
            by_from,
            start,
            0,
        ));
        while i < edges.len()
            invariant
                s < shards@.len(),
                *edges == shards@[s as int],
                i <= edges@.len(),
                ways_fit(shards@, nodes),
                totals@.len() == nodes,
                current matches Some(node) ==> node < nodes,
                (Run { current, seen: seen@, totals: totals@ }) == run_along(
                    edges@,
                    by_from,
                    start,
                    i as int,
                ),
            decreases edges@.len() - i,
        {
            let edge: CompactGraphEdgeRecord = edges[i];
            assert(shards@[s as int]@[i as int] == edge);
            let (here, there): (u32, u32) = if by_from {
                (edge.from, edge.to)
            } else {
                (edge.to, edge.from)
            };
            let ghost run = Run { current, seen: seen@, totals: totals@ };
            let same: bool = match current {
                Some(node) => node == here,
                None => false,
            };
            if !same {
                if let Some(node) = current {
                    let sum: u32 = add_saturating(totals[node as usize], seen.len());
                    totals[node as usize] = sum;
                }
                assert(totals@ =~= flushed(run));
                current = Some(here);
                seen.clear();
            }
            seen.insert(there);
            assert(Run { current, seen: seen@, totals: totals@ } =~= continued(
                run,
                ends(edge, by_from),
            ));
            i = i + 1;
        }
        let ghost run = Run { current, seen: seen@, totals: totals@ };
        if let Some(node) = current {
            let sum: u32 = add_saturating(totals[node as usize], seen.len());
            totals[node as usize] = sum;
        }
        assert(totals@ =~= flushed(run));
        s = s + 1;
    }
}

/// Counts the ways of all shards, and what they say of each node.
fn count_degrees(shards: &Vec<Vec<CompactGraphEdgeRecord>>, nodes: usize) -> (counted: (
    Vec<NodeDegrees>,
    u64,
))
    requires
        ways_fit(shards@, nodes as nat),
        ways_in(shards@, shards@.len() as int) <= u64::MAX,
    ensures
        counted.0@.len() == nodes,
        forall|n: int|
            0 <= n < nodes ==> #[trigger] counted.0@[n] == degrees_of(shards@, nodes as nat, n),
        counted.1 == ways_in(shards@, shards@.len() as int),
{
    let mut in_degree: Vec<u32> = vec![0u32; nodes];
    let mut out_degree: Vec<u32> = vec![0u32; nodes];
    let mut self_loop: Vec<bool> = vec![false; nodes];
    let mut edge_count: u64 = 0;
    let ghost total = shards@.len() as int;
    let mut s: usize = 0;
    while s < shards.len()
        invariant
            s <= shards@.len() == total,
            ways_fit(shards@, nodes as nat),
            ways_in(shards@, total) <= u64::MAX,
            in_degree@.len() == out_degree@.len() == self_loop@.len() == nodes,
            edge_count == ways_in(shards@, s as int),
            forall|n: int|
                0 <= n < nodes ==> #[trigger] in_degree@[n] == saturated(
                    arriving_in(shards@, n, s as int),
                ),
            forall|n: int|
                0 <= n < nodes ==> #[trigger] out_degree@[n] == saturated(
                    leaving_in(shards@, n, s as int),
                ),
            forall|n: int|
                0 <= n < nodes ==> #[trigger] self_loop@[n] == loops_in(shards@, n, s as int),
        decreases shards@.len() - s,
    {
        let edges: &Vec<CompactGraphEdgeRecord> = &shards[s];
        proof {
            lemma_ways_in(shards@, s + 1, total);
        }
        let mut i: usize = 0;
        while i < edges.len()
            invariant
                s < shards@.len() == total,
                *edges == shards@[s as int],
                i <= edges@.len(),
                ways_fit(shards@, nodes as nat),
                in_degree@.len() == out_degree@.len() == self_loop@.len() == nodes,
                edge_count == ways_in(shards@, s as int) + i,
                ways_in(shards@, s as int) + edges@.len() <= u64::MAX,
                forall|n: int|
                    0 <= n < nodes ==> #[trigger] in_degree@[n] == saturated(
                        arriving_in(shards@, n, s as int) + arriving(edges@, n, i as int),
                    ),
                forall|n: int|
                    0 <= n < nodes ==> #[trigger] out_degree@[n] == saturated(
                        leaving_in(shards@, n, s as int) + leaving(edges@, n, i as int),
                    ),
                forall|n: int|
                    0 <= n < nodes ==> #[trigger] self_loop@[n] == (loops_in(shards@, n, s as int)
                        || loops(edges@, n, i as int)),
            decreases edges@.len() - i,
        {
            let edge: CompactGraphEdgeRecord = edges[i];
            assert(shards@[s as int]@[i as int] == edge);
            let from: usize = edge.from as usize;
            let to: usize = edge.to as usize;
            let ghost loops_before = self_loop@;
            let more_out: u32 = add_saturating(out_degree[from], 1);
            out_degree[from] = more_out;
            let more_in: u32 = add_saturating(in_degree[to], 1);
            in_degree[to] = more_in;
            if from == to {
                self_loop[from] = true;
            }
            edge_count = edge_count + 1;
            assert forall|n: int| 0 <= n < nodes implies #[trigger] self_loop@[n] == (loops_in(
                shards@,
                n,
                s as int,
            ) || loops(edges@, n, i + 1)) by {
                assert(loops_before[n] == (loops_in(shards@, n, s as int) || loops(
                    edges@,
                    n,
                    i as int,
                )));
                if from == to && from == n {
                    assert(edges@[i as int].from == n && edges@[i as int].to == n);
                }
                if loops(edges@, n, i + 1) && !loops(edges@, n, i as int) {
                    let j = choose|j: int|
                        0 <= j < i + 1 && (#[trigger] edges@[j]).from == n && edges@[j].to == n;
                    assert(j == i);
                }
                if loops(edges@, n, i as int) {
                    let j = choose|j: int|
                        0 <= j < i && (#[trigger] edges@[j]).from == n && edges@[j].to == n;
                    assert(edges@[j].from == n);
                }
            }
            i = i + 1;
        }
        assert forall|n: int| 0 <= n < nodes implies #[trigger] self_loop@[n] == loops_in(
            shards@,
            n,
            s + 1,
        ) by {
            let here = loops(shards@[s as int]@, n, shards@[s as int]@.len() as int);
            assert(self_loop@[n] == (loops_in(shards@, n, s as int) || here));
            if loops_in(shards@, n, s as int) {
                let j = choose|j: int|
                    0 <= j < s && #[trigger] loops(shards@[j]@, n, shards@[j]@.len() as int);
                assert(loops(shards@[j]@, n, shards@[j]@.len() as int));
            }
        }
        s = s + 1;
    }
    let mut neighbors: Vec<u32> = vec![0u32; nodes];
    assert(neighbors@ =~= Seq::new(nodes as nat, |i: int| 0u32));
    add_neighbours(shards, true, &mut neighbors);
    add_neighbours(shards, false, &mut neighbors);
    let mut degrees: Vec<NodeDegrees> = Vec::new();
    let mut n: usize = 0;
    while n < nodes
        invariant
            n == degrees@.len() <= nodes,
            shards@.len() == total,
            in_degree@.len() == out_degree@.len() == self_loop@.len() == neighbors@.len() == nodes,
            neighbors@ == neighbours_in(shards@, nodes as nat),
            forall|n: int|
                0 <= n < nodes ==> #[trigger] in_degree@[n] == saturated(
                    arriving_in(shards@, n, total),
                ),
            forall|n: int|
                0 <= n < nodes ==> #[trigger] out_degree@[n] == saturated(
                    leaving_in(shards@, n, total),
                ),
            forall|n: int|
                0 <= n < nodes ==> #[trigger] self_loop@[n] == loops_in(shards@, n, total),
            forall|m: int|
                0 <= m < n ==> #[trigger] degrees@[m] == degrees_of(shards@, nodes as nat, m),
        decreases nodes - n,
    {
        degrees.push(
            NodeDegrees {
                in_degree: in_degree[n],
                out_degree: out_degree[n],
                neighbors: neighbors[n],
                self_loop: self_loop[n],
            },
        );
        n = n + 1;
    }
    (degrees, edge_count)
}

proof fn lemma_ways_in(shards: Seq<Vec<CompactGraphEdgeRecord>>, j: int, k: int)
    requires
        0 <= j <= k <= shards.len(),
    ensures
        ways_in(shards, j) <= ways_in(shards, k),
    decreases k,
{
    if j < k {
        lemma_ways_in(shards, j, k - 1);
    }
}

/// How many nodes have a pair of degrees.
#[derive(Clone, Copy, PartialEq, Eq, Structural, Debug)]
pub struct DegreePatternCount {
    pub in_degree: u32,
    pub out_degree: u32,
    pub count: u64,
}

/// How many nodes have a number of neighbours and a pair of degrees.
#[derive(Clone, Copy, PartialEq, Eq, Structural, Debug)]
pub struct NeighborPatternCount {
    pub distinct_neighbors: u32,
    pub in_degree: u32,
    pub out_degree: u32,
    pub count: u64,
}

/// What the degrees of all nodes come to. The shares of nodes that are kept and that can be
/// collapsed follow from their numbers and the count of all.
#[derive(Debug)]
pub struct ReductionStats {
    pub compact_node_count: u32,
    pub edge_count: u64,
    pub nodes_with_any_edge: u64,
    pub zero_degree_nodes: u64,
    pub dead_end_nodes: u64,
    pub simple_chain_nodes: u64,
    pub branch_nodes: u64,
    pub self_loop_nodes: u64,
    pub max_in_degree: u32,
    pub max_out_degree: u32,
    pub max_distinct_neighbors: u32,
    pub estimated_keep_nodes: u64,
    pub estimated_collapsible_nodes: u64,
    pub top_degree_patterns: Vec<DegreePatternCount>,
    pub top_neighbor_patterns: Vec<NeighborPatternCount>,
}

/// What sort of node one is.
#[derive(Clone, Copy, PartialEq, Eq, Structural, Debug)]
pub enum NodeSort {
    /// No way leads to it or leaves it.
    Isolated,
    /// Ways only lead to it or only leave it, or it has fewer than two neighbours.
    DeadEnd,
    /// It lies between two neighbours.
    SimpleChain,
    /// It has more than two neighbours, or a way leads from it to itself.
    Branch,
}

/// What sort of node has these degrees.
pub open spec fn sort_of(d: NodeDegrees) -> NodeSort {
    if d.in_degree == 0 && d.out_degree == 0 {
        NodeSort::Isolated
    } else if d.in_degree == 0 || d.out_degree == 0 {
        NodeSort::DeadEnd
    } else if d.self_loop || d.neighbors > 2 {
        NodeSort::Branch
    } else if d.neighbors == 2 {
        NodeSort::SimpleChain
    } else {
        NodeSort::DeadEnd
    }
}

/// How many of the first `k` nodes are of a sort.
pub open spec fn of_sort(nodes: Seq<NodeDegrees>, sort: NodeSort, k: int) -> nat
    decreases k,
{
    if k <= 0 {
        0
    } else {
        of_sort(nodes, sort, k - 1) + if sort_of(nodes[k - 1]) == sort {
            1nat
        } else {
            0nat
        }
    }
}

/// How many of the first `k` nodes have a way to themselves.
pub open spec fn looping(nodes: Seq<NodeDegrees>, k: int) -> nat
    decreases k,
{
    if k <= 0 {
        0
    } else {
        looping(nodes, k - 1) + if nodes[k - 1].self_loop {
            1nat
        } else {
            0nat
        }
    }
}

/// How many of the first `k` nodes have these degrees.
pub open spec fn degree_count(nodes: Seq<NodeDegrees>, p: NodeDegrees, k: int) -> nat
    decreases k,
{
    if k <= 0 {
        0
    } else {
        degree_count(nodes, p, k - 1) + if nodes[k - 1].in_degree == p.in_degree
            && nodes[k - 1].out_degree == p.out_degree {
            1nat
        } else {
            0nat
        }
    }
}

/// How many of the first `k` nodes have these neighbours and degrees.
pub open spec fn neighbor_count(nodes: Seq<NodeDegrees>, p: NodeDegrees, k: int) -> nat
    decreases k,
{
    if k <= 0 {
        0
    } else {
        neighbor_count(nodes, p, k - 1) + if nodes[k - 1].in_degree == p.in_degree
            && nodes[k - 1].out_degree == p.out_degree && nodes[k - 1].neighbors == p.neighbors {
            1nat
        } else {
            0nat
        }
    }
}

/// `most` is the largest of the values, or 0 where there is none.
pub open spec fn is_max(values: Seq<u32>, most: u32) -> bool {
    &&& forall|i: int| 0 <= i < values.len() ==> #[trigger] values[i] <= most
    &&& values.len() > 0 ==> values.contains(most)
    &&& values.len() == 0 ==> most == 0
}

pub open spec fn in_degrees(nodes: Seq<NodeDegrees>) -> Seq<u32> {
    Seq::new(nodes.len(), |i: int| nodes[i].in_degree)
}

pub open spec fn out_degrees(nodes: Seq<NodeDegrees>) -> Seq<u32> {
    Seq::new(nodes.len(), |i: int| nodes[i].out_degree)
}

pub open spec fn neighbor_numbers(nodes: Seq<NodeDegrees>) -> Seq<u32> {
    Seq::new(nodes.len(), |i: int| nodes[i].neighbors)
}

/// Node `d` has the degrees that `p` counts.
pub open spec fn has_degrees(d: NodeDegrees, p: DegreePatternCount) -> bool {
    d.in_degree == p.in_degree && d.out_degree == p.out_degree
}

/// Node `d` has the neighbours and degrees that `p` counts.
pub open spec fn has_neighbors(d: NodeDegrees, p: NeighborPatternCount) -> bool {
    &&& d.neighbors == p.distinct_neighbors
    &&& d.in_degree == p.in_degree
    &&& d.out_degree == p.out_degree
}

/// Whether a node has what `p` counts.
pub open spec fn degrees_occur(nodes: Seq<NodeDegrees>, p: DegreePatternCount) -> bool {
    exists|i: int| 0 <= i < nodes.len() && has_degrees(#[trigger] nodes[i], p)
}

/// Whether a pattern of degrees is listed for node `d`.
pub open spec fn degrees_listed(listed: Seq<DegreePatternCount>, d: NodeDegrees) -> bool {
    exists|s: int| 0 <= s < listed.len() && has_degrees(d, #[trigger] listed[s])
}

/// Whether a node has what `p` counts.
pub open spec fn neighbors_occur(nodes: Seq<NodeDegrees>, p: NeighborPatternCount) -> bool {
    exists|i: int| 0 <= i < nodes.len() && has_neighbors(#[trigger] nodes[i], p)
}

/// Whether a pattern of neighbours is listed for node `d`.
pub open spec fn neighbors_listed(listed: Seq<NeighborPatternCount>, d: NodeDegrees) -> bool {
    exists|s: int| 0 <= s < listed.len() && has_neighbors(d, #[trigger] listed[s])
}

/// The most frequent pairs of degrees: each counts the nodes that have it, the most frequent
/// stand first, and a pair that is left out is no more frequent than any of the twenty that are
/// listed.
#[verifier::opaque]
pub open spec fn top_degrees(nodes: Seq<NodeDegrees>, listed: Seq<DegreePatternCount>) -> bool {
    let n = nodes.len() as int;
    &&& listed.len() <= 20
    &&& forall|s: int, i: int|
        0 <= s < listed.len() && 0 <= i < n && has_degrees(
            #[trigger] nodes[i],
            #[trigger] listed[s],
        ) ==> listed[s].count == degree_count(nodes, nodes[i], n)
    &&& forall|s: int| 0 <= s < listed.len() ==> degrees_occur(nodes, #[trigger] listed[s])
    &&& forall|s: int, t: int|
        0 <= s < t < listed.len() ==> {
            &&& (#[trigger] listed[s]).count >= (#[trigger] listed[t]).count
            &&& listed[s].in_degree != listed[t].in_degree || listed[s].out_degree
                != listed[t].out_degree
        }
    &&& forall|i: int|
        0 <= i < n && !degrees_listed(listed, #[trigger] nodes[i]) ==> listed.len() == 20 && forall|
            s: int,
        |
            0 <= s < 20 ==> (#[trigger] listed[s]).count >= degree_count(nodes, nodes[i], n)
}

/// The same of neighbours and degrees.
#[verifier::opaque]
pub open spec fn top_neighbors(nodes: Seq<NodeDegrees>, listed: Seq<NeighborPatternCount>) -> bool {
    let n = nodes.len() as int;
    &&& listed.len() <= 20
    &&& forall|s: int, i: int|
        0 <= s < listed.len() && 0 <= i < n && has_neighbors(
            #[trigger] nodes[i],
            #[trigger] listed[s],
        ) ==> listed[s].count == neighbor_count(nodes, nodes[i], n)
    &&& forall|s: int| 0 <= s < listed.len() ==> neighbors_occur(nodes, #[trigger] listed[s])
    &&& forall|s: int, t: int|
        0 <= s < t < listed.len() ==> {
            &&& (#[trigger] listed[s]).count >= (#[trigger] listed[t]).count
            &&& listed[s].in_degree != listed[t].in_degree || listed[s].out_degree
                != listed[t].out_degree || listed[s].distinct_neighbors
                != listed[t].distinct_neighbors
        }
    &&& forall|i: int|
        0 <= i < n && !neighbors_listed(listed, #[trigger] nodes[i]) ==> listed.len() == 20
            && forall|s: int|
            0 <= s < 20 ==> (#[trigger] listed[s]).count >= neighbor_count(nodes, nodes[i], n)
}

/// A pair of degrees as one number.
pub open spec fn degree_key(d: NodeDegrees) -> u128 {
    (d.in_degree * 0x1_0000_0000 + d.out_degree) as u128
}

/// Neighbours and degrees as one number.
pub open spec fn neighbor_key(d: NodeDegrees) -> u128 {
    (d.neighbors * 0x1_0000_0000_0000_0000 + d.in_degree * 0x1_0000_0000 + d.out_degree) as u128
}

pub open spec fn degree_keys(nodes: Seq<NodeDegrees>) -> Seq<u128> {
    Seq::new(nodes.len(), |i: int| degree_key(nodes[i]))
}

pub open spec fn neighbor_keys(nodes: Seq<NodeDegrees>) -> Seq<u128> {
    Seq::new(nodes.len(), |i: int| neighbor_key(nodes[i]))
}

proof fn lemma_degree_frequency(nodes: Seq<NodeDegrees>, p: NodeDegrees, k: int)
    requires
        0 <= k <= nodes.len(),
    ensures
        frequency(degree_keys(nodes), degree_key(p), k) == degree_count(nodes, p, k),
    decreases k,
{
    if k > 0 {
        lemma_degree_frequency(nodes, p, k - 1);
    }
}

proof fn lemma_neighbor_frequency(nodes: Seq<NodeDegrees>, p: NodeDegrees, k: int)
    requires
        0 <= k <= nodes.len(),
    ensures
        frequency(neighbor_keys(nodes), neighbor_key(p), k) == neighbor_count(nodes, p, k),
    decreases k,
{
    if k > 0 {
        lemma_neighbor_frequency(nodes, p, k - 1);
    }
}

/// Lists the most frequent pairs of degrees.
fn list_degrees(nodes: &Vec<NodeDegrees>) -> (listed: Vec<DegreePatternCount>)
    requires
        nodes@.len() <= u64::MAX,
    ensures
        top_degrees(nodes@, listed@),
{
    let ghost n = nodes@.len() as int;
    let mut keys: Vec<u128> = Vec::new();
    let mut i: usize = 0;
    while i < nodes.len()
        invariant
            i == keys@.len() <= nodes@.len(),
            forall|j: int| 0 <= j < i ==> #[trigger] keys@[j] == degree_key(nodes@[j]),
        decreases nodes@.len() - i,
    {
        let key: u128 = nodes[i].in_degree as u128 * 0x1_0000_0000 + nodes[i].out_degree as u128;
        keys.push(key);
        i = i + 1;
    }
    assert(keys@ =~= degree_keys(nodes@));
    let top: Vec<(usize, u64)> = top_keys(&keys);
    let mut listed: Vec<DegreePatternCount> = Vec::new();
    let mut s: usize = 0;
    while s < top.len()
        invariant
            s == listed@.len() <= top@.len(),
            forall|t: int| 0 <= t < top@.len() ==> (#[trigger] top@[t]).0 < nodes@.len(),
            forall|t: int|
                0 <= t < s ==> {
                    &&& has_degrees(nodes@[top@[t].0 as int], #[trigger] listed@[t])
                    &&& listed@[t].count == top@[t].1
                },
        decreases top@.len() - s,
    {
        let (at, count): (usize, u64) = top[s];
        assert(top@[s as int].0 < nodes@.len());
        listed.push(
            DegreePatternCount {
                in_degree: nodes[at].in_degree,
                out_degree: nodes[at].out_degree,
                count,
            },
        );
        s = s + 1;
    }
    proof {
        reveal(top_degrees);
        let ks = degree_keys(nodes@);
        assert(most_frequent(ks, top@));
        assert forall|s: int, i: int|
            0 <= s < listed@.len() && 0 <= i < n && has_degrees(
                #[trigger] nodes@[i],
                #[trigger] listed@[s],
            ) implies listed@[s].count == degree_count(nodes@, nodes@[i], n) by {
            lemma_degree_frequency(nodes@, nodes@[i], n);
            assert(ks[top@[s].0 as int] == degree_key(nodes@[i]));
        }
        assert forall|s: int| 0 <= s < listed@.len() implies degrees_occur(
            nodes@,
            #[trigger] listed@[s],
        ) by {
            assert(has_degrees(nodes@[top@[s].0 as int], listed@[s]));
        }
        assert forall|s: int, t: int| 0 <= s < t < listed@.len() implies {
            &&& (#[trigger] listed@[s]).count >= (#[trigger] listed@[t]).count
            &&& listed@[s].in_degree != listed@[t].in_degree || listed@[s].out_degree
                != listed@[t].out_degree
        } by {
            assert(top@[s].1 >= top@[t].1);
            assert(ks[top@[s].0 as int] != ks[top@[t].0 as int]);
        }
        assert forall|i: int|
            0 <= i < n && !degrees_listed(listed@, #[trigger] nodes@[i]) implies listed@.len() == 20
            && forall|s: int|
            0 <= s < 20 ==> (#[trigger] listed@[s]).count >= degree_count(
                nodes@,
                nodes@[i],
                n,
            ) by {
            lemma_degree_frequency(nodes@, nodes@[i], n);
            if crate::transfers::patterns::lists(ks, top@, i) {
                let s = choose|s: int|
                    0 <= s < top@.len() && ks[(#[trigger] top@[s]).0 as int] == ks[i];
                assert(has_degrees(nodes@[i], listed@[s]));
            }
            assert(ks[i] == degree_key(nodes@[i]));
            assert forall|s: int| 0 <= s < 20 implies (#[trigger] listed@[s]).count
                >= degree_count(nodes@, nodes@[i], n) by {
                assert(top@[s].1 >= frequency(ks, ks[i], n));
            }
        }
    }
    listed
}

/// Lists the most frequent neighbours and degrees.
fn list_neighbors(nodes: &Vec<NodeDegrees>) -> (listed: Vec<NeighborPatternCount>)
    requires
        nodes@.len() <= u64::MAX,
    ensures
        top_neighbors(nodes@, listed@),
{
    let ghost n = nodes@.len() as int;
    let mut keys: Vec<u128> = Vec::new();
    let mut i: usize = 0;
    while i < nodes.len()
        invariant
            i == keys@.len() <= nodes@.len(),
            forall|j: int| 0 <= j < i ==> #[trigger] keys@[j] == neighbor_key(nodes@[j]),
        decreases nodes@.len() - i,
    {
        let key: u128 = nodes[i].neighbors as u128 * 0x1_0000_0000_0000_0000
            + nodes[i].in_degree as u128 * 0x1_0000_0000 + nodes[i].out_degree as u128;
        keys.push(key);
        i = i + 1;
    }
    assert(keys@ =~= neighbor_keys(nodes@));
    let top: Vec<(usize, u64)> = top_keys(&keys);
    let mut listed: Vec<NeighborPatternCount> = Vec::new();
    let mut s: usize = 0;
    while s < top.len()
        invariant
            s == listed@.len() <= top@.len(),
            forall|t: int| 0 <= t < top@.len() ==> (#[trigger] top@[t]).0 < nodes@.len(),
            forall|t: int|
                0 <= t < s ==> {
                    &&& has_neighbors(nodes@[top@[t].0 as int], #[trigger] listed@[t])
                    &&& listed@[t].count == top@[t].1
                },
        decreases top@.len() - s,
    {
        let (at, count): (usize, u64) = top[s];
        assert(top@[s as int].0 < nodes@.len());
        listed.push(
            NeighborPatternCount {
                distinct_neighbors: nodes[at].neighbors,
                in_degree: nodes[at].in_degree,
                out_degree: nodes[at].out_degree,
                count,
            },
        );
        s = s + 1;
    }
    proof {
        reveal(top_neighbors);
        let ks = neighbor_keys(nodes@);
        assert(most_frequent(ks, top@));
        assert forall|s: int, i: int|
            0 <= s < listed@.len() && 0 <= i < n && has_neighbors(
                #[trigger] nodes@[i],
                #[trigger] listed@[s],
            ) implies listed@[s].count == neighbor_count(nodes@, nodes@[i], n) by {
            lemma_neighbor_frequency(nodes@, nodes@[i], n);
            assert(ks[top@[s].0 as int] == neighbor_key(nodes@[i]));
        }
        assert forall|s: int| 0 <= s < listed@.len() implies neighbors_occur(
            nodes@,
            #[trigger] listed@[s],
        ) by {
            assert(has_neighbors(nodes@[top@[s].0 as int], listed@[s]));
        }
        assert forall|s: int, t: int| 0 <= s < t < listed@.len() implies {
            &&& (#[trigger] listed@[s]).count >= (#[trigger] listed@[t]).count
            &&& listed@[s].in_degree != listed@[t].in_degree || listed@[s].out_degree
                != listed@[t].out_degree || listed@[s].distinct_neighbors
                != listed@[t].distinct_neighbors
        } by {
            assert(top@[s].1 >= top@[t].1);
            assert(ks[top@[s].0 as int] != ks[top@[t].0 as int]);
        }
        assert forall|i: int|
            0 <= i < n && !neighbors_listed(listed@, #[trigger] nodes@[i]) implies listed@.len()
            == 20 && forall|s: int|
            0 <= s < 20 ==> (#[trigger] listed@[s]).count >= neighbor_count(
                nodes@,
                nodes@[i],
                n,
            ) by {
            lemma_neighbor_frequency(nodes@, nodes@[i], n);
            if crate::transfers::patterns::lists(ks, top@, i) {
                let s = choose|s: int|
                    0 <= s < top@.len() && ks[(#[trigger] top@[s]).0 as int] == ks[i];
                assert(has_neighbors(nodes@[i], listed@[s]));
            }
            assert(ks[i] == neighbor_key(nodes@[i]));
            assert forall|s: int| 0 <= s < 20 implies (#[trigger] listed@[s]).count
                >= neighbor_count(nodes@, nodes@[i], n) by {
                assert(top@[s].1 >= frequency(ks, ks[i], n));
            }
        }
    }
    listed
}

/// Every node is of one sort.
proof fn lemma_sorts(nodes: Seq<NodeDegrees>, k: int)
    requires
        0 <= k <= nodes.len(),
    ensures
        of_sort(nodes, NodeSort::Isolated, k) + of_sort(nodes, NodeSort::DeadEnd, k) + of_sort(
            nodes,
            NodeSort::SimpleChain,
            k,
        ) + of_sort(nodes, NodeSort::Branch, k) == k,
        looping(nodes, k) <= k,
    decreases k,
{
    if k > 0 {
        lemma_sorts(nodes, k - 1);
    }
}

/// All ways of the first `s` shards, one shard after the other.
pub open spec fn all_ways(shards: Seq<Vec<CompactGraphEdgeRecord>>, s: int) -> Seq<
    CompactGraphEdgeRecord,
>
    decreases s,
{
    if s <= 0 {
        Seq::empty()
    } else {
        all_ways(shards, s - 1) + shards[s - 1]@
    }
}

/// How many of some ways are as asked.
pub open spec fn how_many(
    ways: Seq<CompactGraphEdgeRecord>,
    asked: spec_fn(CompactGraphEdgeRecord) -> bool,
) -> nat {
    positions(ways.len() as int, |i: int| asked(ways[i])).len()
}

proof fn lemma_how_many_more(
    a: Seq<CompactGraphEdgeRecord>,
    b: Seq<CompactGraphEdgeRecord>,
    asked: spec_fn(CompactGraphEdgeRecord) -> bool,
)
    ensures
        how_many(a + b, asked) == how_many(a, asked) + how_many(b, asked),
    decreases b.len(),
{
    let in_a = |i: int| asked(a[i]);
    let in_b = |i: int| asked(b[i]);
    let in_both = |i: int| asked((a + b)[i]);
    if b.len() == 0 {
        assert(a + b =~= a);
        lemma_none(in_b);
    } else {
        let n = a.len() as int;
        let c = b.drop_last();
        let in_c = |i: int| asked(c[i]);
        let in_fewer = |i: int| asked((a + c)[i]);
        lemma_how_many_more(a, c, asked);
        lemma_one_more(b.len() - 1, in_b);
        lemma_one_more(n + b.len() - 1, in_both);
        assert(positions(b.len() - 1, in_b) =~= positions(c.len() as int, in_c)) by {
            assert forall|i: int| 0 <= i < c.len() implies b[i] == c[i] by {}
        }
        assert(positions(n + b.len() - 1, in_both) =~= positions(
            (a + c).len() as int,
            in_fewer,
        )) by {
            assert forall|i: int| 0 <= i < n + c.len() implies (a + b)[i] == (a + c)[i] by {}
        }
        assert((a + b)[n + b.len() - 1] == b[b.len() - 1]);
    }
}

proof fn lemma_leaving_counts(edges: Seq<CompactGraphEdgeRecord>, n: int, k: int)
    requires
        0 <= k <= edges.len(),
    ensures
        leaving(edges, n, k) == positions(k, |i: int| edges[i].from == n).len(),
        arriving(edges, n, k) == positions(k, |i: int| edges[i].to == n).len(),
    decreases k,
{
    let out = |i: int| edges[i].from == n;
    let into = |i: int| edges[i].to == n;
    if k <= 0 {
        lemma_none(out);
        lemma_none(into);
    } else {
        lemma_leaving_counts(edges, n, k - 1);
        lemma_one_more(k - 1, out);
        lemma_one_more(k - 1, into);
    }
}

/// The degrees of a node are how many of all ways leave it, and how many lead to it, as far as 32
/// bits can say; and a way leads from it to itself if one of all ways does.
pub proof fn lemma_degrees_counted(shards: Seq<Vec<CompactGraphEdgeRecord>>, n: int, s: int)
    requires
        0 <= s <= shards.len(),
    ensures
        leaving_in(shards, n, s) == how_many(
            all_ways(shards, s),
            |way: CompactGraphEdgeRecord| way.from == n,
        ),
        arriving_in(shards, n, s) == how_many(
            all_ways(shards, s),
            |way: CompactGraphEdgeRecord| way.to == n,
        ),
        ways_in(shards, s) == all_ways(shards, s).len(),
        loops_in(shards, n, s) <==> exists|i: int|
            0 <= i < all_ways(shards, s).len() && (#[trigger] all_ways(shards, s)[i]).from == n
                && all_ways(shards, s)[i].to == n,
    decreases s,
{
    let out = |way: CompactGraphEdgeRecord| way.from == n;
    let into = |way: CompactGraphEdgeRecord| way.to == n;
    if s <= 0 {
        let none = Seq::<CompactGraphEdgeRecord>::empty();
        lemma_none(|i: int| out(none[i]));
        lemma_none(|i: int| into(none[i]));
    } else {
        lemma_degrees_counted(shards, n, s - 1);
        let before = all_ways(shards, s - 1);
        let edges = shards[s - 1]@;
        let k = edges.len() as int;
        lemma_how_many_more(before, edges, out);
        lemma_how_many_more(before, edges, into);
        lemma_leaving_counts(edges, n, k);
        assert(positions(k, |i: int| edges[i].from == n) =~= positions(k, |i: int| out(edges[i])));
        assert(positions(k, |i: int| edges[i].to == n) =~= positions(k, |i: int| into(edges[i])));
        let all = all_ways(shards, s);
        if loops_in(shards, n, s) {
            let f = choose|f: int|
                0 <= f < s && #[trigger] loops(shards[f]@, n, shards[f]@.len() as int);
            if f < s - 1 {
                assert(loops_in(shards, n, s - 1));
                let i = choose|i: int|
                    0 <= i < before.len() && (#[trigger] before[i]).from == n && before[i].to == n;
                assert(all[i] == before[i]);
            } else {
                let i = choose|i: int|
                    0 <= i < k && (#[trigger] edges[i]).from == n && edges[i].to == n;
                assert(all[before.len() + i] == edges[i]);
            }
        }
        if exists|i: int| 0 <= i < all.len() && (#[trigger] all[i]).from == n && all[i].to == n {
            let i = choose|i: int|
                0 <= i < all.len() && (#[trigger] all[i]).from == n && all[i].to == n;
            if i < before.len() {
                assert(before[i].from == n && before[i].to == n);
                assert(loops_in(shards, n, s - 1));
                let f = choose|f: int|
                    0 <= f < s - 1 && #[trigger] loops(shards[f]@, n, shards[f]@.len() as int);
                assert(loops(shards[f]@, n, shards[f]@.len() as int));
            } else {
                assert(edges[i - before.len()].from == n);
                assert(loops(edges, n, k));
            }
        }
    }
}

/// The nodes that some ways have at their other end.
pub open spec fn others(
    edges: Seq<CompactGraphEdgeRecord>,
    by_from: bool,
    a: int,
    b: int,
) -> Set<u32> {
    Set::new(
        |x: u32|
            exists|i: int| a <= i < b && (#[trigger] ends(edges[i], by_from)).1 == x,
    )
}

proof fn lemma_run(
    edges: Seq<CompactGraphEdgeRecord>,
    by_from: bool,
    totals: Seq<u32>,
    node: u32,
    a: int,
    b: int,
    k: int,
)
    requires
        0 <= k <= edges.len(),
        0 <= a <= b <= edges.len(),
        node < totals.len(),
        forall|i: int|
            0 <= i < edges.len() ==> (#[trigger] ends(edges[i], by_from)).0 < totals.len(),
        forall|i: int|
            0 <= i < edges.len() ==> ((#[trigger] ends(edges[i], by_from)).0 == node <==> a <= i
                < b),
    ensures
        ({
            let run = run_along(edges, by_from, totals, k);
            &&& run.totals.len() == totals.len()
            &&& run.seen.finite()
            &&& run.current matches Some(current) ==> current < totals.len()
            &&& run.current == Some(node) <==> a < k <= b
            &&& k <= b ==> run.totals[node as int] == totals[node as int]
            &&& a < k <= b ==> run.seen == others(edges, by_from, a, k)
            &&& k > b ==> run.totals[node as int] == saturated(
                totals[node as int] as nat + saturated(others(edges, by_from, a, b).len()) as nat,
            ) || a == b && run.totals[node as int] == totals[node as int]
        }),
    decreases k,
{
    if k > 0 {
        lemma_run(edges, by_from, totals, node, a, b, k - 1);
        let before = run_along(edges, by_from, totals, k - 1);
        let run = run_along(edges, by_from, totals, k);
        let end = ends(edges[k - 1], by_from);
        assert(end.0 == node <==> a <= k - 1 < b);
        if a <= k - 1 < b {
            if a < k - 1 {
                assert(before.current == Some(node));
                assert(run.seen =~= others(edges, by_from, a, k)) by {
                    assert forall|x: u32| run.seen.contains(x) implies others(
                        edges,
                        by_from,
                        a,
                        k,
                    ).contains(x) by {
                        if before.seen.contains(x) {
                            let i = choose|i: int|
                                a <= i < k - 1 && (#[trigger] ends(edges[i], by_from)).1 == x;
                            assert(ends(edges[i], by_from).1 == x);
                        } else {
                            assert(ends(edges[k - 1], by_from).1 == x);
                        }
                    }
                    assert forall|x: u32| others(edges, by_from, a, k).contains(x) implies
                        run.seen.contains(x) by {
                        let i = choose|i: int|
                            a <= i < k && (#[trigger] ends(edges[i], by_from)).1 == x;
                        if i < k - 1 {
                            assert(others(edges, by_from, a, k - 1).contains(x));
                        }
                    }
                }
            } else {
                assert(before.current != Some(node));
                assert(run.seen =~= others(edges, by_from, a, k)) by {
                    assert forall|x: u32| others(edges, by_from, a, k).contains(x) implies
                        run.seen.contains(x) by {
                        let i = choose|i: int|
                            a <= i < k && (#[trigger] ends(edges[i], by_from)).1 == x;
                        assert(i == k - 1);
                    }
                    assert forall|x: u32| run.seen.contains(x) implies others(
                        edges,
                        by_from,
                        a,
                        k,
                    ).contains(x) by {
                        assert(ends(edges[k - 1], by_from).1 == x);
                    }
                }
            }
        }
    }
}

/// Where the ways of a shard that have a node at the end by which they are grouped stand in one
/// run, from way `a` up to way `b`, that node gains as many neighbours as these ways have
/// different nodes at their other ends, as far as 32 bits can say; a node that has none gains
/// none.
pub proof fn lemma_neighbours_counted(
    edges: Seq<CompactGraphEdgeRecord>,
    by_from: bool,
    totals: Seq<u32>,
    node: u32,
    a: int,
    b: int,
)
    requires
        0 <= a <= b <= edges.len(),
        node < totals.len(),
        forall|i: int|
            0 <= i < edges.len() ==> (#[trigger] ends(edges[i], by_from)).0 < totals.len(),
        forall|i: int|
            0 <= i < edges.len() ==> ((#[trigger] ends(edges[i], by_from)).0 == node <==> a <= i
                < b),
    ensures
        ({
            let after = flushed(run_along(edges, by_from, totals, edges.len() as int));
            &&& after.len() == totals.len()
            &&& a == b ==> after[node as int] == totals[node as int]
            &&& a < b ==> after[node as int] == saturated(
                totals[node as int] as nat + saturated(others(edges, by_from, a, b).len()) as nat,
            )
        }),
{
    let n = edges.len() as int;
    lemma_run(edges, by_from, totals, node, a, b, n);
    if a == b {
        lemma_untouched(edges, by_from, totals, node, n);
    }
}

proof fn lemma_untouched(
    edges: Seq<CompactGraphEdgeRecord>,
    by_from: bool,
    totals: Seq<u32>,
    node: u32,
    k: int,
)
    requires
        0 <= k <= edges.len(),
        node < totals.len(),
        forall|i: int|
            0 <= i < edges.len() ==> (#[trigger] ends(edges[i], by_from)).0 < totals.len(),
        forall|i: int| 0 <= i < edges.len() ==> (#[trigger] ends(edges[i], by_from)).0 != node,
    ensures
        run_along(edges, by_from, totals, k).totals.len() == totals.len(),
        run_along(edges, by_from, totals, k).totals[node as int] == totals[node as int],
        run_along(edges, by_from, totals, k).current != Some(node),
        run_along(edges, by_from, totals, k).current matches Some(current) ==> current
            < totals.len(),
    decreases k,
{
    if k > 0 {
        lemma_untouched(edges, by_from, totals, node, k - 1);
        assert(ends(edges[k - 1], by_from).0 != node);
    }
}

/// How many neighbours a node has after the first `k` ways of a shard.
pub open spec fn counted_after(
    edges: Seq<CompactGraphEdgeRecord>,
    by_from: bool,
    totals: Seq<u32>,
    node: u32,
    k: int,
) -> u32 {
    flushed(run_along(edges, by_from, totals, k))[node as int]
}

proof fn lemma_run_fits(
    edges: Seq<CompactGraphEdgeRecord>,
    by_from: bool,
    totals: Seq<u32>,
    k: int,
)
    requires
        0 <= k <= edges.len(),
        forall|i: int|
            0 <= i < edges.len() ==> (#[trigger] ends(edges[i], by_from)).0 < totals.len(),
    ensures
        run_along(edges, by_from, totals, k).totals.len() == totals.len(),
        run_along(edges, by_from, totals, k).seen.finite(),
        k > 0 ==> run_along(edges, by_from, totals, k).current == Some(
            ends(edges[k - 1], by_from).0,
        ),
        k <= 0 ==> run_along(edges, by_from, totals, k).current is None,
    decreases k,
{
    if k > 0 {
        lemma_run_fits(edges, by_from, totals, k - 1);
    }
}

/// A way that does not have the node at the end by which ways are grouped adds no neighbour to it.
pub proof fn lemma_other_way(
    edges: Seq<CompactGraphEdgeRecord>,
    by_from: bool,
    totals: Seq<u32>,
    node: u32,
    k: int,
)
    requires
        0 <= k < edges.len(),
        node < totals.len(),
        forall|i: int|
            0 <= i < edges.len() ==> (#[trigger] ends(edges[i], by_from)).0 < totals.len(),
        ends(edges[k], by_from).0 != node,
    ensures
        counted_after(edges, by_from, totals, node, 0) == totals[node as int],
        counted_after(edges, by_from, totals, node, k + 1) == counted_after(
            edges,
            by_from,
            totals,
            node,
            k,
        ),
{
    lemma_run_fits(edges, by_from, totals, k);
    lemma_run_fits(edges, by_from, totals, k + 1);
}

proof fn lemma_within_run(
    edges: Seq<CompactGraphEdgeRecord>,
    by_from: bool,
    totals: Seq<u32>,
    node: u32,
    a: int,
    k: int,
)
    requires
        0 <= a < k <= edges.len(),
        node < totals.len(),
        forall|i: int|
            0 <= i < edges.len() ==> (#[trigger] ends(edges[i], by_from)).0 < totals.len(),
        a > 0 ==> ends(edges[a - 1], by_from).0 != node,
        forall|i: int| a <= i < k ==> (#[trigger] ends(edges[i], by_from)).0 == node,
    ensures
        run_along(edges, by_from, totals, k).totals[node as int] == counted_after(
            edges,
            by_from,
            totals,
            node,
            a,
        ),
        run_along(edges, by_from, totals, k).seen == others(edges, by_from, a, k),
    decreases k,
{
    lemma_run_fits(edges, by_from, totals, k - 1);
    let before = run_along(edges, by_from, totals, k - 1);
    let run = run_along(edges, by_from, totals, k);
    assert(ends(edges[k - 1], by_from).0 == node);
    if k - 1 > a {
        lemma_within_run(edges, by_from, totals, node, a, k - 1);
        assert(ends(edges[k - 2], by_from).0 == node);
    }
    assert forall|x: u32| run.seen.contains(x) <==> others(edges, by_from, a, k).contains(x) by {
        if others(edges, by_from, a, k).contains(x) {
            let i = choose|i: int| a <= i < k && (#[trigger] ends(edges[i], by_from)).1 == x;
            if i < k - 1 {
                assert(others(edges, by_from, a, k - 1).contains(x));
            }
        }
        if run.seen.contains(x) {
            if ends(edges[k - 1], by_from).1 == x {
                assert(others(edges, by_from, a, k).contains(x));
            } else {
                assert(before.seen.contains(x));
                let i = choose|i: int|
                    a <= i < k - 1 && (#[trigger] ends(edges[i], by_from)).1 == x;
                assert(ends(edges[i], by_from).1 == x);
            }
        }
    }
    assert(run.seen =~= others(edges, by_from, a, k));
}

/// Ways in a row, from way `a` up to way `b`, that have the node at the end by which ways are
/// grouped, and before which stands one that has not, add as many neighbours to it as they have
/// different nodes at their other ends, as far as 32 bits can say.
pub proof fn lemma_run_adds(
    edges: Seq<CompactGraphEdgeRecord>,
    by_from: bool,
    totals: Seq<u32>,
    node: u32,
    a: int,
    b: int,
)
    requires
        0 <= a < b <= edges.len(),
        node < totals.len(),
        forall|i: int|
            0 <= i < edges.len() ==> (#[trigger] ends(edges[i], by_from)).0 < totals.len(),
        a > 0 ==> ends(edges[a - 1], by_from).0 != node,
        forall|i: int| a <= i < b ==> (#[trigger] ends(edges[i], by_from)).0 == node,
    ensures
        ({
            let before = counted_after(edges, by_from, totals, node, a);
            let after = counted_after(edges, by_from, totals, node, b);
            let more = others(edges, by_from, a, b).len();
            &&& before + more <= 0xffff_ffff ==> after == before + more
            &&& before + more > 0xffff_ffff ==> after == 0xffff_ffff
        }),
{
    lemma_run_fits(edges, by_from, totals, b);
    lemma_within_run(edges, by_from, totals, node, a, b);
    assert(ends(edges[b - 1], by_from).0 == node);
}

/// The neighbours of a node are counted shard by shard, first those that ways lead to, and on top
/// of them those that ways come from.
pub proof fn lemma_shards_in_turn(
    shards: Seq<Vec<CompactGraphEdgeRecord>>,
    nodes: nat,
    by_from: bool,
    totals: Seq<u32>,
    node: u32,
    s: int,
)
    requires
        0 < s <= shards.len(),
    ensures
        totals_after(shards, by_from, totals, 0) == totals,
        totals_after(shards, by_from, totals, s)[node as int] == counted_after(
            shards[s - 1]@,
            by_from,
            totals_after(shards, by_from, totals, s - 1),
            node,
            shards[s - 1]@.len() as int,
        ),
        neighbours_in(shards, nodes) == totals_after(
            shards,
            false,
            totals_after(shards, true, Seq::new(nodes, |i: int| 0u32), shards.len() as int),
            shards.len() as int,
        ),
{
}

/// What the degrees of a node say: how many of all ways lead to it, and how many leave it, as far
/// as 32 bits can say, and whether one leads from it to itself.
pub proof fn lemma_degrees_of(shards: Seq<Vec<CompactGraphEdgeRecord>>, nodes: nat, n: int)
    ensures
        ({
            let d = degrees_of(shards, nodes, n);
            let ways = all_ways(shards, shards.len() as int);
            let into = how_many(ways, |way: CompactGraphEdgeRecord| way.to == n);
            let out = how_many(ways, |way: CompactGraphEdgeRecord| way.from == n);
            &&& d.in_degree == (if into <= 0xffff_ffff {
                into as int
            } else {
                0xffff_ffff
            })
            &&& d.out_degree == (if out <= 0xffff_ffff {
                out as int
            } else {
                0xffff_ffff
            })
            &&& d.self_loop <==> exists|i: int|
                0 <= i < ways.len() && (#[trigger] ways[i]).from == n && ways[i].to == n
        }),
{
    lemma_degrees_counted(shards, n, shards.len() as int);
}

/// The neighbours of a node in one shard, where the ways that leave it stand in one run, and those
/// that lead to it in another: how many different nodes they lead to, and from how many they come.
pub proof fn lemma_neighbours_of_shard(
    shards: Seq<Vec<CompactGraphEdgeRecord>>,
    nodes: nat,
    node: u32,
    a: int,
    b: int,
    c: int,
    d: int,
)
    requires
        shards.len() == 1,
        ways_fit(shards, nodes),
        node < nodes,
        0 <= a < b <= shards[0]@.len(),
        0 <= c < d <= shards[0]@.len(),
        forall|i: int|
            0 <= i < shards[0]@.len() ==> ((#[trigger] shards[0]@[i]).from == node <==> a <= i < b),
        forall|i: int|
            0 <= i < shards[0]@.len() ==> ((#[trigger] shards[0]@[i]).to == node <==> c <= i < d),
    ensures
        ({
            let edges = shards[0]@;
            let to = others(edges, true, a, b).len();
            let from = others(edges, false, c, d).len();
            to + from <= 0xffff_ffff ==> neighbours_in(shards, nodes)[node as int] == to + from
        }),
{
    let edges = shards[0]@;
    let none = Seq::new(nodes, |i: int| 0u32);
    reveal_with_fuel(totals_after, 2);
    assert forall|i: int| 0 <= i < edges.len() implies (#[trigger] ends(edges[i], true)).0
        < nodes by {
        assert(shards[0]@[i].from < nodes);
    }
    assert forall|i: int| 0 <= i < edges.len() implies (#[trigger] ends(edges[i], false)).0
        < nodes by {
        assert(shards[0]@[i].to < nodes);
    }
    assert forall|i: int| 0 <= i < edges.len() implies ((#[trigger] ends(edges[i], true)).0
        == node <==> a <= i < b) by {
        assert(shards[0]@[i].from == node <==> a <= i < b);
    }
    assert forall|i: int| 0 <= i < edges.len() implies ((#[trigger] ends(edges[i], false)).0
        == node <==> c <= i < d) by {
        assert(shards[0]@[i].to == node <==> c <= i < d);
    }
    lemma_neighbours_counted(edges, true, none, node, a, b);
    let first = totals_after(shards, true, none, 1);
    lemma_neighbours_counted(edges, false, first, node, c, d);
}

/// The neighbours that a further shard adds to those counted before, where the ways of a node
/// stand in one run.
pub proof fn lemma_neighbours_add_up(
    shards: Seq<Vec<CompactGraphEdgeRecord>>,
    by_from: bool,
    totals: Seq<u32>,
    node: u32,
    s: int,
    a: int,
    b: int,
)
    requires
        0 < s <= shards.len(),
        0 <= a <= b <= shards[s - 1]@.len(),
        totals_after(shards, by_from, totals, s - 1).len() == totals.len(),
        node < totals.len(),
        forall|i: int|
            0 <= i < shards[s - 1]@.len() ==> (#[trigger] ends(shards[s - 1]@[i], by_from)).0
                < totals.len(),
        forall|i: int|
            0 <= i < shards[s - 1]@.len() ==> ((#[trigger] ends(shards[s - 1]@[i], by_from)).0
                == node <==> a <= i < b),
    ensures
        ({
            let before = totals_after(shards, by_from, totals, s - 1)[node as int];
            let after = totals_after(shards, by_from, totals, s)[node as int];
            let more = if a < b {
                others(shards[s - 1]@, by_from, a, b).len()
            } else {
                0
            };
            before + more <= 0xffff_ffff ==> after == before + more
        }),
{
    let before = totals_after(shards, by_from, totals, s - 1);
    lemma_neighbours_counted(shards[s - 1]@, by_from, before, node, a, b);
}

/// How many nodes are of each sort: those that no way leads to or leaves; those that lie between
/// exactly two neighbours and have no way to themselves; those with more neighbours or a way to
/// themselves; and the rest.
pub proof fn lemma_sorts_counted(nodes: Seq<NodeDegrees>, k: int)
    requires
        0 <= k <= nodes.len(),
    ensures
        of_sort(nodes, NodeSort::Isolated, k) == positions(
            k,
            |i: int| nodes[i].in_degree == 0 && nodes[i].out_degree == 0,
        ).len(),
        of_sort(nodes, NodeSort::SimpleChain, k) == positions(
            k,
            |i: int|
                nodes[i].in_degree > 0 && nodes[i].out_degree > 0 && !nodes[i].self_loop
                    && nodes[i].neighbors == 2,
        ).len(),
        of_sort(nodes, NodeSort::Branch, k) == positions(
            k,
            |i: int|
                nodes[i].in_degree > 0 && nodes[i].out_degree > 0 && (nodes[i].self_loop
                    || nodes[i].neighbors > 2),
        ).len(),
        of_sort(nodes, NodeSort::DeadEnd, k) == positions(
            k,
            |i: int|
                (nodes[i].in_degree == 0) != (nodes[i].out_degree == 0) || nodes[i].in_degree > 0
                    && nodes[i].out_degree > 0 && !nodes[i].self_loop && nodes[i].neighbors < 2,
        ).len(),
        looping(nodes, k) == positions(k, |i: int| nodes[i].self_loop).len(),
    decreases k,
{
    let isolated = |i: int| nodes[i].in_degree == 0 && nodes[i].out_degree == 0;
    let chain = |i: int|
        nodes[i].in_degree > 0 && nodes[i].out_degree > 0 && !nodes[i].self_loop
            && nodes[i].neighbors == 2;
    let branch = |i: int|
        nodes[i].in_degree > 0 && nodes[i].out_degree > 0 && (nodes[i].self_loop
            || nodes[i].neighbors > 2);
    let dead = |i: int|
        (nodes[i].in_degree == 0) != (nodes[i].out_degree == 0) || nodes[i].in_degree > 0
            && nodes[i].out_degree > 0 && !nodes[i].self_loop && nodes[i].neighbors < 2;
    let looped = |i: int| nodes[i].self_loop;
    if k <= 0 {
        lemma_none(isolated);
        lemma_none(chain);
        lemma_none(branch);
        lemma_none(dead);
        lemma_none(looped);
    } else {
        lemma_sorts_counted(nodes, k - 1);
        lemma_one_more(k - 1, isolated);
        lemma_one_more(k - 1, chain);
        lemma_one_more(k - 1, branch);
        lemma_one_more(k - 1, dead);
        lemma_one_more(k - 1, looped);
    }
}

/// How many nodes have these degrees, and how many have these neighbours too.
pub proof fn lemma_patterns_counted(nodes: Seq<NodeDegrees>, p: NodeDegrees, k: int)
    requires
        0 <= k <= nodes.len(),
    ensures
        degree_count(nodes, p, k) == positions(
            k,
            |i: int| nodes[i].in_degree == p.in_degree && nodes[i].out_degree == p.out_degree,
        ).len(),
        neighbor_count(nodes, p, k) == positions(
            k,
            |i: int|
                nodes[i].in_degree == p.in_degree && nodes[i].out_degree == p.out_degree
                    && nodes[i].neighbors == p.neighbors,
        ).len(),
    decreases k,
{
    let alike = |i: int| nodes[i].in_degree == p.in_degree && nodes[i].out_degree == p.out_degree;
    let near_alike = |i: int|
        nodes[i].in_degree == p.in_degree && nodes[i].out_degree == p.out_degree
            && nodes[i].neighbors == p.neighbors;
    if k <= 0 {
        lemma_none(alike);
        lemma_none(near_alike);
    } else {
        lemma_patterns_counted(nodes, p, k - 1);
        lemma_one_more(k - 1, alike);
        lemma_one_more(k - 1, near_alike);
    }
}

/// What holds of the figures for nodes with these degrees.
pub open spec fn sums_up(nodes: Seq<NodeDegrees>, stats: ReductionStats) -> bool {
    let n = nodes.len() as int;
    &&& stats.compact_node_count == n
    &&& stats.zero_degree_nodes == of_sort(nodes, NodeSort::Isolated, n)
    &&& stats.nodes_with_any_edge == n - of_sort(nodes, NodeSort::Isolated, n)
    &&& stats.dead_end_nodes == of_sort(nodes, NodeSort::DeadEnd, n)
    &&& stats.simple_chain_nodes == of_sort(nodes, NodeSort::SimpleChain, n)
    &&& stats.branch_nodes == of_sort(nodes, NodeSort::Branch, n)
    &&& stats.self_loop_nodes == looping(nodes, n)
    &&& is_max(in_degrees(nodes), stats.max_in_degree)
    &&& is_max(out_degrees(nodes), stats.max_out_degree)
    &&& is_max(neighbor_numbers(nodes), stats.max_distinct_neighbors)
    &&& stats.estimated_collapsible_nodes == stats.simple_chain_nodes
    &&& stats.estimated_keep_nodes == n - stats.simple_chain_nodes
    &&& top_degrees(nodes, stats.top_degree_patterns@)
    &&& top_neighbors(nodes, stats.top_neighbor_patterns@)
}

/// What the figures say: how many nodes are of each kind, and which degrees are the largest.
pub proof fn lemma_figures(nodes: Seq<NodeDegrees>, stats: ReductionStats)
    requires
        sums_up(nodes, stats),
    ensures
        ({
            let n = nodes.len() as int;
            let between = |i: int|
                nodes[i].in_degree > 0 && nodes[i].out_degree > 0 && !nodes[i].self_loop
                    && nodes[i].neighbors == 2;
            &&& stats.compact_node_count == n
            &&& stats.zero_degree_nodes == positions(
                n,
                |i: int| nodes[i].in_degree == 0 && nodes[i].out_degree == 0,
            ).len()
            &&& stats.nodes_with_any_edge + stats.zero_degree_nodes == n
            &&& stats.simple_chain_nodes == positions(n, between).len()
            &&& stats.estimated_collapsible_nodes == positions(n, between).len()
            &&& stats.estimated_keep_nodes + positions(n, between).len() == n
            &&& stats.branch_nodes == positions(
                n,
                |i: int|
                    nodes[i].in_degree > 0 && nodes[i].out_degree > 0 && (nodes[i].self_loop
                        || nodes[i].neighbors > 2),
            ).len()
            &&& stats.zero_degree_nodes + stats.dead_end_nodes + stats.simple_chain_nodes
                + stats.branch_nodes == n
            &&& stats.self_loop_nodes == positions(n, |i: int| nodes[i].self_loop).len()
            &&& forall|i: int|
                0 <= i < n ==> (#[trigger] nodes[i]).in_degree <= stats.max_in_degree
                    && nodes[i].out_degree <= stats.max_out_degree && nodes[i].neighbors
                    <= stats.max_distinct_neighbors
            &&& n > 0 ==> exists|i: int|
                0 <= i < n && (#[trigger] nodes[i]).in_degree == stats.max_in_degree
            &&& n > 0 ==> exists|i: int|
                0 <= i < n && (#[trigger] nodes[i]).out_degree == stats.max_out_degree
            &&& n > 0 ==> exists|i: int|
                0 <= i < n && (#[trigger] nodes[i]).neighbors == stats.max_distinct_neighbors
        }),
{
    let n = nodes.len() as int;
    lemma_sorts_counted(nodes, n);
    lemma_sorts(nodes, n);
    assert forall|i: int| 0 <= i < n implies (#[trigger] nodes[i]).in_degree
        <= stats.max_in_degree && nodes[i].out_degree <= stats.max_out_degree && nodes[i].neighbors
        <= stats.max_distinct_neighbors by {
        assert(in_degrees(nodes)[i] <= stats.max_in_degree);
        assert(out_degrees(nodes)[i] <= stats.max_out_degree);
        assert(neighbor_numbers(nodes)[i] <= stats.max_distinct_neighbors);
    }
    if n > 0 {
        let a = in_degrees(nodes).index_of(stats.max_in_degree);
        assert(nodes[a].in_degree == stats.max_in_degree);
        let b = out_degrees(nodes).index_of(stats.max_out_degree);
        assert(nodes[b].out_degree == stats.max_out_degree);
        let c = neighbor_numbers(nodes).index_of(stats.max_distinct_neighbors);
        assert(nodes[c].neighbors == stats.max_distinct_neighbors);
    }
}

/// The degrees that are listed are the most frequent ones: each with how many nodes have it, the
/// most frequent first, each once, at most twenty; and where a node's degrees are not listed,
/// there are twenty that are no less frequent.
pub proof fn lemma_top_degrees(nodes: Seq<NodeDegrees>, stats: ReductionStats)
    requires
        sums_up(nodes, stats),
    ensures
        ({
            let listed = stats.top_degree_patterns@;
            let n = nodes.len() as int;
            &&& listed.len() <= 20
            &&& forall|s: int|
                0 <= s < listed.len() ==> (#[trigger] listed[s]).count == positions(
                    n,
                    |i: int|
                        nodes[i].in_degree == listed[s].in_degree && nodes[i].out_degree
                            == listed[s].out_degree,
                ).len()
            &&& forall|s: int, t: int|
                0 <= s < t < listed.len() ==> (#[trigger] listed[s]).count >= (
                #[trigger] listed[t]).count && (listed[s].in_degree != listed[t].in_degree
                    || listed[s].out_degree != listed[t].out_degree)
            &&& forall|i: int|
                0 <= i < n ==> {
                    ||| exists|s: int|
                        0 <= s < listed.len() && (#[trigger] listed[s]).in_degree
                            == nodes[i].in_degree && listed[s].out_degree == nodes[i].out_degree
                    ||| listed.len() == 20 && forall|s: int|
                        0 <= s < 20 ==> (#[trigger] listed[s]).count >= degree_count(
                            nodes,
                            #[trigger] nodes[i],
                            n,
                        )
                }
        }),
{
    reveal(top_degrees);
    let listed = stats.top_degree_patterns@;
    let n = nodes.len() as int;
    assert forall|s: int| 0 <= s < listed.len() implies (#[trigger] listed[s]).count == positions(
        n,
        |i: int|
            nodes[i].in_degree == listed[s].in_degree && nodes[i].out_degree
                == listed[s].out_degree,
    ).len() by {
        assert(degrees_occur(nodes, listed[s]));
        let i = choose|i: int| 0 <= i < n && has_degrees(#[trigger] nodes[i], listed[s]);
        let p = nodes[i];
        assert(has_degrees(nodes[i], listed[s]));
        lemma_patterns_counted(nodes, p, n);
        assert(positions(
            n,
            |i: int|
                nodes[i].in_degree == listed[s].in_degree && nodes[i].out_degree
                    == listed[s].out_degree,
        ) =~= positions(
            n,
            |i: int| nodes[i].in_degree == p.in_degree && nodes[i].out_degree == p.out_degree,
        ));
    }
    assert forall|i: int| 0 <= i < n implies ((exists|s: int|
        0 <= s < listed.len() && (#[trigger] listed[s]).in_degree == nodes[i].in_degree
            && listed[s].out_degree == nodes[i].out_degree) || listed.len() == 20 && forall|s: int|
        0 <= s < 20 ==> (#[trigger] listed[s]).count >= degree_count(
            nodes,
            #[trigger] nodes[i],
            n,
        )) by {
        if degrees_listed(listed, nodes[i]) {
            let s = choose|s: int| 0 <= s < listed.len() && has_degrees(
                nodes[i],
                #[trigger] listed[s],
            );
            assert(listed[s].in_degree == nodes[i].in_degree);
        }
    }
}

/// The neighbours and degrees that are listed are the most frequent ones.
pub proof fn lemma_top_neighbors(nodes: Seq<NodeDegrees>, stats: ReductionStats)
    requires
        sums_up(nodes, stats),
    ensures
        ({
            let listed = stats.top_neighbor_patterns@;
            let n = nodes.len() as int;
            &&& listed.len() <= 20
            &&& forall|s: int|
                0 <= s < listed.len() ==> (#[trigger] listed[s]).count == positions(
                    n,
                    |i: int|
                        nodes[i].in_degree == listed[s].in_degree && nodes[i].out_degree
                            == listed[s].out_degree && nodes[i].neighbors
                            == listed[s].distinct_neighbors,
                ).len()
            &&& forall|s: int, t: int|
                0 <= s < t < listed.len() ==> (#[trigger] listed[s]).count >= (
                #[trigger] listed[t]).count && (listed[s].in_degree != listed[t].in_degree
                    || listed[s].out_degree != listed[t].out_degree
                    || listed[s].distinct_neighbors != listed[t].distinct_neighbors)
            &&& forall|i: int|
                0 <= i < n ==> {
                    ||| exists|s: int|
                        0 <= s < listed.len() && (#[trigger] listed[s]).in_degree
                            == nodes[i].in_degree && listed[s].out_degree == nodes[i].out_degree
                            && listed[s].distinct_neighbors == nodes[i].neighbors
                    ||| listed.len() == 20 && forall|s: int|
                        0 <= s < 20 ==> (#[trigger] listed[s]).count >= neighbor_count(
                            nodes,
                            #[trigger] nodes[i],
                            n,
                        )
                }
        }),
{
    reveal(top_neighbors);
    let listed = stats.top_neighbor_patterns@;
    let n = nodes.len() as int;
    assert forall|s: int| 0 <= s < listed.len() implies (#[trigger] listed[s]).count == positions(
        n,
        |i: int|
            nodes[i].in_degree == listed[s].in_degree && nodes[i].out_degree
                == listed[s].out_degree && nodes[i].neighbors == listed[s].distinct_neighbors,
    ).len() by {
        assert(neighbors_occur(nodes, listed[s]));
        let i = choose|i: int| 0 <= i < n && has_neighbors(#[trigger] nodes[i], listed[s]);
        let p = nodes[i];
        assert(has_neighbors(nodes[i], listed[s]));
        lemma_patterns_counted(nodes, p, n);
        assert(positions(
            n,
            |i: int|
                nodes[i].in_degree == listed[s].in_degree && nodes[i].out_degree
                    == listed[s].out_degree && nodes[i].neighbors == listed[s].distinct_neighbors,
        ) =~= positions(
            n,
            |i: int|
                nodes[i].in_degree == p.in_degree && nodes[i].out_degree == p.out_degree
                    && nodes[i].neighbors == p.neighbors,
        ));
    }
    assert forall|i: int| 0 <= i < n implies ((exists|s: int|
        0 <= s < listed.len() && (#[trigger] listed[s]).in_degree == nodes[i].in_degree
            && listed[s].out_degree == nodes[i].out_degree && listed[s].distinct_neighbors
            == nodes[i].neighbors) || listed.len() == 20 && forall|s: int|
        0 <= s < 20 ==> (#[trigger] listed[s]).count >= neighbor_count(
            nodes,
            #[trigger] nodes[i],
            n,
        )) by {
        if neighbors_listed(listed, nodes[i]) {
            let s = choose|s: int| 0 <= s < listed.len() && has_neighbors(
                nodes[i],
                #[trigger] listed[s],
            );
            assert(listed[s].in_degree == nodes[i].in_degree);
        }
    }
}

/// Sums up the degrees of all nodes.
pub fn summarize(nodes: &Vec<NodeDegrees>, edge_count: u64) -> (stats: ReductionStats)
    requires
        nodes@.len() <= u32::MAX,
    ensures
        sums_up(nodes@, stats),
        stats.edge_count == edge_count,
        stats.zero_degree_nodes + stats.dead_end_nodes + stats.simple_chain_nodes
            + stats.branch_nodes == nodes@.len(),
{
    let mut isolated: u64 = 0;
    let mut dead_ends: u64 = 0;
    let mut chains: u64 = 0;
    let mut branches: u64 = 0;
    let mut loops: u64 = 0;
    let mut max_in: u32 = 0;
    let mut max_out: u32 = 0;
    let mut max_neighbors: u32 = 0;
    let mut n: usize = 0;
    while n < nodes.len()
        invariant
            n <= nodes@.len() <= u32::MAX,
            isolated == of_sort(nodes@, NodeSort::Isolated, n as int),
            dead_ends == of_sort(nodes@, NodeSort::DeadEnd, n as int),
            chains == of_sort(nodes@, NodeSort::SimpleChain, n as int),
            branches == of_sort(nodes@, NodeSort::Branch, n as int),
            loops == looping(nodes@, n as int),
            is_max(in_degrees(nodes@.take(n as int)), max_in),
            is_max(out_degrees(nodes@.take(n as int)), max_out),
            is_max(neighbor_numbers(nodes@.take(n as int)), max_neighbors),
        decreases nodes@.len() - n,
    {
        let d: NodeDegrees = nodes[n];
        proof {
            lemma_sorts(nodes@, n as int);
            let before = nodes@.take(n as int);
            let after = nodes@.take(n + 1);
            assert(after =~= before.push(d));
            assert(in_degrees(after) =~= in_degrees(before).push(d.in_degree));
            assert(out_degrees(after) =~= out_degrees(before).push(d.out_degree));
            assert(neighbor_numbers(after) =~= neighbor_numbers(before).push(d.neighbors));
            lemma_max_push(in_degrees(before), max_in, d.in_degree);
            lemma_max_push(out_degrees(before), max_out, d.out_degree);
            lemma_max_push(neighbor_numbers(before), max_neighbors, d.neighbors);
        }
        if d.in_degree > max_in {
            max_in = d.in_degree;
        }
        if d.out_degree > max_out {
            max_out = d.out_degree;
        }
        if d.neighbors > max_neighbors {
            max_neighbors = d.neighbors;
        }
        if d.self_loop {
            loops = loops + 1;
        }
        if d.in_degree == 0 && d.out_degree == 0 {
            isolated = isolated + 1;
        } else if d.in_degree == 0 || d.out_degree == 0 {
            dead_ends = dead_ends + 1;
        } else if d.self_loop || d.neighbors > 2 {
            branches = branches + 1;
        } else if d.neighbors == 2 {
            chains = chains + 1;
        } else {
            dead_ends = dead_ends + 1;
        }
        n = n + 1;
    }
    proof {
        lemma_sorts(nodes@, nodes@.len() as int);
        assert(nodes@.take(nodes@.len() as int) =~= nodes@);
    }
    let top_degree_patterns: Vec<DegreePatternCount> = list_degrees(nodes);
    let top_neighbor_patterns: Vec<NeighborPatternCount> = list_neighbors(nodes);
    let total: u64 = nodes.len() as u64;
    ReductionStats {
        compact_node_count: nodes.len() as u32,
        edge_count,
        nodes_with_any_edge: total - isolated,
        zero_degree_nodes: isolated,
        dead_end_nodes: dead_ends,
        simple_chain_nodes: chains,
        branch_nodes: branches,
        self_loop_nodes: loops,
        max_in_degree: max_in,
        max_out_degree: max_out,
        max_distinct_neighbors: max_neighbors,
        estimated_keep_nodes: total - chains,
        estimated_collapsible_nodes: chains,
        top_degree_patterns,
        top_neighbor_patterns,
    }
}

proof fn lemma_max_push(values: Seq<u32>, most: u32, x: u32)
    requires
        is_max(values, most),
    ensures
        is_max(
            values.push(x),
            if x > most {
                x
            } else {
                most
            },
        ),
{
    let pushed = values.push(x);
    let m = if x > most {
        x
    } else {
        most
    };
    assert forall|i: int| 0 <= i < pushed.len() implies #[trigger] pushed[i] <= m by {
        if i < values.len() {
            assert(values[i] <= most);
        }
    }
    if x > most || values.len() == 0 {
        assert(pushed[values.len() as int] == m);
    } else {
        let i = values.index_of(most);
        assert(values[i] == most);
        assert(pushed[i] == m);
    }
}

impl PreparedTransferGraph {
    /// How far the graph with these ways could be reduced.
    pub fn analyze_reduction_potential(&self, shards: &Vec<Vec<CompactGraphEdgeRecord>>) -> (stats:
        ReductionStats)
        requires
            ways_fit(shards@, self.compact_node_count as nat),
            ways_in(shards@, shards@.len() as int) <= u64::MAX,
        ensures
            sums_up(
                Seq::new(
                    self.compact_node_count as nat,
                    |n: int| degrees_of(shards@, self.compact_node_count as nat, n),
                ),
                stats,
            ),
            stats.compact_node_count == self.compact_node_count,
            stats.edge_count == ways_in(shards@, shards@.len() as int),
            stats.zero_degree_nodes + stats.dead_end_nodes + stats.simple_chain_nodes
                + stats.branch_nodes == self.compact_node_count,
    {
        let nodes: usize = self.compact_node_count as usize;
        let (degrees, edge_count): (Vec<NodeDegrees>, u64) = count_degrees(shards, nodes);
        assert(degrees@ =~= Seq::new(
            self.compact_node_count as nat,
            |n: int| degrees_of(shards@, self.compact_node_count as nat, n),
        ));
        summarize(&degrees, edge_count)
    }
}

} // verus!
